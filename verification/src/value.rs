//! The bencode value model: a tagged union of byte strings, integers, lists
//! and dictionaries, together with its mathematical abstraction `ValueModel`.
//!
//! A dictionary keeps its entries sorted in strictly ascending unsigned-byte
//! order of the keys, whatever order they were inserted in; canonical
//! re-encoding (and hence the info-hash) depends on this.

use vstd::prelude::*;

verus! {

use vstd::string::StringSliceAdditionalSpecFns;

/// Mathematical abstraction of a bencode value: what contracts speak about.
/// A dictionary is abstracted as its ordered sequence of (key, value) pairs.
pub enum ValueModel {
    Bytes(Seq<u8>),
    Int(int),
    List(Seq<ValueModel>),
    Dict(Seq<(Seq<u8>, ValueModel)>),
}

/// Strict lexicographic order on byte strings, comparing bytes as unsigned.
pub open spec fn bytes_lt(a: Seq<u8>, b: Seq<u8>) -> bool
    decreases a.len(),
{
    if b.len() == 0 {
        false
    } else if a.len() == 0 {
        true
    } else if a[0] < b[0] {
        true
    } else if a[0] > b[0] {
        false
    } else {
        bytes_lt(a.drop_first(), b.drop_first())
    }
}

/// The keys of a dictionary's entry sequence are strictly ascending.
pub open spec fn entries_sorted(entries: Seq<(Seq<u8>, ValueModel)>) -> bool {
    forall|i: int, j: int| 0 <= i < j < entries.len() ==> bytes_lt(entries[i].0, entries[j].0)
}

impl ValueModel {
    /// Well-formedness: every integer fits in `i64` and every dictionary,
    /// at any depth, has strictly ascending keys. Every value the decoder
    /// produces is well formed, and encoding is canonical exactly on well
    /// formed values.
    pub open spec fn wf(self) -> bool
        decreases self,
    {
        match self {
            ValueModel::Bytes(_) => true,
            ValueModel::Int(n) => i64::MIN <= n <= i64::MAX,
            ValueModel::List(items) => forall|i: int|
                0 <= i < items.len() ==> (#[trigger] items[i]).wf(),
            ValueModel::Dict(entries) => entries_sorted(entries) && forall|i: int|
                0 <= i < entries.len() ==> (#[trigger] entries[i]).1.wf(),
        }
    }
}

/// Looks a key up in an entry sequence.
pub open spec fn entries_get(entries: Seq<(Seq<u8>, ValueModel)>, key: Seq<u8>) -> Option<
    ValueModel,
>
    decreases entries.len(),
{
    if entries.len() == 0 {
        None
    } else if entries[0].0 == key {
        Some(entries[0].1)
    } else {
        entries_get(entries.drop_first(), key)
    }
}

/// Inserts a binding into an entry sequence, keeping keys strictly
/// ascending; an existing binding of the same key is replaced.
pub open spec fn entries_insert(
    entries: Seq<(Seq<u8>, ValueModel)>,
    key: Seq<u8>,
    value: ValueModel,
) -> Seq<(Seq<u8>, ValueModel)>
    decreases entries.len(),
{
    if entries.len() == 0 {
        seq![(key, value)]
    } else if bytes_lt(key, entries[0].0) {
        seq![(key, value)] + entries
    } else if key == entries[0].0 {
        seq![(key, value)] + entries.drop_first()
    } else {
        seq![entries[0]] + entries_insert(entries.drop_first(), key, value)
    }
}

/// A bencode dictionary: entries kept sorted by strictly ascending key.
#[derive(Debug)]
pub struct Dict {
    pub entries: Vec<(Vec<u8>, Value)>,
}

/// A decoded bencode value.
#[derive(Debug)]
pub enum Value {
    String(Vec<u8>),
    Int(i64),
    List(Vec<Value>),
    Dict(Dict),
}

/// The abstraction of a concrete value.
pub open spec fn value_model(v: Value) -> ValueModel
    decreases v, 1int,
{
    match v {
        Value::String(b) => ValueModel::Bytes(b@),
        Value::Int(n) => ValueModel::Int(n as int),
        Value::List(items) => ValueModel::List(value_models(items@)),
        Value::Dict(d) => ValueModel::Dict(entry_models(d.entries@)),
    }
}

/// The abstractions of a sequence of concrete values, element by element.
pub open spec fn value_models(s: Seq<Value>) -> Seq<ValueModel>
    decreases s, 0int,
{
    if s.len() == 0 {
        Seq::empty()
    } else {
        seq![value_model(s[0])] + value_models(s.drop_first())
    }
}

/// The abstractions of a sequence of concrete entries, element by element.
pub open spec fn entry_models(s: Seq<(Vec<u8>, Value)>) -> Seq<(Seq<u8>, ValueModel)>
    decreases s, 0int,
{
    if s.len() == 0 {
        Seq::empty()
    } else {
        seq![(s[0].0@, value_model(s[0].1))] + entry_models(s.drop_first())
    }
}

pub broadcast proof fn value_models_len(s: Seq<Value>)
    ensures
        (#[trigger] value_models(s)).len() == s.len(),
    decreases s.len(),
{
    if s.len() > 0 {
        value_models_len(s.drop_first());
    }
}

pub broadcast proof fn value_models_index(s: Seq<Value>, i: int)
    requires
        0 <= i < s.len(),
    ensures
        value_models(s).len() == s.len(),
        #[trigger] value_models(s)[i] == value_model(s[i]),
    decreases s.len(),
{
    value_models_len(s);
    if i > 0 {
        value_models_index(s.drop_first(), i - 1);
    }
}

pub broadcast proof fn entry_models_len(s: Seq<(Vec<u8>, Value)>)
    ensures
        (#[trigger] entry_models(s)).len() == s.len(),
    decreases s.len(),
{
    if s.len() > 0 {
        entry_models_len(s.drop_first());
    }
}

pub broadcast proof fn entry_models_index(s: Seq<(Vec<u8>, Value)>, i: int)
    requires
        0 <= i < s.len(),
    ensures
        entry_models(s).len() == s.len(),
        #[trigger] entry_models(s)[i] == (s[i].0@, value_model(s[i].1)),
    decreases s.len(),
{
    entry_models_len(s);
    if i > 0 {
        entry_models_index(s.drop_first(), i - 1);
    }
}

pub proof fn lemma_value_models_push(s: Seq<Value>, v: Value)
    ensures
        value_models(s.push(v)) == value_models(s) + seq![value_model(v)],
    decreases s.len(),
{
    if s.len() == 0 {
        assert(s.push(v).drop_first() =~= Seq::<Value>::empty());
        assert(s.push(v)[0] == v);
        assert(value_models(Seq::<Value>::empty()) =~= Seq::<ValueModel>::empty());
        assert(value_models(s.push(v)) =~= seq![value_model(v)]);
        assert(value_models(s) + seq![value_model(v)] =~= seq![value_model(v)]);
    } else {
        lemma_value_models_push(s.drop_first(), v);
        assert(s.push(v).drop_first() =~= s.drop_first().push(v));
        assert(s.push(v)[0] == s[0]);
        assert(seq![value_model(s[0])] + (value_models(s.drop_first()) + seq![value_model(v)])
            =~= (seq![value_model(s[0])] + value_models(s.drop_first())) + seq![value_model(v)]);
    }
}

pub broadcast group group_value_model_axioms {
    value_models_len,
    value_models_index,
    entry_models_len,
    entry_models_index,
}

impl DeepView for Value {
    type V = ValueModel;

    open spec fn deep_view(&self) -> ValueModel {
        value_model(*self)
    }
}

impl View for Value {
    type V = ValueModel;

    open spec fn view(&self) -> ValueModel {
        value_model(*self)
    }
}

impl View for Dict {
    type V = Seq<(Seq<u8>, ValueModel)>;

    open spec fn view(&self) -> Seq<(Seq<u8>, ValueModel)> {
        entry_models(self.entries@)
    }
}

/// Whether two byte strings are equal.
pub fn bytes_eq(a: &[u8], b: &[u8]) -> (r: bool)
    ensures
        r == (a@ == b@),
{
    let (_, eq) = bytes_before(a, b);
    eq
}

/// Exact three-way comparison used to keep dictionary keys sorted:
/// returns whether `a` is below `b` in unsigned byte-lexicographic order,
/// and whether the two are equal.
fn bytes_before(a: &[u8], b: &[u8]) -> (r: (bool, bool))
    ensures
        r.0 == bytes_lt(a@, b@),
        r.1 == (a@ == b@),
{
    let mut i: usize = 0;
    loop
        invariant
            i <= a.len(),
            i <= b.len(),
            forall|j: int| 0 <= j < i ==> a@[j] == b@[j],
        decreases a.len() - i,
    {
        if i == a.len() {
            proof {
                if i < b.len() {
                    lemma_bytes_lt_from_diff(a@, b@, i as int);
                } else {
                    assert(a@ =~= b@);
                    lemma_bytes_lt_asym(a@, b@);
                }
            }
            return (i < b.len(), i == b.len());
        }
        if i == b.len() {
            proof {
                lemma_bytes_lt_from_diff(b@, a@, i as int);
                lemma_bytes_lt_asym(b@, a@);
            }
            return (false, false);
        }
        let ca = a[i];
        let cb = b[i];
        if ca < cb {
            proof {
                lemma_bytes_lt_from_diff(a@, b@, i as int);
            }
            return (true, false);
        }
        if ca > cb {
            proof {
                lemma_bytes_lt_from_diff(b@, a@, i as int);
                lemma_bytes_lt_asym(b@, a@);
            }
            return (false, false);
        }
        i = i + 1;
    }
}

/// If `a` and `b` agree on their first `i` bytes and at position `i` either
/// `a` ends or holds the smaller byte, then `a` is below `b`.
proof fn lemma_bytes_lt_from_diff(a: Seq<u8>, b: Seq<u8>, i: int)
    requires
        0 <= i <= a.len(),
        i <= b.len(),
        forall|j: int| 0 <= j < i ==> a[j] == b[j],
        (i == a.len() && i < b.len()) || (i < a.len() && i < b.len() && a[i] < b[i]),
    ensures
        bytes_lt(a, b),
    decreases i,
{
    if i > 0 {
        lemma_bytes_lt_from_diff(a.drop_first(), b.drop_first(), i - 1);
    }
}

/// Copies a byte vector.
pub fn copy_bytes(b: &[u8]) -> (r: Vec<u8>)
    ensures
        r@ == b@,
{
    let mut c: Vec<u8> = Vec::new();
    let mut i: usize = 0;
    while i < b.len()
        invariant
            i <= b.len(),
            c@ =~= b@.subrange(0, i as int),
        decreases b.len() - i,
    {
        c.push(b[i]);
        i = i + 1;
    }
    proof {
        assert(c@ =~= b@);
    }
    c
}

impl Value {
    /// A structural copy: the copy abstracts to the same model.
    pub fn deep_clone(&self) -> (r: Value)
        ensures
            r@ == self@,
        decreases self,
    {
        broadcast use group_value_model_axioms;

        match self {
            Value::String(b) => Value::String(copy_bytes(b.as_slice())),
            Value::Int(n) => Value::Int(*n),
            Value::List(items) => {
                let mut c: Vec<Value> = Vec::new();
                let mut i: usize = 0;
                while i < items.len()
                    invariant
                        *self is List,
                        items == self->List_0,
                        i <= items.len(),
                        c@.len() == i,
                        forall|j: int| 0 <= j < i ==> value_model(#[trigger] c@[j]) == value_model(
                            items@[j],
                        ),
                    decreases items.len() - i,
                {
                    let e = &items[i];
                    proof {
                        broadcast use vstd::std_specs::vec::axiom_vec_index_decreases;

                        assert(decreases_to!(*self => self->List_0));
                        assert(decreases_to!(self->List_0 => self->List_0[i as int]));
                    }
                    c.push(e.deep_clone());
                    i = i + 1;
                }
                proof {
                    assert(value_models(c@) =~= value_models(items@));
                }
                Value::List(c)
            },
            Value::Dict(d) => {
                let mut c: Vec<(Vec<u8>, Value)> = Vec::new();
                let mut i: usize = 0;
                while i < d.entries.len()
                    invariant
                        *self is Dict,
                        d == self->Dict_0,
                        i <= d.entries.len(),
                        c@.len() == i,
                        forall|j: int|
                            0 <= j < i ==> (#[trigger] c@[j]).0@ == d.entries@[j].0@ && value_model(
                                c@[j].1,
                            ) == value_model(d.entries@[j].1),
                    decreases d.entries.len() - i,
                {
                    let e = &d.entries[i];
                    let k = copy_bytes(e.0.as_slice());
                    proof {
                        broadcast use vstd::std_specs::vec::axiom_vec_index_decreases;

                        assert(decreases_to!(*self => self->Dict_0));
                        assert(decreases_to!(self->Dict_0 => self->Dict_0.entries));
                        assert(decreases_to!(self->Dict_0.entries => self->Dict_0.entries[
                            i as int
                        ]));
                        assert(decreases_to!(self->Dict_0.entries[i as int] => self->Dict_0.entries[
                            i as int
                        ].1));
                    }
                    let v = e.1.deep_clone();
                    c.push((k, v));
                    i = i + 1;
                }
                proof {
                    assert(entry_models(c@) =~= entry_models(d.entries@));
                }
                Value::Dict(Dict { entries: c })
            },
        }
    }

    /// Shows a value: a byte string as its UTF-8 text (or a note when it
    /// is not UTF-8), an integer in decimal, a list in brackets and a
    /// dictionary in braces, nested byte strings quoted.
    pub fn to_string(&self) -> (r: String)
        ensures
            r@ == value_display(self@),
        decreases self, 1int,
    {
        broadcast use group_value_model_axioms;

        match self {
            Value::String(b) => bytes_display_string(b.as_slice()),
            Value::Int(n) => i64_string(*n),
            Value::List(items) => {
                let ghost models = value_models(items@);
                let mut out = ("[").to_owned();
                proof {
                    reveal_strlit("[");
                    reveal_strlit("]");
                    reveal_strlit(",");
                }
                if items.len() > 0 {
                    proof {
                        broadcast use vstd::std_specs::vec::axiom_vec_index_decreases;

                        assert(decreases_to!(*self => self->List_0));
                        assert(decreases_to!(self->List_0 => self->List_0[0]));
                    }
                    let s0 = items[0].display_string();
                    out.append(s0.as_str());
                    let mut i: usize = 1;
                    proof {
                        assert(out@ =~= seq!['['] + quoted_display(models[0]));
                        assert(models.skip(1) =~= models.drop_first());
                    }
                    while i < items.len()
                        invariant
                            *self is List,
                            items == self->List_0,
                            models == value_models(items@),
                            models.len() == items@.len(),
                            1 <= i <= items.len(),
                            seq!['['] + items_display(models) == out@ + items_display_rest(
                                models.skip(i as int),
                            ),
                        decreases items.len() - i,
                    {
                        proof {
                            broadcast use group_value_model_axioms;
                            broadcast use vstd::std_specs::vec::axiom_vec_index_decreases;

                            reveal_strlit(",");
                            assert(decreases_to!(*self => self->List_0));
                            assert(decreases_to!(self->List_0 => self->List_0[i as int]));
                        }
                        let ghost pre = out@;
                        out.append(",");
                        let si = items[i].display_string();
                        out.append(si.as_str());
                        proof {
                            assert(models.skip(i as int)[0] == models[i as int]);
                            assert(models.skip(i as int).drop_first() =~= models.skip(i as int + 1));
                            assert(pre + (seq![','] + quoted_display(models[i as int])
                                + items_display_rest(models.skip(i as int + 1))) =~= out@
                                + items_display_rest(models.skip(i as int + 1)));
                        }
                        i = i + 1;
                    }
                    proof {
                        assert(models.skip(items@.len() as int) =~= Seq::<ValueModel>::empty());
                        assert(out@ + items_display_rest(Seq::empty()) =~= out@);
                    }
                } else {
                    proof {
                        assert(models =~= Seq::<ValueModel>::empty());
                        assert(out@ =~= seq!['['] + items_display(models));
                    }
                }
                out.append("]");
                proof {
                    assert(out@ =~= value_display(self@));
                }
                out
            },
            Value::Dict(d) => {
                proof {
                    assert(decreases_to!(*self => self->Dict_0));
                }
                d.to_string()
            },
        }
    }

    /// Shows a value as a list or dictionary shows it: a byte string in
    /// quotes, everything else as `to_string` shows it.
    pub fn display_string(&self) -> (r: String)
        ensures
            r@ == quoted_display(self@),
        decreases self, 2int,
    {
        let inner = self.to_string();
        match self {
            Value::String(_) => {
                proof {
                    reveal_strlit("\"");
                }
                let mut out = ("\"").to_owned();
                out.append(inner.as_str());
                out.append("\"");
                proof {
                    assert(out@ =~= quoted_display(self@));
                }
                out
            },
            _ => inner,
        }
    }

    /// Narrows to a dictionary; any other variant gives `None`.
    pub fn get_map(self) -> (r: Option<Dict>)
        ensures
            match self@ {
                ValueModel::Dict(entries) => r matches Some(d) && d@ == entries,
                _ => r is None,
            },
    {
        if let Value::Dict(d) = self {
            Some(d)
        } else {
            None
        }
    }

    /// Narrows to a byte string; any other variant gives `None`.
    pub fn get_string(self) -> (r: Option<Vec<u8>>)
        ensures
            match self@ {
                ValueModel::Bytes(b) => r matches Some(s) && s@ == b,
                _ => r is None,
            },
    {
        if let Value::String(s) = self {
            Some(s)
        } else {
            None
        }
    }

    /// Narrows to an integer; any other variant gives `None`.
    pub fn get_int(self) -> (r: Option<i64>)
        ensures
            match self@ {
                ValueModel::Int(n) => r matches Some(i) && i as int == n,
                _ => r is None,
            },
    {
        if let Value::Int(i) = self {
            Some(i)
        } else {
            None
        }
    }

    /// Narrows to a list; any other variant gives `None`.
    pub fn _get_list(self) -> (r: Option<Vec<Value>>)
        ensures
            match self@ {
                ValueModel::List(items) => r matches Some(l) && value_models(l@) == items,
                _ => r is None,
            },
    {
        if let Value::List(l) = self {
            Some(l)
        } else {
            None
        }
    }
}

/// Shows a byte string as UTF-8 text, or a fixed note when it is not.
fn bytes_display_string(b: &[u8]) -> (r: String)
    ensures
        r@ == bytes_display(b@),
{
    match crate::text::utf8_string(copy_bytes(b)) {
        Some(s) => s,
        None => ("String not in utf8").to_owned(),
    }
}

/// The decimal form of a signed integer as a string.
fn i64_string(n: i64) -> (r: String)
    ensures
        r@ == int_chars(n as int),
{
    let mut v: Vec<u8> = Vec::new();
    crate::bencode::push_i64_dec(n, &mut v);
    proof {
        crate::bencode::lemma_int_bytes_ascii(n as int);
        assert(v@ =~= crate::bencode::int_bytes(n as int));
    }
    let r = crate::text::ascii_string(v);
    proof {
        assert(r@ =~= int_chars(n as int));
    }
    r
}

impl Dict {
    /// Shows the dictionary in braces: quoted keys (UTF-8 text, or a
    /// fixed note when a key is not UTF-8), a colon, the values as
    /// `Value::display_string` shows them, comma-separated.
    pub fn to_string(&self) -> (r: String)
        ensures
            r@ == seq!['{'] + entries_display(self@) + seq!['}'],
        decreases self, 4int,
    {
        broadcast use group_value_model_axioms;

        let ghost models = entry_models(self.entries@);
        let mut out = ("{").to_owned();
        proof {
            reveal_strlit("{");
            reveal_strlit("}");
        }
        let mut i: usize = 0;
        proof {
            assert(models.skip(0) =~= models);
        }
        while i < self.entries.len()
            invariant
                models == entry_models(self.entries@),
                models.len() == self.entries@.len(),
                i <= self.entries.len(),
                i == 0 ==> out@ == seq!['{'],
                i > 0 ==> seq!['{'] + entries_display(models) == out@ + entries_display_rest(
                    models.skip(i as int),
                ),
            decreases self.entries.len() - i,
        {
            proof {
                broadcast use group_value_model_axioms;
                broadcast use vstd::std_specs::vec::axiom_vec_index_decreases;

                reveal_strlit(",");
                reveal_strlit("\"");
                reveal_strlit("\":");
                assert(decreases_to!(*self => self.entries));
                assert(decreases_to!(self.entries => self.entries[i as int]));
                assert(decreases_to!(self.entries[i as int] => self.entries[i as int].1));
            }
            let ghost pre = out@;
            if i > 0 {
                out.append(",");
            }
            out.append("\"");
            let ks = bytes_display_string(self.entries[i].0.as_slice());
            out.append(ks.as_str());
            out.append("\":");
            let vs = self.entries[i].1.display_string();
            out.append(vs.as_str());
            proof {
                assert(models[i as int] == (self.entries@[i as int].0@, value_model(
                    self.entries@[i as int].1,
                )));
                if i == 0 {
                    assert(out@ =~= seq!['{'] + entry_display(models[0]));
                    assert(models.drop_first() =~= models.skip(1));
                    assert(seq!['{'] + entries_display(models) =~= out@ + entries_display_rest(
                        models.skip(1),
                    ));
                } else {
                    assert(models.skip(i as int)[0] == models[i as int]);
                    assert(models.skip(i as int).drop_first() =~= models.skip(i as int + 1));
                    assert(pre + (seq![','] + entry_display(models[i as int])
                        + entries_display_rest(models.skip(i as int + 1))) =~= out@
                        + entries_display_rest(models.skip(i as int + 1)));
                }
            }
            i = i + 1;
        }
        proof {
            if self.entries.len() == 0 {
                assert(models =~= Seq::<(Seq<u8>, ValueModel)>::empty());
            } else {
                assert(models.skip(self.entries@.len() as int) =~= Seq::<
                    (Seq<u8>, ValueModel),
                >::empty());
                assert(out@ + entries_display_rest(Seq::empty()) =~= out@);
            }
        }
        out.append("}");
        proof {
            assert(out@ =~= seq!['{'] + entries_display(models) + seq!['}']);
        }
        out
    }

    /// The dictionary invariant: keys strictly ascending.
    pub open spec fn wf(self) -> bool {
        entries_sorted(self@)
    }

    /// An empty dictionary.
    pub fn new() -> (r: Dict)
        ensures
            r@ =~= Seq::<(Seq<u8>, ValueModel)>::empty(),
            r.wf(),
    {
        Dict { entries: Vec::new() }
    }

    /// A structural copy: the copy abstracts to the same model.
    pub fn deep_clone(&self) -> (r: Dict)
        ensures
            r@ == self@,
    {
        let v = Value::Dict(Dict { entries: copy_entries(&self.entries) });
        if let Value::Dict(d) = v {
            d
        } else {
            proof {
                assert(false);
            }
            Dict { entries: Vec::new() }
        }
    }

    /// Number of entries.
    pub fn len(&self) -> (r: usize)
        ensures
            r == self@.len(),
    {
        proof {
            broadcast use entry_models_len;

        }
        self.entries.len()
    }

    /// The `i`-th smallest key together with its value, for iteration in
    /// ascending key order without consuming the dictionary.
    pub fn entry_at(&self, i: usize) -> (r: (&Vec<u8>, &Value))
        requires
            i < self@.len(),
        ensures
            r.0@ == self@[i as int].0,
            r.1@ == self@[i as int].1,
    {
        proof {
            broadcast use group_value_model_axioms;

        }
        let e = &self.entries[i];
        (&e.0, &e.1)
    }

    /// Inserts a binding, keeping keys strictly ascending; a binding of an
    /// equal key is replaced by the new one.
    pub fn insert(&mut self, k: Vec<u8>, v: Value)
        ensures
            final(self)@ == entries_insert(old(self)@, k@, v@),
            old(self).wf() ==> final(self).wf(),
    {
        broadcast use group_value_model_axioms;

        let ghost old_view = self@;
        let ghost kv = (k@, value_model(v));
        let mut pos: usize = 0;
        let mut found_equal = false;
        loop
            invariant_except_break
                !found_equal,
            invariant
                pos <= self.entries.len(),
                forall|i: int| 0 <= i < pos ==> bytes_lt((#[trigger] old_view[i]).0, k@),
                self@ == old_view,
                self.entries@.len() == old_view.len(),
            ensures
                pos <= self.entries.len(),
                self@ == old_view,
                self.entries@.len() == old_view.len(),
                forall|i: int| 0 <= i < pos ==> bytes_lt((#[trigger] old_view[i]).0, k@),
                found_equal ==> pos < old_view.len() && old_view[pos as int].0 == k@,
                !found_equal && pos < old_view.len() ==> bytes_lt(k@, old_view[pos as int].0),
            decreases self.entries.len() - pos,
        {
            if pos == self.entries.len() {
                break ;
            }
            proof {
                broadcast use group_value_model_axioms;

                assert(old_view[pos as int].0 == self.entries@[pos as int].0@);
            }
            let (lt, eq) = bytes_before(self.entries[pos].0.as_slice(), k.as_slice());
            if eq {
                found_equal = true;
                break ;
            }
            if !lt {
                proof {
                    lemma_bytes_order_total(old_view[pos as int].0, k@);
                }
                break ;
            }
            pos = pos + 1;
        }
        proof {
            lemma_entries_insert_prefix(old_view, k@, kv.1, pos as int);
            let suffix = old_view.skip(pos as int);
            if pos < old_view.len() {
                assert(suffix[0] == old_view[pos as int]);
                assert(suffix.drop_first() =~= old_view.skip(pos as int + 1));
            } else {
                assert(suffix =~= Seq::<(Seq<u8>, ValueModel)>::empty());
            }
            if found_equal {
                lemma_bytes_lt_asym(k@, suffix[0].0);
                assert(entries_insert(suffix, k@, kv.1) == seq![kv] + suffix.drop_first());
            } else if pos < old_view.len() {
                assert(entries_insert(suffix, k@, kv.1) == seq![kv] + suffix);
            }
        }
        if found_equal {
            let _ = self.entries.remove(pos);
        }
        self.entries.insert(pos, (k, v));
        proof {
            if found_equal {
                assert(self@ =~= old_view.subrange(0, pos as int) + (seq![kv] + old_view.skip(
                    pos as int + 1,
                )));
            } else {
                assert(self@ =~= old_view.subrange(0, pos as int) + (seq![kv] + old_view.skip(
                    pos as int,
                )));
            }
            assert(self@ =~= entries_insert(old_view, k@, kv.1));
            if old(self).wf() {
                lemma_entries_insert_sorted(old_view, k@, kv.1);
            }
        }
    }

    /// The keys in ascending order, each as UTF-8 text; a key that is not
    /// UTF-8 becomes the empty string.
    pub fn keys(&self) -> (r: Vec<String>)
        ensures
            r@.len() == self@.len(),
            forall|i: int|
                0 <= i < r@.len() ==> (#[trigger] r@[i])@ == (if vstd::utf8::valid_utf8(
                    self@[i].0,
                ) {
                    vstd::utf8::decode_utf8(self@[i].0)
                } else {
                    Seq::<char>::empty()
                }),
    {
        broadcast use group_value_model_axioms;

        let mut r: Vec<String> = Vec::new();
        let mut i: usize = 0;
        while i < self.entries.len()
            invariant
                i <= self.entries.len(),
                self.entries@.len() == self@.len(),
                r@.len() == i,
                forall|j: int|
                    0 <= j < r@.len() ==> (#[trigger] r@[j])@ == (if vstd::utf8::valid_utf8(
                        self@[j].0,
                    ) {
                        vstd::utf8::decode_utf8(self@[j].0)
                    } else {
                        Seq::<char>::empty()
                    }),
            decreases self.entries.len() - i,
        {
            proof {
                broadcast use group_value_model_axioms;

                assert(self@[i as int].0 == self.entries@[i as int].0@);
            }
            let s = match crate::text::utf8_string(copy_bytes(self.entries[i].0.as_slice())) {
                Some(s) => s,
                None => String::new(),
            };
            r.push(s);
            i = i + 1;
        }
        r
    }

    /// Looks the key's bytes up; a hit hands back a structural copy of the
    /// bound value.
    pub fn get(&self, key: &str) -> (r: Option<Value>)
        ensures
            match entries_get(self@, key.spec_bytes()) {
                Some(v) => r matches Some(found) && found@ == v,
                None => r is None,
            },
    {
        proof {
            broadcast use group_value_model_axioms;

        }
        let kb = key.as_bytes();
        let mut i: usize = 0;
        proof {
            assert(self@.skip(0) =~= self@);
        }
        loop
            invariant
                i <= self.entries.len(),
                self.entries@.len() == self@.len(),
                entries_get(self@, kb@) == entries_get(self@.skip(i as int), kb@),
                kb@ == key.spec_bytes(),
            decreases self.entries.len() - i,
        {
            proof {
                broadcast use group_value_model_axioms;

            }
            if i == self.entries.len() {
                proof {
                    assert(self@.skip(i as int) =~= Seq::<(Seq<u8>, ValueModel)>::empty());
                }
                return None;
            }
            proof {
                assert(self@.skip(i as int)[0] == self@[i as int]);
                assert(self@.skip(i as int).drop_first() =~= self@.skip(i as int + 1));
            }
            let (_, eq) = bytes_before(self.entries[i].0.as_slice(), kb);
            if eq {
                return Some(self.entries[i].1.deep_clone());
            }
            i = i + 1;
        }
    }
}

/// How a byte string is shown: as its UTF-8 characters, or a fixed note
/// when it is not UTF-8.
pub open spec fn bytes_display(b: Seq<u8>) -> Seq<char> {
    if vstd::utf8::valid_utf8(b) {
        vstd::utf8::decode_utf8(b)
    } else {
        ("String not in utf8")@
    }
}

/// The decimal characters of an integer.
pub open spec fn int_chars(n: int) -> Seq<char> {
    Seq::new(
        crate::bencode::int_bytes(n).len(),
        |i: int| crate::bencode::int_bytes(n)[i] as char,
    )
}

/// How a value is shown: byte strings as text, integers in decimal, lists
/// in brackets and dictionaries in braces with comma-separated entries.
pub open spec fn value_display(v: ValueModel) -> Seq<char>
    decreases v, 1int,
{
    match v {
        ValueModel::Bytes(b) => bytes_display(b),
        ValueModel::Int(n) => int_chars(n),
        ValueModel::List(items) => seq!['['] + items_display(items) + seq![']'],
        ValueModel::Dict(entries) => seq!['{'] + entries_display(entries) + seq!['}'],
    }
}

/// How a value is shown inside a list or dictionary: byte strings carry
/// quotes there.
pub open spec fn quoted_display(v: ValueModel) -> Seq<char>
    decreases v, 2int,
{
    if v is Bytes {
        seq!['"'] + value_display(v) + seq!['"']
    } else {
        value_display(v)
    }
}

/// A list's elements, comma-separated.
pub open spec fn items_display(items: Seq<ValueModel>) -> Seq<char>
    decreases items, 3int,
{
    if items.len() == 0 {
        Seq::empty()
    } else {
        quoted_display(items[0]) + items_display_rest(items.drop_first())
    }
}

/// The later elements of a list, each preceded by a comma.
pub open spec fn items_display_rest(items: Seq<ValueModel>) -> Seq<char>
    decreases items, 0int,
{
    if items.len() == 0 {
        Seq::empty()
    } else {
        seq![','] + quoted_display(items[0]) + items_display_rest(items.drop_first())
    }
}

/// One dictionary entry: the quoted key, a colon, the value.
pub open spec fn entry_display(e: (Seq<u8>, ValueModel)) -> Seq<char>
    decreases e, 3int,
{
    seq!['"'] + bytes_display(e.0) + seq!['"', ':'] + quoted_display(e.1)
}

/// A dictionary's entries, comma-separated.
pub open spec fn entries_display(entries: Seq<(Seq<u8>, ValueModel)>) -> Seq<char>
    decreases entries, 3int,
{
    if entries.len() == 0 {
        Seq::empty()
    } else {
        entry_display(entries[0]) + entries_display_rest(entries.drop_first())
    }
}

/// The later entries of a dictionary, each preceded by a comma.
pub open spec fn entries_display_rest(entries: Seq<(Seq<u8>, ValueModel)>) -> Seq<char>
    decreases entries, 0int,
{
    if entries.len() == 0 {
        Seq::empty()
    } else {
        seq![','] + entry_display(entries[0]) + entries_display_rest(entries.drop_first())
    }
}

/// Copies an entry vector structurally.
fn copy_entries(entries: &Vec<(Vec<u8>, Value)>) -> (r: Vec<(Vec<u8>, Value)>)
    ensures
        entry_models(r@) == entry_models(entries@),
{
    broadcast use group_value_model_axioms;

    let mut c: Vec<(Vec<u8>, Value)> = Vec::new();
    let mut i: usize = 0;
    while i < entries.len()
        invariant
            i <= entries.len(),
            c@.len() == i,
            forall|j: int|
                0 <= j < i ==> (#[trigger] c@[j]).0@ == entries@[j].0@ && value_model(c@[j].1)
                    == value_model(entries@[j].1),
        decreases entries.len() - i,
    {
        let e = &entries[i];
        let k = copy_bytes(e.0.as_slice());
        let v = e.1.deep_clone();
        c.push((k, v));
        i = i + 1;
    }
    proof {
        assert(entry_models(c@) =~= entry_models(entries@));
    }
    c
}

/// Unfolds `entries_insert` at a position all of whose predecessors hold
/// keys strictly below `k`.
pub proof fn lemma_entries_insert_prefix(
    entries: Seq<(Seq<u8>, ValueModel)>,
    k: Seq<u8>,
    v: ValueModel,
    pos: int,
)
    requires
        0 <= pos <= entries.len(),
        forall|i: int| 0 <= i < pos ==> bytes_lt((#[trigger] entries[i]).0, k),
    ensures
        entries_insert(entries, k, v) == entries.subrange(0, pos) + entries_insert(
            entries.skip(pos),
            k,
            v,
        ),
    decreases pos,
{
    if pos == 0 {
        assert(entries.skip(0) =~= entries);
        assert(entries.subrange(0, 0) + entries_insert(entries, k, v) =~= entries_insert(
            entries,
            k,
            v,
        ));
    } else {
        assert(bytes_lt(entries[0].0, k));
        lemma_bytes_lt_asym(entries[0].0, k);
        assert(entries.drop_first() =~= entries.skip(1));
        lemma_entries_insert_prefix(entries.drop_first(), k, v, pos - 1);
        assert(entries.drop_first().subrange(0, pos - 1) =~= entries.subrange(1, pos));
        assert(entries.drop_first().skip(pos - 1) =~= entries.skip(pos));
        assert(entries_insert(entries, k, v) == seq![entries[0]] + entries_insert(
            entries.drop_first(),
            k,
            v,
        ));
        assert(seq![entries[0]] + (entries.subrange(1, pos) + entries_insert(
            entries.skip(pos),
            k,
            v,
        )) =~= entries.subrange(0, pos) + entries_insert(entries.skip(pos), k, v));
    }
}

/// `bytes_lt` is irreflexive and asymmetric.
pub proof fn lemma_bytes_lt_asym(a: Seq<u8>, b: Seq<u8>)
    ensures
        !(bytes_lt(a, b) && bytes_lt(b, a)),
        !(bytes_lt(a, b) && a == b),
    decreases a.len(),
{
    if a.len() > 0 && b.len() > 0 && a[0] == b[0] {
        lemma_bytes_lt_asym(a.drop_first(), b.drop_first());
        if a == b {
            assert(a.drop_first() =~= b.drop_first());
        }
    }
}

/// Any two byte strings are ordered: below, equal, or above.
pub proof fn lemma_bytes_order_total(a: Seq<u8>, b: Seq<u8>)
    ensures
        bytes_lt(a, b) || a == b || bytes_lt(b, a),
    decreases a.len(),
{
    if a.len() > 0 && b.len() > 0 && a[0] == b[0] {
        lemma_bytes_order_total(a.drop_first(), b.drop_first());
        if a.drop_first() == b.drop_first() {
            assert(a =~= seq![a[0]] + a.drop_first());
            assert(b =~= seq![b[0]] + b.drop_first());
        }
    }
}

/// `bytes_lt` is transitive.
pub proof fn lemma_bytes_lt_trans(a: Seq<u8>, b: Seq<u8>, c: Seq<u8>)
    requires
        bytes_lt(a, b),
        bytes_lt(b, c),
    ensures
        bytes_lt(a, c),
    decreases a.len(),
{
    if a.len() > 0 && b.len() > 0 && c.len() > 0 {
        if a[0] == b[0] && b[0] == c[0] {
            lemma_bytes_lt_trans(a.drop_first(), b.drop_first(), c.drop_first());
        }
    }
}

/// Canonical dictionary order: bindings of distinct keys may be inserted
/// in either order, the dictionary — and hence its canonical encoding —
/// comes out the same. Together with `lemma_entries_insert_sorted` this is
/// why `encode_value` emits keys in ascending byte order regardless of
/// insertion order.
pub proof fn lemma_entries_insert_commutes(
    entries: Seq<(Seq<u8>, ValueModel)>,
    k1: Seq<u8>,
    v1: ValueModel,
    k2: Seq<u8>,
    v2: ValueModel,
)
    requires
        k1 != k2,
    ensures
        entries_insert(entries_insert(entries, k1, v1), k2, v2) == entries_insert(
            entries_insert(entries, k2, v2),
            k1,
            v1,
        ),
    decreases entries.len(),
{
    lemma_bytes_order_total(k1, k2);
    lemma_bytes_lt_asym(k1, k2);
    lemma_bytes_lt_asym(k2, k1);
    if entries.len() == 0 {
        assert(entries_insert(entries, k1, v1) =~= seq![(k1, v1)]);
        assert(entries_insert(entries, k2, v2) =~= seq![(k2, v2)]);
        assert(seq![(k1, v1)].drop_first() =~= Seq::<(Seq<u8>, ValueModel)>::empty());
        assert(seq![(k2, v2)].drop_first() =~= Seq::<(Seq<u8>, ValueModel)>::empty());
        assert(entries_insert(Seq::<(Seq<u8>, ValueModel)>::empty(), k1, v1) =~= seq![(k1, v1)]);
        assert(entries_insert(Seq::<(Seq<u8>, ValueModel)>::empty(), k2, v2) =~= seq![(k2, v2)]);
        if bytes_lt(k1, k2) {
            assert(entries_insert(seq![(k1, v1)], k2, v2) =~= seq![(k1, v1), (k2, v2)]);
            assert(entries_insert(seq![(k2, v2)], k1, v1) =~= seq![(k1, v1), (k2, v2)]);
        } else {
            assert(bytes_lt(k2, k1));
            assert(entries_insert(seq![(k1, v1)], k2, v2) =~= seq![(k2, v2), (k1, v1)]);
            assert(entries_insert(seq![(k2, v2)], k1, v1) =~= seq![(k2, v2), (k1, v1)]);
        }
    } else {
        let h = entries[0];
        let hk = h.0;
        let t = entries.drop_first();
        let i1t = entries_insert(t, k1, v1);
        let i2t = entries_insert(t, k2, v2);
        let i1e = entries_insert(entries, k1, v1);
        let i2e = entries_insert(entries, k2, v2);
        lemma_bytes_order_total(k1, hk);
        lemma_bytes_lt_asym(k1, hk);
        lemma_bytes_lt_asym(hk, k1);
        lemma_bytes_order_total(k2, hk);
        lemma_bytes_lt_asym(k2, hk);
        lemma_bytes_lt_asym(hk, k2);
        assert((seq![(k1, v1)] + entries).drop_first() =~= entries);
        assert((seq![(k2, v2)] + entries).drop_first() =~= entries);
        assert((seq![(k1, v1)] + t).drop_first() =~= t);
        assert((seq![(k2, v2)] + t).drop_first() =~= t);
        assert((seq![h] + i1t).drop_first() =~= i1t);
        assert((seq![h] + i2t).drop_first() =~= i2t);
        if bytes_lt(k1, hk) || k1 == hk {
            if bytes_lt(k2, hk) || k2 == hk {
                // both land at or before the head
                if bytes_lt(k1, k2) {
                    lemma_bytes_lt_trans_or_eq(k1, k2, hk);
                    assert(entries_insert(entries_insert(entries, k1, v1), k2, v2)
                        =~= entries_insert(entries_insert(entries, k2, v2), k1, v1));
                } else {
                    assert(bytes_lt(k2, k1));
                    lemma_bytes_lt_trans_or_eq(k2, k1, hk);
                    assert(entries_insert(entries_insert(entries, k1, v1), k2, v2)
                        =~= entries_insert(entries_insert(entries, k2, v2), k1, v1));
                }
            } else {
                // k1 at or before the head, k2 past it
                assert(bytes_lt(hk, k2));
                if k1 == hk {
                    assert(bytes_lt(k1, k2));
                    assert(entries_insert(entries_insert(entries, k1, v1), k2, v2)
                        =~= entries_insert(entries_insert(entries, k2, v2), k1, v1));
                } else {
                    lemma_bytes_lt_trans(k1, hk, k2);
                    assert(entries_insert(entries_insert(entries, k1, v1), k2, v2)
                        =~= entries_insert(entries_insert(entries, k2, v2), k1, v1));
                }
            }
        } else {
            assert(bytes_lt(hk, k1));
            if bytes_lt(k2, hk) || k2 == hk {
                // k2 at or before the head, k1 past it
                if k2 == hk {
                    assert(bytes_lt(k2, k1));
                } else {
                    lemma_bytes_lt_trans(k2, hk, k1);
                }
                assert(entries_insert(entries_insert(entries, k1, v1), k2, v2)
                    =~= entries_insert(entries_insert(entries, k2, v2), k1, v1));
            } else {
                // both past the head: commute in the tail
                assert(bytes_lt(hk, k2));
                lemma_entries_insert_commutes(t, k1, v1, k2, v2);
                assert(entries_insert(entries_insert(entries, k1, v1), k2, v2) =~= seq![h]
                    + entries_insert(entries_insert(t, k1, v1), k2, v2)) by {
                    assert(entries_insert(entries, k1, v1) == seq![h] + entries_insert(t, k1, v1));
                    assert((seq![h] + entries_insert(t, k1, v1)).drop_first() =~= entries_insert(
                        t,
                        k1,
                        v1,
                    ));
                }
                assert(entries_insert(entries_insert(entries, k2, v2), k1, v1) =~= seq![h]
                    + entries_insert(entries_insert(t, k2, v2), k1, v1)) by {
                    assert(entries_insert(entries, k2, v2) == seq![h] + entries_insert(t, k2, v2));
                    assert((seq![h] + entries_insert(t, k2, v2)).drop_first() =~= entries_insert(
                        t,
                        k2,
                        v2,
                    ));
                }
            }
        }
    }
}

/// `a` below or equal to `b`, and `b` below `c`, puts `a` below `c`.
proof fn lemma_bytes_lt_trans_or_eq(a: Seq<u8>, b: Seq<u8>, c: Seq<u8>)
    requires
        bytes_lt(a, b),
        bytes_lt(b, c) || b == c,
    ensures
        bytes_lt(a, c),
{
    if bytes_lt(b, c) {
        lemma_bytes_lt_trans(a, b, c);
    }
}

/// Inserting into a sorted entry sequence keeps it sorted.
pub proof fn lemma_entries_insert_sorted(
    entries: Seq<(Seq<u8>, ValueModel)>,
    k: Seq<u8>,
    v: ValueModel,
)
    requires
        entries_sorted(entries),
    ensures
        entries_sorted(entries_insert(entries, k, v)),
    decreases entries.len(),
{
    if entries.len() == 0 {
    } else if bytes_lt(k, entries[0].0) {
        let r = seq![(k, v)] + entries;
        assert forall|i: int, j: int| 0 <= i < j < r.len() implies bytes_lt(r[i].0, r[j].0) by {
            if i == 0 {
                if j > 1 {
                    lemma_bytes_lt_trans(k, entries[0].0, entries[j - 1].0);
                }
            }
        }
    } else if k == entries[0].0 {
        let r = seq![(k, v)] + entries.drop_first();
        assert forall|i: int, j: int| 0 <= i < j < r.len() implies bytes_lt(r[i].0, r[j].0) by {
            if i == 0 {
                assert(bytes_lt(entries[0].0, entries[j].0));
            } else {
                assert(bytes_lt(entries[i].0, entries[j].0));
            }
        }
    } else {
        lemma_bytes_order_total(k, entries[0].0);
        assert(bytes_lt(entries[0].0, k));
        assert(entries_sorted(entries.drop_first())) by {
            assert forall|i: int, j: int|
                0 <= i < j < entries.drop_first().len() implies bytes_lt(
                (#[trigger] entries.drop_first()[i]).0,
                (#[trigger] entries.drop_first()[j]).0,
            ) by {
                assert(bytes_lt(entries[i + 1].0, entries[j + 1].0));
            }
        }
        lemma_entries_insert_sorted(entries.drop_first(), k, v);
        let tail = entries_insert(entries.drop_first(), k, v);
        lemma_entries_insert_members(entries.drop_first(), k, v);
        let r = seq![entries[0]] + tail;
        assert forall|i: int, j: int| 0 <= i < j < r.len() implies bytes_lt(r[i].0, r[j].0) by {
            if i == 0 {
                assert(tail[j - 1] == r[j]);
                if tail[j - 1].0 == k {
                } else {
                    let idx = choose|idx: int|
                        0 <= idx < entries.drop_first().len() && #[trigger] entries.drop_first()[idx]
                            == tail[j - 1];
                    assert(entries[idx + 1] == tail[j - 1]);
                    assert(bytes_lt(entries[0].0, entries[idx + 1].0));
                }
            } else {
                assert(bytes_lt(tail[i - 1].0, tail[j - 1].0));
            }
        }
    }
}

/// Every entry of an insertion's result is either the inserted binding or
/// was already present.
pub proof fn lemma_entries_insert_members(
    entries: Seq<(Seq<u8>, ValueModel)>,
    k: Seq<u8>,
    v: ValueModel,
)
    ensures
        forall|j: int|
            0 <= j < entries_insert(entries, k, v).len() ==> #[trigger] entries_insert(
                entries,
                k,
                v,
            )[j] == (k, v) || exists|i: int|
                0 <= i < entries.len() && #[trigger] entries[i] == entries_insert(entries, k, v)[j],
    decreases entries.len(),
{
    if entries.len() == 0 {
    } else if bytes_lt(k, entries[0].0) {
    } else if k == entries[0].0 {
        assert forall|j: int|
            0 <= j < entries_insert(entries, k, v).len() && #[trigger] entries_insert(
                entries,
                k,
                v,
            )[j] != (k, v) implies exists|i: int|
            0 <= i < entries.len() && #[trigger] entries[i] == entries_insert(entries, k, v)[j] by {
            assert(entries[j] == entries_insert(entries, k, v)[j]);
        }
    } else {
        lemma_entries_insert_members(entries.drop_first(), k, v);
        let tail = entries_insert(entries.drop_first(), k, v);
        assert forall|j: int|
            0 <= j < entries_insert(entries, k, v).len() && #[trigger] entries_insert(
                entries,
                k,
                v,
            )[j] != (k, v) implies exists|i: int|
            0 <= i < entries.len() && #[trigger] entries[i] == entries_insert(entries, k, v)[j] by {
            if j == 0 {
                assert(entries[0] == entries_insert(entries, k, v)[0]);
            } else {
                assert(entries_insert(entries, k, v)[j] == tail[j - 1]);
                let idx = choose|i: int|
                    0 <= i < entries.drop_first().len() && #[trigger] entries.drop_first()[i]
                        == tail[j - 1];
                assert(entries[idx + 1] == tail[j - 1]);
            }
        }
    }
}

} // verus!
