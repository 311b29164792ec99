//! The peer wire protocol engine for one piece: the 68-byte handshake,
//! length-prefixed frames, pipelined block requests, order-independent
//! block reassembly, and the SHA1 integrity gate.
//!
//! The engine is a state machine: the caller performs the socket I/O,
//! hands every incoming message to `PieceSession::on_message`, and obeys
//! the step it gets back. A piece leaves the session only when its SHA1
//! digest equals the expected hash.

use vstd::prelude::*;

use crate::digest::{sha1_digest, sha1_of};
use crate::value::bytes_eq;
use crate::TorrentError;

verus! {

use vstd::string::StringSliceAdditionalSpecFns;

/// The four bytes of `n` in big-endian order.
pub open spec fn be32(n: u32) -> Seq<u8> {
    seq![
        (n / 0x1000000) as u8,
        ((n / 0x10000) % 256) as u8,
        ((n / 256) % 256) as u8,
        (n % 256) as u8,
    ]
}

/// The value four big-endian bytes denote.
pub open spec fn be32_val(s: Seq<u8>) -> int {
    s[0] * 0x1000000 + s[1] * 0x10000 + s[2] * 256 + s[3]
}

/// Encodes `n` as four big-endian bytes.
pub fn u32_to_be(n: u32) -> (r: Vec<u8>)
    ensures
        r@ == be32(n),
{
    let r: Vec<u8> = vec![
        (n / 0x1000000) as u8,
        ((n / 0x10000) % 256) as u8,
        ((n / 256) % 256) as u8,
        (n % 256) as u8,
    ];
    proof {
        assert(r@ =~= be32(n));
    }
    r
}

/// Decodes four big-endian bytes.
pub fn u32_from_be(b: &[u8]) -> (r: u32)
    requires
        b@.len() == 4,
    ensures
        r as int == be32_val(b@),
{
    b[0] as u32 * 0x1000000 + b[1] as u32 * 0x10000 + b[2] as u32 * 256 + b[3] as u32
}

/// The 19 bytes of the protocol name, `BitTorrent protocol`.
pub open spec fn protocol_name_bytes() -> Seq<u8> {
    seq![
        66u8,
        105u8,
        116u8,
        84u8,
        111u8,
        114u8,
        114u8,
        101u8,
        110u8,
        116u8,
        32u8,
        112u8,
        114u8,
        111u8,
        116u8,
        111u8,
        99u8,
        111u8,
        108u8,
    ]
}

/// The reserved bytes: all zero, except bit `0x10` of the sixth byte when
/// extension-protocol support is advertised.
pub open spec fn reserved_bytes(extensions: bool) -> Seq<u8> {
    if extensions {
        seq![0u8, 0u8, 0u8, 0u8, 0u8, 16u8, 0u8, 0u8]
    } else {
        seq![0u8, 0u8, 0u8, 0u8, 0u8, 0u8, 0u8, 0u8]
    }
}

/// The fixed 68-byte handshake.
pub open spec fn handshake_bytes(info_hash: Seq<u8>, peer_id: Seq<u8>, extensions: bool) -> Seq<
    u8,
> {
    seq![19u8] + protocol_name_bytes() + reserved_bytes(extensions) + info_hash + peer_id
}

/// Builds the 68-byte handshake for a 20-byte info-hash and a 20-byte peer
/// id, advertising extension-protocol support when asked to.
pub fn get_handshake(info_hash: &[u8], peer_id: &str, metadata_support: bool) -> (r: Vec<u8>)
    requires
        info_hash@.len() == 20,
        peer_id.spec_bytes().len() == 20,
    ensures
        r@ == handshake_bytes(info_hash@, peer_id.spec_bytes(), metadata_support),
        r@.len() == 68,
{
    let mut handshake: Vec<u8> = vec![
        19u8,
        66,
        105,
        116,
        84,
        111,
        114,
        114,
        101,
        110,
        116,
        32,
        112,
        114,
        111,
        116,
        111,
        99,
        111,
        108,
    ];
    if metadata_support {
        let reserved: Vec<u8> = vec![0u8, 0, 0, 0, 0, 16, 0, 0];
        handshake.append(&mut { reserved });
    } else {
        let reserved: Vec<u8> = vec![0u8, 0, 0, 0, 0, 0, 0, 0];
        handshake.append(&mut { reserved });
    }
    let mut ih = crate::value::copy_bytes(info_hash);
    handshake.append(&mut ih);
    let mut pid = crate::value::copy_bytes(peer_id.as_bytes());
    handshake.append(&mut pid);
    proof {
        assert(handshake@ =~= handshake_bytes(info_hash@, peer_id.spec_bytes(), metadata_support));
    }
    handshake
}

/// Reads a peer's handshake: the protocol-string length byte, then that
/// many name bytes, 8 reserved bytes, the 20-byte info-hash, and the
/// 20-byte peer id. Hands back whether the peer advertises the extension
/// protocol, and its peer id; a reply too short for its own length byte is
/// a protocol violation.
pub fn parse_handshake_reply(reply: &[u8]) -> (r: Result<(bool, Vec<u8>), TorrentError>)
    ensures
        match r {
            Ok(p) => {
                &&& reply@.len() >= 49 + reply@[0]
                &&& p.0 == (reply@[1 + reply@[0] + 5] & 16 != 0)
                &&& p.1@ == reply@.subrange(29 + reply@[0], 49 + reply@[0])
            },
            Err(e) => {
                &&& e == TorrentError::ProtocolViolation(0)
                &&& reply@.len() < 49 + (if reply@.len() > 0 {
                    reply@[0] as int
                } else {
                    0
                })
            },
        },
{
    if reply.len() == 0 {
        return Err(TorrentError::ProtocolViolation(0));
    }
    let pstrlen = reply[0] as usize;
    if reply.len() < 49 + pstrlen {
        return Err(TorrentError::ProtocolViolation(0));
    }
    let extensions = reply[1 + pstrlen + 5] & 16 != 0;
    let peer_id = crate::value::copy_bytes(&reply[29 + pstrlen..49 + pstrlen]);
    Ok((extensions, peer_id))
}

/// A length-prefixed peer-wire frame: the length covers the id byte and
/// the payload.
pub open spec fn frame_bytes(id: u8, payload: Seq<u8>) -> Seq<u8> {
    be32((payload.len() + 1) as u32) + seq![id] + payload
}

/// Frames a message, given its id and payload.
pub fn build_frame(id: u8, payload: &[u8]) -> (r: Vec<u8>)
    requires
        payload@.len() + 1 <= u32::MAX,
    ensures
        r@ == frame_bytes(id, payload@),
{
    let mut r = u32_to_be((payload.len() + 1) as u32);
    r.push(id);
    let mut p = crate::value::copy_bytes(payload);
    r.append(&mut p);
    proof {
        assert(r@ =~= frame_bytes(id, payload@));
    }
    r
}

/// The `interested` message, id 2 with an empty payload.
pub fn interested_message() -> (r: Vec<u8>)
    ensures
        r@ == frame_bytes(2, Seq::<u8>::empty()),
{
    let mut r = u32_to_be(1);
    r.push(2);
    proof {
        assert(r@ =~= frame_bytes(2, Seq::<u8>::empty()));
    }
    r
}

/// Blocks are requested in 16384-byte units.
pub open spec fn max_block_size() -> int {
    16384
}

/// How many blocks a piece of the given size needs.
pub open spec fn block_count(piece_size: int) -> int {
    (piece_size + max_block_size() - 1) / max_block_size()
}

/// The size of the `i`-th block: a full block, except a shorter final one
/// when the piece size is not a multiple of the block size.
pub open spec fn block_size_at(piece_size: int, i: int) -> int {
    if (i + 1) * max_block_size() <= piece_size {
        max_block_size()
    } else {
        piece_size % max_block_size()
    }
}

/// A `request` message, id 6: piece index, block offset, block length, all
/// big-endian.
#[verifier::opaque]
pub open spec fn request_frame(index: u32, offset: u32, size: u32) -> Seq<u8> {
    be32(13) + seq![6u8] + be32(index) + be32(offset) + be32(size)
}

/// Builds one `request` frame.
fn build_request(piece_index: u32, offset: u32, size: u32) -> (r: Vec<u8>)
    ensures
        r@ == request_frame(piece_index, offset, size),
{
    let mut msg = u32_to_be(13);
    msg.push(6);
    let mut b = u32_to_be(piece_index);
    msg.append(&mut b);
    let mut b = u32_to_be(offset);
    msg.append(&mut b);
    let mut b = u32_to_be(size);
    msg.append(&mut b);
    proof {
        reveal(request_frame);
        assert(msg@ =~= request_frame(piece_index, offset, size));
    }
    msg
}

/// The pipelined request frames for a whole piece: one per block, offsets
/// ascending in 16384-byte steps, the final block truncated to what the
/// piece still needs.
#[verifier::rlimit(50)]
pub fn plan_block_requests(piece_index: u32, piece_size: u32) -> (r: Vec<Vec<u8>>)
    ensures
        r@.len() == block_count(piece_size as int),
        forall|i: int|
            0 <= i < r@.len() ==> (#[trigger] r@[i])@ == request_frame(
                piece_index,
                (16384 * i) as u32,
                block_size_at(piece_size as int, i) as u32,
            ),
{
    let mut r: Vec<Vec<u8>> = Vec::new();
    let nblocks: u64 = (piece_size as u64 + 16383) / 16384;
    let mut i: u32 = 0;
    while (i as u64) < nblocks
        invariant
            nblocks == block_count(piece_size as int),
            nblocks <= 0x40000,
            i as u64 <= nblocks,
            r@.len() == i,
            forall|j: int|
                0 <= j < r@.len() ==> (#[trigger] r@[j])@ == request_frame(
                    piece_index,
                    (16384 * j) as u32,
                    block_size_at(piece_size as int, j) as u32,
                ),
        decreases nblocks - i,
    {
        proof {
            let ghost nb = (piece_size as int + 16383) / 16384;
            assert((i as int + 1) * 16384 <= piece_size as int + 16383) by (nonlinear_arith)
                requires
                    (i as int) < nb,
                    nb == (piece_size as int + 16383) / 16384,
            ;
            assert((i as int + 1) * 16384 == i as int * 16384 + 16384);
        }
        let offset = i * 16384;
        let size: u32 = if piece_size - offset >= 16384 {
            16384
        } else {
            piece_size % 16384
        };
        proof {
            assert(size as int == block_size_at(piece_size as int, i as int));
            assert(offset == (16384 * (i as int)) as u32);
        }
        let msg = build_request(piece_index, offset, size);
        r.push(msg);
        i = i + 1;
    }
    r
}

/// The number of bytes the given piece actually holds: the nominal piece
/// size, except for a final piece that only covers what is left of the
/// file.
pub fn effective_piece_size(file_size: usize, piece_size: usize, piece_index: usize) -> (r: usize)
    requires
        piece_size > 0,
    ensures
        r as int == (if (file_size as int) < (piece_index as int + 1) * (piece_size as int) {
            (file_size as int) % (piece_size as int)
        } else {
            piece_size as int
        }),
{
    proof {
        assert((piece_index as int + 1) * (piece_size as int) <= u128::MAX) by (nonlinear_arith)
            requires
                0 <= piece_index <= u64::MAX,
                0 <= piece_size <= u64::MAX,
        ;
    }
    if (file_size as u128) < (piece_index as u128 + 1) * (piece_size as u128) {
        proof {
            assert((file_size as u128) % (piece_size as u128) == (file_size as int) % (
            piece_size as int));
        }
        file_size % piece_size
    } else {
        piece_size
    }
}

/// Inserts a block into an offset-sorted sequence, after any block with
/// the same offset, so that arrival order decides only among equal
/// offsets, exactly as a stable sort of the arrivals would.
pub open spec fn insert_block(s: Seq<(u32, Seq<u8>)>, b: (u32, Seq<u8>)) -> Seq<(u32, Seq<u8>)>
    decreases s.len(),
{
    if s.len() == 0 {
        seq![b]
    } else if b.0 < s[0].0 {
        seq![b] + s
    } else {
        seq![s[0]] + insert_block(s.drop_first(), b)
    }
}

/// Non-decreasing block offsets.
pub open spec fn blocks_sorted(s: Seq<(u32, Seq<u8>)>) -> bool {
    forall|i: int, j: int| 0 <= i < j < s.len() ==> (#[trigger] s[i]).0 <= (#[trigger] s[j]).0
}

/// The collected blocks after a sequence of arrivals, each inserted in
/// offset order.
pub open spec fn collect_blocks(arrivals: Seq<(u32, Seq<u8>)>) -> Seq<(u32, Seq<u8>)>
    decreases arrivals.len(),
{
    if arrivals.len() == 0 {
        Seq::empty()
    } else {
        insert_block(collect_blocks(arrivals.drop_last()), arrivals.last())
    }
}

/// The piece bytes: the blocks' data concatenated in stored order.
pub open spec fn concat_blocks(s: Seq<(u32, Seq<u8>)>) -> Seq<u8>
    decreases s.len(),
{
    if s.len() == 0 {
        Seq::empty()
    } else {
        s[0].1 + concat_blocks(s.drop_first())
    }
}

pub proof fn lemma_insert_block_sorted(s: Seq<(u32, Seq<u8>)>, b: (u32, Seq<u8>))
    requires
        blocks_sorted(s),
    ensures
        blocks_sorted(insert_block(s, b)),
        insert_block(s, b).to_multiset() == s.to_multiset().insert(b),
        insert_block(s, b).len() == s.len() + 1,
    decreases s.len(),
{
    broadcast use vstd::seq_lib::group_seq_properties;

    if s.len() == 0 {
        assert(seq![b].drop_first() =~= Seq::<(u32, Seq<u8>)>::empty());
        assert(insert_block(s, b).to_multiset() =~= s.to_multiset().insert(b));
    } else if b.0 < s[0].0 {
        let r = seq![b] + s;
        assert forall|i: int, j: int| 0 <= i < j < r.len() implies (#[trigger] r[i]).0 <= (
        #[trigger] r[j]).0 by {
            if i > 0 {
                assert(s[i - 1].0 <= s[j - 1].0);
            } else {
                if j > 1 {
                    assert(s[0].0 <= s[j - 1].0);
                }
            }
        }
        assert(r =~= s.insert(0, b));
        assert(r.to_multiset() =~= s.to_multiset().insert(b));
    } else {
        assert(blocks_sorted(s.drop_first())) by {
            assert forall|i: int, j: int|
                0 <= i < j < s.drop_first().len() implies (#[trigger] s.drop_first()[i]).0 <= (
            #[trigger] s.drop_first()[j]).0 by {
                assert(s[i + 1].0 <= s[j + 1].0);
            }
        }
        lemma_insert_block_sorted(s.drop_first(), b);
        let tail = insert_block(s.drop_first(), b);
        let r = seq![s[0]] + tail;
        assert forall|i: int, j: int| 0 <= i < j < r.len() implies (#[trigger] r[i]).0 <= (
        #[trigger] r[j]).0 by {
            if i > 0 {
                assert(tail[i - 1].0 <= tail[j - 1].0);
            } else {
                // the head offset is at most every offset of the tail:
                // every tail element is either `b` or from `s.drop_first()`
                assert(tail.to_multiset().count(tail[j - 1]) > 0);
                assert(tail.contains(tail[j - 1]));
                if tail[j - 1] == b {
                } else {
                    assert(s.drop_first().to_multiset().count(tail[j - 1]) > 0);
                    assert(s.drop_first().contains(tail[j - 1]));
                    let k = choose|k: int|
                        0 <= k < s.drop_first().len() && s.drop_first()[k] == tail[j - 1];
                    assert(s[0].0 <= s[k + 1].0);
                }
            }
        }
        assert((seq![s[0]] + s.drop_first()) =~= s);
        assert(r.to_multiset() =~= s.to_multiset().insert(b)) by {
            assert(r =~= tail.insert(0, s[0]));
            assert(r.to_multiset() =~= tail.to_multiset().insert(s[0]));
            assert(s =~= s.drop_first().insert(0, s[0]));
            assert(s.to_multiset() =~= s.drop_first().to_multiset().insert(s[0]));
            assert(tail.to_multiset().insert(s[0]) =~= s.drop_first().to_multiset().insert(b).insert(
                s[0],
            ));
        }
    }
}

/// The collected blocks hold exactly the arrivals, in offset order.
pub proof fn lemma_collect_blocks_sorted(arrivals: Seq<(u32, Seq<u8>)>)
    ensures
        blocks_sorted(collect_blocks(arrivals)),
        collect_blocks(arrivals).to_multiset() == arrivals.to_multiset(),
        collect_blocks(arrivals).len() == arrivals.len(),
    decreases arrivals.len(),
{
    broadcast use vstd::seq_lib::group_seq_properties;

    if arrivals.len() == 0 {
        assert(collect_blocks(arrivals).to_multiset() =~= arrivals.to_multiset());
    } else {
        lemma_collect_blocks_sorted(arrivals.drop_last());
        lemma_insert_block_sorted(collect_blocks(arrivals.drop_last()), arrivals.last());
        assert(arrivals =~= arrivals.drop_last().push(arrivals.last()));
        assert(arrivals.drop_last().push(arrivals.last()).to_multiset() =~= arrivals.drop_last()
            .to_multiset().insert(arrivals.last()));
        assert(collect_blocks(arrivals).to_multiset() =~= arrivals.to_multiset());
    }
}

/// Two offset-sorted sequences with the same blocks and no repeated
/// offset are identical.
pub proof fn lemma_sorted_blocks_unique(s1: Seq<(u32, Seq<u8>)>, s2: Seq<(u32, Seq<u8>)>)
    requires
        blocks_sorted(s1),
        blocks_sorted(s2),
        forall|i: int, j: int|
            0 <= i < j < s1.len() ==> (#[trigger] s1[i]).0 != (#[trigger] s1[j]).0,
        s1.to_multiset() == s2.to_multiset(),
    ensures
        s1 == s2,
    decreases s1.len(),
{
    broadcast use vstd::seq_lib::group_seq_properties;

    vstd::seq_lib::to_multiset_len(s1);
    vstd::seq_lib::to_multiset_len(s2);
    if s1.len() == 0 {
        assert(s1 =~= s2);
    } else {
        assert(s1.to_multiset().count(s1[0]) > 0);
        assert(s2.to_multiset().count(s1[0]) > 0);
        assert(s2.contains(s1[0]));
        let k = choose|k: int| 0 <= k < s2.len() && s2[k] == s1[0];
        assert(s1.contains(s2[0])) by {
            assert(s2.to_multiset().count(s2[0]) > 0);
        }
        let m = choose|m: int| 0 <= m < s1.len() && s1[m] == s2[0];
        assert(s1[0].0 <= s1[m].0) by {
            if m > 0 {
                assert(s1[0].0 <= s1[m].0);
            }
        }
        assert(s2[0].0 <= s2[k].0) by {
            if k > 0 {
                assert(s2[0].0 <= s2[k].0);
            }
        }
        assert(s1[0].0 == s2[0].0);
        assert(m == 0) by {
            if m > 0 {
                assert(s1[0].0 != s1[m].0);
            }
        }
        assert(s1[0] == s2[0]);
        let t1 = s1.drop_first();
        let t2 = s2.drop_first();
        assert(t1 =~= s1.remove(0));
        assert(t2 =~= s2.remove(0));
        assert(t1.to_multiset() =~= s1.to_multiset().remove(s1[0]));
        assert(t2.to_multiset() =~= s2.to_multiset().remove(s2[0]));
        assert(blocks_sorted(t1)) by {
            assert forall|i: int, j: int| 0 <= i < j < t1.len() implies (#[trigger] t1[i]).0 <= (
            #[trigger] t1[j]).0 by {
                assert(s1[i + 1].0 <= s1[j + 1].0);
            }
        }
        assert(blocks_sorted(t2)) by {
            assert forall|i: int, j: int| 0 <= i < j < t2.len() implies (#[trigger] t2[i]).0 <= (
            #[trigger] t2[j]).0 by {
                assert(s2[i + 1].0 <= s2[j + 1].0);
            }
        }
        assert(forall|i: int, j: int|
            0 <= i < j < t1.len() ==> (#[trigger] t1[i]).0 != (#[trigger] t1[j]).0) by {
            assert forall|i: int, j: int|
                0 <= i < j < t1.len() implies (#[trigger] t1[i]).0 != (#[trigger] t1[j]).0 by {
                assert(s1[i + 1].0 != s1[j + 1].0);
            }
        }
        lemma_sorted_blocks_unique(t1, t2);
        assert(s1 =~= seq![s1[0]] + t1);
        assert(s2 =~= seq![s2[0]] + t2);
    }
}

/// Piece reassembly is order-independent: two arrival orders of the same
/// blocks, with no offset repeated, collect to the same sequence and hence
/// concatenate to the same piece bytes.
pub proof fn lemma_reassembly_order_independent(a1: Seq<(u32, Seq<u8>)>, a2: Seq<(u32, Seq<u8>)>)
    requires
        a1.to_multiset() == a2.to_multiset(),
        forall|i: int, j: int|
            0 <= i < j < a1.len() ==> (#[trigger] a1[i]).0 != (#[trigger] a1[j]).0,
    ensures
        collect_blocks(a1) == collect_blocks(a2),
        concat_blocks(collect_blocks(a1)) == concat_blocks(collect_blocks(a2)),
{
    broadcast use vstd::seq_lib::group_seq_properties;

    lemma_collect_blocks_sorted(a1);
    lemma_collect_blocks_sorted(a2);
    let c1 = collect_blocks(a1);
    assert(forall|i: int, j: int|
        0 <= i < j < c1.len() ==> (#[trigger] c1[i]).0 != (#[trigger] c1[j]).0) by {
        assert forall|i: int, j: int|
            0 <= i < j < c1.len() implies (#[trigger] c1[i]).0 != (#[trigger] c1[j]).0 by {
            if c1[i].0 == c1[j].0 {
                lemma_two_equal_offsets_in_arrivals(a1, c1, i, j);
                let (x, y) = choose|x: int, y: int|
                    0 <= x < y < a1.len() && (#[trigger] a1[x]).0 == (#[trigger] a1[y]).0;
                assert(a1[x].0 != a1[y].0);
            }
        }
    }
    lemma_sorted_blocks_unique(c1, collect_blocks(a2));
}

/// Unfolds `insert_block` at a position all of whose predecessors hold
/// offsets at most the new block's.
proof fn lemma_insert_block_prefix(s: Seq<(u32, Seq<u8>)>, b: (u32, Seq<u8>), pos: int)
    requires
        0 <= pos <= s.len(),
        forall|i: int| 0 <= i < pos ==> (#[trigger] s[i]).0 <= b.0,
        pos == s.len() || b.0 < s[pos as int].0,
    ensures
        insert_block(s, b) == s.subrange(0, pos) + seq![b] + s.skip(pos),
    decreases pos,
{
    if pos == 0 {
        if s.len() == 0 {
            assert(insert_block(s, b) =~= s.subrange(0, 0) + seq![b] + s.skip(0));
        } else {
            assert(s.subrange(0, 0) + seq![b] + s.skip(0) =~= seq![b] + s);
        }
    } else {
        lemma_insert_block_prefix(s.drop_first(), b, pos - 1);
        assert(s.drop_first().subrange(0, pos - 1) =~= s.subrange(1, pos));
        assert(s.drop_first().skip(pos - 1) =~= s.skip(pos));
        assert(seq![s[0]] + (s.subrange(1, pos) + seq![b] + s.skip(pos)) =~= s.subrange(0, pos)
            + seq![b] + s.skip(pos));
    }
}

/// Inserts an arriving block into the offset-sorted collection.
fn push_block(blocks: &mut Vec<(u32, Vec<u8>)>, offset: u32, data: Vec<u8>)
    ensures
        final(blocks).deep_view() == insert_block(old(blocks).deep_view(), (offset, data@)),
        final(blocks)@.len() == old(blocks)@.len() + 1,
{
    let ghost dv = blocks.deep_view();
    let ghost b = (offset, data@);
    let mut pos: usize = 0;
    while pos < blocks.len() && blocks[pos].0 <= offset
        invariant
            pos <= blocks.len(),
            dv == blocks.deep_view(),
            dv.len() == blocks@.len(),
            forall|i: int| 0 <= i < pos ==> (#[trigger] dv[i]).0 <= offset,
        decreases blocks.len() - pos,
    {
        proof {
            assert(dv[pos as int].0 == blocks@[pos as int].0);
        }
        pos = pos + 1;
    }
    proof {
        if pos < blocks@.len() {
            assert(dv[pos as int].0 == blocks@[pos as int].0);
        }
        lemma_insert_block_prefix(dv, b, pos as int);
    }
    blocks.insert(pos, (offset, data));
    proof {
        assert(blocks.deep_view() =~~= dv.subrange(0, pos as int) + seq![b] + dv.skip(pos as int));
    }
}

/// Concatenates the collected blocks' data in stored order.
fn assemble_piece(blocks: &Vec<(u32, Vec<u8>)>) -> (r: Vec<u8>)
    ensures
        r@ == concat_blocks(blocks.deep_view()),
{
    let ghost dv = blocks.deep_view();
    let mut r: Vec<u8> = Vec::new();
    let mut i: usize = 0;
    proof {
        assert(dv.skip(0) =~= dv);
    }
    while i < blocks.len()
        invariant
            i <= blocks.len(),
            dv == blocks.deep_view(),
            dv.len() == blocks@.len(),
            concat_blocks(dv) == r@ + concat_blocks(dv.skip(i as int)),
        decreases blocks.len() - i,
    {
        let ghost pre = r@;
        let mut data = crate::value::copy_bytes(blocks[i].1.as_slice());
        r.append(&mut data);
        proof {
            assert(dv.skip(i as int)[0] == dv[i as int]);
            assert(dv[i as int].1 == blocks@[i as int].1@);
            assert(dv.skip(i as int).drop_first() =~= dv.skip(i as int + 1));
            assert(pre + (dv.skip(i as int)[0].1 + concat_blocks(dv.skip(i as int + 1))) =~= (pre
                + dv.skip(i as int)[0].1) + concat_blocks(dv.skip(i as int + 1)));
        }
        i = i + 1;
    }
    proof {
        assert(dv.skip(blocks@.len() as int) =~= Seq::<(u32, Seq<u8>)>::empty());
        assert(r@ + concat_blocks(dv.skip(blocks@.len() as int)) =~= r@);
    }
    r
}

/// Where a piece-download session stands.
#[derive(Clone, Copy, Debug, PartialEq, Eq, Structural)]
pub enum PiecePhase {
    AwaitBitfield,
    AwaitUnchoke,
    Collecting,
    Complete,
    Failed,
}

/// What the caller must do after handing a message to the session: write
/// the given frames and read on, just read on, keep the finished piece, or
/// abandon the session.
pub enum SessionStep {
    Send(Vec<Vec<u8>>),
    Continue,
    Finished(Vec<u8>),
    Abort(TorrentError),
}

/// One piece-download session over one peer connection. The caller writes
/// the handshake, discards the 68-byte reply, and from then on hands every
/// length-prefixed message to `on_message`.
pub struct PieceSession {
    pub phase: PiecePhase,
    pub piece_index: u32,
    pub piece_size: u32,
    pub expected_hash: Vec<u8>,
    pub blocks: Vec<(u32, Vec<u8>)>,
}

impl PieceSession {
    /// The session invariant: a 20-byte expected hash; collected blocks
    /// sorted by offset, fewer than the piece needs while collecting and
    /// none before that.
    pub open spec fn wf(self) -> bool {
        &&& self.expected_hash@.len() == 20
        &&& blocks_sorted(self.blocks.deep_view())
        &&& self.phase is Collecting ==> self.blocks@.len() < block_count(self.piece_size as int)
        &&& (self.phase is AwaitBitfield || self.phase is AwaitUnchoke) ==> self.blocks@.len() == 0
    }

    /// A session still expecting messages.
    pub open spec fn active(self) -> bool {
        self.phase is AwaitBitfield || self.phase is AwaitUnchoke || self.phase is Collecting
    }

    /// Starts a session for one piece: its index on the wire, its
    /// effective size, and the 20-byte SHA1 hash it must have.
    pub fn new(piece_index: u32, piece_size: u32, expected_hash: Vec<u8>) -> (r: PieceSession)
        requires
            expected_hash@.len() == 20,
        ensures
            r.wf(),
            r.phase is AwaitBitfield,
            r.piece_index == piece_index,
            r.piece_size == piece_size,
            r.expected_hash@ == expected_hash@,
            r.blocks@.len() == 0,
    {
        PieceSession {
            phase: PiecePhase::AwaitBitfield,
            piece_index,
            piece_size,
            expected_hash,
            blocks: Vec::new(),
        }
    }

    /// Drives the session by one received message, given its id and
    /// payload.
    ///
    /// Awaiting the bitfield, only id 5 is accepted, answered with the
    /// `interested` message. Awaiting the unchoke, only id 1 is accepted,
    /// answered with every block request for the piece at once. Collecting,
    /// only id 7 is accepted; its payload past the first eight bytes is
    /// filed under the offset it names, and once as many blocks have
    /// arrived as the piece needs, the piece is reassembled in offset
    /// order. A piece whose SHA1 digest equals the expected hash is handed
    /// out with `Finished`; one that differs is discarded with
    /// `HashMismatch`. Any other message id fails the session with
    /// `ProtocolViolation` carrying that id.
    pub fn on_message(&mut self, id: u8, payload: &[u8]) -> (r: SessionStep)
        requires
            old(self).wf(),
            old(self).active(),
        ensures
            final(self).wf(),
            final(self).piece_index == old(self).piece_index,
            final(self).piece_size == old(self).piece_size,
            final(self).expected_hash@ == old(self).expected_hash@,
            match old(self).phase {
                PiecePhase::AwaitBitfield => if id == 5 {
                    &&& final(self).phase is AwaitUnchoke
                    &&& final(self).blocks@.len() == 0
                    &&& r matches SessionStep::Send(msgs) && msgs@.len() == 1 && msgs@[0]@
                        == frame_bytes(2, Seq::<u8>::empty())
                } else {
                    &&& final(self).phase is Failed
                    &&& r matches SessionStep::Abort(e) && e == TorrentError::ProtocolViolation(id)
                },
                PiecePhase::AwaitUnchoke => if id == 1 {
                    if block_count(old(self).piece_size as int) == 0 {
                        if sha1_of(Seq::<u8>::empty()) == old(self).expected_hash@ {
                            &&& final(self).phase is Complete
                            &&& r matches SessionStep::Finished(p) && p@ == Seq::<u8>::empty()
                        } else {
                            &&& final(self).phase is Failed
                            &&& r matches SessionStep::Abort(e) && e == TorrentError::HashMismatch
                        }
                    } else {
                        &&& final(self).phase is Collecting
                        &&& final(self).blocks@.len() == 0
                        &&& r matches SessionStep::Send(msgs) && msgs@.len() == block_count(
                            old(self).piece_size as int,
                        ) && forall|i: int|
                            0 <= i < msgs@.len() ==> (#[trigger] msgs@[i])@ == request_frame(
                                old(self).piece_index,
                                (16384 * i) as u32,
                                block_size_at(old(self).piece_size as int, i) as u32,
                            )
                    }
                } else {
                    &&& final(self).phase is Failed
                    &&& r matches SessionStep::Abort(e) && e == TorrentError::ProtocolViolation(id)
                },
                PiecePhase::Collecting => if id == 7 {
                    if payload@.len() < 8 {
                        &&& final(self).phase is Failed
                        &&& r matches SessionStep::Abort(e) && e == TorrentError::ProtocolViolation(
                            7,
                        )
                    } else {
                        let arrived = (
                            be32_val(payload@.subrange(4, 8)) as u32,
                            payload@.skip(8),
                        );
                        let collected = insert_block(old(self).blocks.deep_view(), arrived);
                        if collected.len() == block_count(old(self).piece_size as int) {
                            if sha1_of(concat_blocks(collected)) == old(self).expected_hash@ {
                                &&& final(self).phase is Complete
                                &&& r matches SessionStep::Finished(p) && p@ == concat_blocks(
                                    collected,
                                )
                            } else {
                                &&& final(self).phase is Failed
                                &&& r matches SessionStep::Abort(e) && e
                                    == TorrentError::HashMismatch
                            }
                        } else {
                            &&& final(self).phase is Collecting
                            &&& final(self).blocks.deep_view() == collected
                            &&& r is Continue
                        }
                    }
                } else {
                    &&& final(self).phase is Failed
                    &&& r matches SessionStep::Abort(e) && e == TorrentError::ProtocolViolation(id)
                },
                _ => true,
            },
    {
        match self.phase {
            PiecePhase::AwaitBitfield => {
                if id == 5 {
                    self.phase = PiecePhase::AwaitUnchoke;
                    let mut msgs: Vec<Vec<u8>> = Vec::new();
                    msgs.push(interested_message());
                    SessionStep::Send(msgs)
                } else {
                    self.phase = PiecePhase::Failed;
                    SessionStep::Abort(TorrentError::ProtocolViolation(id))
                }
            },
            PiecePhase::AwaitUnchoke => {
                if id == 1 {
                    let reqs = plan_block_requests(self.piece_index, self.piece_size);
                    if reqs.len() == 0 {
                        let piece: Vec<u8> = Vec::new();
                        let digest = sha1_digest(piece.as_slice());
                        if bytes_eq(digest.as_slice(), self.expected_hash.as_slice()) {
                            self.phase = PiecePhase::Complete;
                            SessionStep::Finished(piece)
                        } else {
                            self.phase = PiecePhase::Failed;
                            SessionStep::Abort(TorrentError::HashMismatch)
                        }
                    } else {
                        self.phase = PiecePhase::Collecting;
                        SessionStep::Send(reqs)
                    }
                } else {
                    self.phase = PiecePhase::Failed;
                    SessionStep::Abort(TorrentError::ProtocolViolation(id))
                }
            },
            PiecePhase::Collecting => {
                if id == 7 {
                    if payload.len() < 8 {
                        self.phase = PiecePhase::Failed;
                        return SessionStep::Abort(TorrentError::ProtocolViolation(7));
                    }
                    let offset = u32_from_be(&payload[4..8]);
                    let data = crate::value::copy_bytes(&payload[8..payload.len()]);
                    proof {
                        assert(payload@.subrange(8, payload@.len() as int) =~= payload@.skip(8));
                    }
                    let ghost old_blocks = self.blocks.deep_view();
                    push_block(&mut self.blocks, offset, data);
                    proof {
                        lemma_insert_block_sorted(old_blocks, (offset, payload@.skip(8)));
                    }
                    let nblocks: u64 = (self.piece_size as u64 + 16383) / 16384;
                    if self.blocks.len() as u64 == nblocks {
                        let piece = assemble_piece(&self.blocks);
                        let digest = sha1_digest(piece.as_slice());
                        if bytes_eq(digest.as_slice(), self.expected_hash.as_slice()) {
                            self.phase = PiecePhase::Complete;
                            SessionStep::Finished(piece)
                        } else {
                            self.phase = PiecePhase::Failed;
                            SessionStep::Abort(TorrentError::HashMismatch)
                        }
                    } else {
                        SessionStep::Continue
                    }
                } else {
                    self.phase = PiecePhase::Failed;
                    SessionStep::Abort(TorrentError::ProtocolViolation(id))
                }
            },
            _ => {
                proof {
                    assert(false);
                }
                SessionStep::Continue
            },
        }
    }
}

/// If a sequence holds two blocks with one offset, so does any sequence
/// with the same blocks.
proof fn lemma_two_equal_offsets_in_arrivals(
    a: Seq<(u32, Seq<u8>)>,
    c: Seq<(u32, Seq<u8>)>,
    i: int,
    j: int,
)
    requires
        c.to_multiset() == a.to_multiset(),
        0 <= i < j < c.len(),
        c[i].0 == c[j].0,
    ensures
        exists|x: int, y: int| 0 <= x < y < a.len() && (#[trigger] a[x]).0 == (#[trigger] a[y]).0,
{
    broadcast use vstd::seq_lib::group_seq_properties;

    let r = c.remove(j);
    assert(r.to_multiset() =~= c.to_multiset().remove(c[j]));
    assert(r[i] == c[i]);
    assert(r.to_multiset().count(c[i]) > 0) by {
        assert(r.contains(r[i]));
    }
    // both c[i] and c[j] are among the arrivals
    assert(a.to_multiset().count(c[j]) > 0);
    assert(a.contains(c[j]));
    let y = choose|y: int| 0 <= y < a.len() && a[y] == c[j];
    if c[i] == c[j] {
        // the same block twice: its count in the arrivals is at least two
        assert(a.remove(y).to_multiset() =~= a.to_multiset().remove(a[y]));
        assert(a.to_multiset().count(c[i]) >= 2) by {
            assert(c.to_multiset().count(c[i]) == r.to_multiset().count(c[i]) + 1);
        }
        assert(a.remove(y).to_multiset().count(c[i]) > 0);
        assert(a.remove(y).contains(c[i]));
        let x = choose|x: int| 0 <= x < a.remove(y).len() && a.remove(y)[x] == c[i];
        if x < y {
            assert(a[x] == a.remove(y)[x]);
            assert(0 <= x < y < a.len() && a[x].0 == a[y].0);
        } else {
            assert(a[x + 1] == a.remove(y)[x]);
            assert(0 <= y < x + 1 < a.len() && a[y].0 == a[x + 1].0);
        }
    } else {
        assert(a.contains(c[i])) by {
            assert(a.to_multiset().count(c[i]) > 0);
        }
        let x = choose|x: int| 0 <= x < a.len() && a[x] == c[i];
        assert(x != y);
        if x < y {
            assert(0 <= x < y < a.len() && a[x].0 == a[y].0);
        } else {
            assert(0 <= y < x < a.len() && a[y].0 == a[x].0);
        }
    }
}

} // verus!
