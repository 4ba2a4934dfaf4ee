//! On-disk layout of the engine's records: fixed-size little-endian fields
//! in declaration order. An event record is 65 bytes (type tag, key, price,
//! quantity, owner); a slab node record is 80 bytes (key, price, quantity,
//! owner, slot, next, prev, the links as raw indices with `NULL_INDEX` for
//! a list end); a slab buffer is its node records concatenated.
use crate::errors::ErrorCode;
use crate::slab::Slab;
use crate::slab::SlabNode;
use crate::state::OrderEvent;
use crate::state::Side;
use vstd::arithmetic::div_mod::lemma_fundamental_div_mod;
use vstd::bytes::lemma_auto_spec_u32_to_from_le_bytes;
use vstd::bytes::lemma_auto_spec_u64_to_from_le_bytes;
use vstd::bytes::spec_u32_from_le_bytes;
use vstd::bytes::spec_u32_to_le_bytes;
use vstd::bytes::spec_u64_from_le_bytes;
use vstd::bytes::spec_u64_to_le_bytes;
use vstd::bytes::u32_from_le_bytes;
use vstd::bytes::u32_to_le_bytes;
use vstd::bytes::u64_from_le_bytes;
use vstd::bytes::u64_to_le_bytes;
use vstd::prelude::*;
use vstd::slice::slice_subrange;

verus! {

/// Bytes of one event record.
pub const EVENT_RECORD_SIZE: usize = 65;

/// Bytes of one slab node record.
pub const NODE_RECORD_SIZE: usize = 80;

/// Little-endian bytes of a `u128`: its low half then its high half.
pub open spec fn spec_u128_to_le_bytes(x: u128) -> Seq<u8> {
    spec_u64_to_le_bytes((x % 0x1_0000_0000_0000_0000) as u64) + spec_u64_to_le_bytes(
        (x / 0x1_0000_0000_0000_0000) as u64,
    )
}

/// The `u128` a 16-byte little-endian run denotes.
pub open spec fn spec_u128_from_le_bytes(s: Seq<u8>) -> u128
    recommends
        s.len() == 16,
{
    (spec_u64_from_le_bytes(s.subrange(0, 8)) + 0x1_0000_0000_0000_0000 * spec_u64_from_le_bytes(
        s.subrange(8, 16),
    )) as u128
}

/// The 16-byte encoding round-trips.
pub proof fn lemma_u128_le_bytes_round_trip(x: u128)
    ensures
        spec_u128_to_le_bytes(x).len() == 16,
        spec_u128_from_le_bytes(spec_u128_to_le_bytes(x)) == x,
{
    lemma_auto_spec_u64_to_from_le_bytes();
    let lo = (x % 0x1_0000_0000_0000_0000) as u64;
    let hi = (x / 0x1_0000_0000_0000_0000) as u64;
    let s = spec_u128_to_le_bytes(x);
    assert(s.subrange(0, 8) =~= spec_u64_to_le_bytes(lo));
    assert(s.subrange(8, 16) =~= spec_u64_to_le_bytes(hi));
    lemma_fundamental_div_mod(x as int, 0x1_0000_0000_0000_0000);
}

/// Append `src` to `dst`.
fn push_bytes(dst: &mut Vec<u8>, src: &Vec<u8>)
    ensures
        final(dst)@ == old(dst)@ + src@,
{
    let mut i: usize = 0;
    let n = src.len();
    proof {
        assert(old(dst)@ + src@.take(0) =~= old(dst)@);
    }
    while i < n
        invariant
            0 <= i <= n,
            n == src.len(),
            dst@ == old(dst)@ + src@.take(i as int),
        decreases n - i,
    {
        dst.push(src[i]);
        proof {
            assert(old(dst)@ + src@.take(i + 1) =~= (old(dst)@ + src@.take(i as int)).push(
                src@[i as int],
            ));
        }
        i = i + 1;
    }
    proof {
        assert(src@.take(n as int) =~= src@);
    }
}

/// Serialize a `u128` into `dst`, low half first.
fn push_u128(dst: &mut Vec<u8>, x: u128)
    ensures
        final(dst)@ == old(dst)@ + spec_u128_to_le_bytes(x),
{
    let lo = (x % 0x1_0000_0000_0000_0000u128) as u64;
    let hi = (x / 0x1_0000_0000_0000_0000u128) as u64;
    let lo_bytes = u64_to_le_bytes(lo);
    let hi_bytes = u64_to_le_bytes(hi);
    push_bytes(dst, &lo_bytes);
    push_bytes(dst, &hi_bytes);
    proof {
        assert((old(dst)@ + spec_u64_to_le_bytes(lo)) + spec_u64_to_le_bytes(hi) =~= old(dst)@
            + spec_u128_to_le_bytes(x));
    }
}

/// Serialize a `u64` into `dst`.
fn push_u64(dst: &mut Vec<u8>, x: u64)
    ensures
        final(dst)@ == old(dst)@ + spec_u64_to_le_bytes(x),
{
    let bytes = u64_to_le_bytes(x);
    push_bytes(dst, &bytes);
}

/// Serialize a `u32` into `dst`.
fn push_u32(dst: &mut Vec<u8>, x: u32)
    ensures
        final(dst)@ == old(dst)@ + spec_u32_to_le_bytes(x),
{
    let bytes = u32_to_le_bytes(x);
    push_bytes(dst, &bytes);
}

/// Serialize a 32-byte identity into `dst`.
fn push_owner(dst: &mut Vec<u8>, owner: &[u8; 32])
    ensures
        final(dst)@ == old(dst)@ + owner@,
{
    let mut i: usize = 0;
    proof {
        assert(old(dst)@ + owner@.take(0) =~= old(dst)@);
    }
    while i < 32
        invariant
            0 <= i <= 32,
            dst@ == old(dst)@ + owner@.take(i as int),
        decreases 32 - i,
    {
        dst.push(owner[i]);
        proof {
            assert(old(dst)@ + owner@.take(i + 1) =~= (old(dst)@ + owner@.take(i as int)).push(
                owner@[i as int],
            ));
        }
        i = i + 1;
    }
    proof {
        assert(owner@.take(32) =~= owner@);
    }
}

/// Read a `u64` at `start`.
fn read_u64(bytes: &Vec<u8>, start: usize) -> (r: u64)
    requires
        start + 8 <= bytes.len(),
    ensures
        r == spec_u64_from_le_bytes(bytes@.subrange(start as int, start as int + 8)),
{
    let s = slice_subrange(bytes.as_slice(), start, start + 8);
    u64_from_le_bytes(s)
}

/// Read a `u32` at `start`.
fn read_u32(bytes: &Vec<u8>, start: usize) -> (r: u32)
    requires
        start + 4 <= bytes.len(),
    ensures
        r == spec_u32_from_le_bytes(bytes@.subrange(start as int, start as int + 4)),
{
    let s = slice_subrange(bytes.as_slice(), start, start + 4);
    u32_from_le_bytes(s)
}

/// Read a `u128` at `start`, low half first.
fn read_u128(bytes: &Vec<u8>, start: usize) -> (r: u128)
    requires
        start + 16 <= bytes.len(),
    ensures
        r == spec_u128_from_le_bytes(bytes@.subrange(start as int, start as int + 16)),
{
    let lo = read_u64(bytes, start);
    let hi = read_u64(bytes, start + 8);
    let ghost whole = bytes@.subrange(start as int, start as int + 16);
    proof {
        assert(whole.subrange(0, 8) =~= bytes@.subrange(start as int, start as int + 8));
        assert(whole.subrange(8, 16) =~= bytes@.subrange(start as int + 8, start as int + 16));
    }
    (lo as u128) + 0x1_0000_0000_0000_0000u128 * (hi as u128)
}

/// Read a 32-byte identity at `start`.
fn read_owner(bytes: &Vec<u8>, start: usize) -> (r: [u8; 32])
    requires
        start + 32 <= bytes.len(),
    ensures
        r@ == bytes@.subrange(start as int, start as int + 32),
{
    let mut owner = [0u8; 32];
    let mut i: usize = 0;
    while i < 32
        invariant
            0 <= i <= 32,
            start + 32 <= bytes.len(),
            forall|j: int| 0 <= j < i ==> owner@[j] == bytes@[start + j],
        decreases 32 - i,
    {
        owner[i] = bytes[start + i];
        i = i + 1;
    }
    proof {
        assert(owner@ =~= bytes@.subrange(start as int, start as int + 32));
    }
    owner
}

/// The on-disk bytes of one event record.
pub open spec fn spec_encode_event(ev: OrderEvent) -> Seq<u8> {
    seq![ev.event_type] + spec_u128_to_le_bytes(ev.key) + spec_u64_to_le_bytes(ev.price)
        + spec_u64_to_le_bytes(ev.qty) + ev.owner@
}

/// The fields a 65-byte event record denotes: type tag, key, price,
/// quantity, owner bytes.
pub open spec fn spec_event_fields(s: Seq<u8>) -> (u8, u128, u64, u64, Seq<u8>)
    recommends
        s.len() == 65,
{
    (
        s[0],
        spec_u128_from_le_bytes(s.subrange(1, 17)),
        spec_u64_from_le_bytes(s.subrange(17, 25)),
        spec_u64_from_le_bytes(s.subrange(25, 33)),
        s.subrange(33, 65),
    )
}

/// Serializing an event record and reading it back yields its fields.
pub proof fn lemma_event_round_trip(ev: OrderEvent)
    ensures
        spec_encode_event(ev).len() == 65,
        spec_event_fields(spec_encode_event(ev)) == (
            ev.event_type,
            ev.key,
            ev.price,
            ev.qty,
            ev.owner@,
        ),
{
    lemma_auto_spec_u64_to_from_le_bytes();
    lemma_u128_le_bytes_round_trip(ev.key);
    let s = spec_encode_event(ev);
    assert(s.subrange(1, 17) =~= spec_u128_to_le_bytes(ev.key));
    assert(s.subrange(17, 25) =~= spec_u64_to_le_bytes(ev.price));
    assert(s.subrange(25, 33) =~= spec_u64_to_le_bytes(ev.qty));
    assert(s.subrange(33, 65) =~= ev.owner@);
}

/// Serialize one event record.
pub fn encode_event(ev: &OrderEvent) -> (r: Vec<u8>)
    ensures
        r@ == spec_encode_event(*ev),
        r@.len() == EVENT_RECORD_SIZE,
{
    let mut out: Vec<u8> = Vec::new();
    out.push(ev.event_type);
    proof {
        assert(out@ =~= Seq::<u8>::empty().push(ev.event_type));
        assert(Seq::<u8>::empty().push(ev.event_type) =~= seq![ev.event_type]);
    }
    push_u128(&mut out, ev.key);
    push_u64(&mut out, ev.price);
    push_u64(&mut out, ev.qty);
    push_owner(&mut out, &ev.owner);
    proof {
        lemma_event_round_trip(*ev);
        assert(out@ =~= spec_encode_event(*ev));
    }
    out
}

/// Deserialize one event record. Fails with
/// `EventDeserializationFailure` exactly when the buffer is not 65 bytes.
pub fn decode_event(bytes: &Vec<u8>) -> (r: Result<OrderEvent, ErrorCode>)
    ensures
        match r {
            Ok(ev) => {
                &&& bytes@.len() == EVENT_RECORD_SIZE
                &&& (ev.event_type, ev.key, ev.price, ev.qty, ev.owner@) == spec_event_fields(
                    bytes@,
                )
            },
            Err(e) => {
                &&& e == ErrorCode::EventDeserializationFailure
                &&& bytes@.len() != EVENT_RECORD_SIZE
            },
        },
{
    if bytes.len() != EVENT_RECORD_SIZE {
        return Err(ErrorCode::EventDeserializationFailure);
    }
    let event_type = bytes[0];
    let key = read_u128(bytes, 1);
    let price = read_u64(bytes, 17);
    let qty = read_u64(bytes, 25);
    let owner = read_owner(bytes, 33);
    Ok(OrderEvent { event_type, key, price, qty, owner })
}

/// The on-disk bytes of one slab node record.
pub open spec fn spec_encode_node(n: SlabNode) -> Seq<u8> {
    spec_u128_to_le_bytes(n.key) + spec_u64_to_le_bytes(n.price) + spec_u64_to_le_bytes(n.qty)
        + n.owner@ + spec_u64_to_le_bytes(n.inserted_slot) + spec_u32_to_le_bytes(n.next)
        + spec_u32_to_le_bytes(n.prev)
}

/// `n` holds exactly the fields the 80-byte record `s` denotes.
pub open spec fn node_matches(n: SlabNode, s: Seq<u8>) -> bool
    recommends
        s.len() == 80,
{
    &&& n.key == spec_u128_from_le_bytes(s.subrange(0, 16))
    &&& n.price == spec_u64_from_le_bytes(s.subrange(16, 24))
    &&& n.qty == spec_u64_from_le_bytes(s.subrange(24, 32))
    &&& n.owner@ == s.subrange(32, 64)
    &&& n.inserted_slot == spec_u64_from_le_bytes(s.subrange(64, 72))
    &&& n.next == spec_u32_from_le_bytes(s.subrange(72, 76))
    &&& n.prev == spec_u32_from_le_bytes(s.subrange(76, 80))
}

/// Serializing a node record and reading it back yields its fields.
pub proof fn lemma_node_round_trip(n: SlabNode)
    ensures
        spec_encode_node(n).len() == 80,
        node_matches(n, spec_encode_node(n)),
{
    lemma_auto_spec_u64_to_from_le_bytes();
    lemma_auto_spec_u32_to_from_le_bytes();
    lemma_u128_le_bytes_round_trip(n.key);
    let s = spec_encode_node(n);
    assert(s.subrange(0, 16) =~= spec_u128_to_le_bytes(n.key));
    assert(s.subrange(16, 24) =~= spec_u64_to_le_bytes(n.price));
    assert(s.subrange(24, 32) =~= spec_u64_to_le_bytes(n.qty));
    assert(s.subrange(32, 64) =~= n.owner@);
    assert(s.subrange(64, 72) =~= spec_u64_to_le_bytes(n.inserted_slot));
    assert(s.subrange(72, 76) =~= spec_u32_to_le_bytes(n.next));
    assert(s.subrange(76, 80) =~= spec_u32_to_le_bytes(n.prev));
}

/// Serialize one node record.
fn encode_node(n: &SlabNode) -> (r: Vec<u8>)
    ensures
        r@ == spec_encode_node(*n),
        r@.len() == NODE_RECORD_SIZE,
{
    let mut out: Vec<u8> = Vec::new();
    proof {
        assert(out@ + spec_u128_to_le_bytes(n.key) =~= spec_u128_to_le_bytes(n.key));
    }
    push_u128(&mut out, n.key);
    push_u64(&mut out, n.price);
    push_u64(&mut out, n.qty);
    push_owner(&mut out, &n.owner);
    push_u64(&mut out, n.inserted_slot);
    push_u32(&mut out, n.next);
    push_u32(&mut out, n.prev);
    proof {
        lemma_node_round_trip(*n);
        assert(out@ =~= spec_encode_node(*n));
    }
    out
}

/// Deserialize one node record from `bytes` at `start`.
fn decode_node(bytes: &Vec<u8>, start: usize) -> (n: SlabNode)
    requires
        start + 80 <= bytes.len(),
    ensures
        node_matches(n, bytes@.subrange(start as int, start as int + 80)),
{
    let ghost whole = bytes@.subrange(start as int, start as int + 80);
    proof {
        assert(whole.subrange(0, 16) =~= bytes@.subrange(start as int, start as int + 16));
        assert(whole.subrange(16, 24) =~= bytes@.subrange(start as int + 16, start as int + 24));
        assert(whole.subrange(24, 32) =~= bytes@.subrange(start as int + 24, start as int + 32));
        assert(whole.subrange(32, 64) =~= bytes@.subrange(start as int + 32, start as int + 64));
        assert(whole.subrange(64, 72) =~= bytes@.subrange(start as int + 64, start as int + 72));
        assert(whole.subrange(72, 76) =~= bytes@.subrange(start as int + 72, start as int + 76));
        assert(whole.subrange(76, 80) =~= bytes@.subrange(start as int + 76, start as int + 80));
    }
    let key = read_u128(bytes, start);
    let price = read_u64(bytes, start + 16);
    let qty = read_u64(bytes, start + 24);
    let owner = read_owner(bytes, start + 32);
    let inserted_slot = read_u64(bytes, start + 64);
    let next = read_u32(bytes, start + 72);
    let prev = read_u32(bytes, start + 76);
    SlabNode { key, price, qty, owner, inserted_slot, next, prev }
}

/// The on-disk bytes of a whole slab buffer: its node records concatenated.
pub open spec fn spec_encode_slab(nodes: Seq<SlabNode>) -> Seq<u8>
    decreases nodes.len(),
{
    if nodes.len() == 0 {
        Seq::empty()
    } else {
        spec_encode_node(nodes[0]) + spec_encode_slab(nodes.drop_first())
    }
}

/// Appending a node appends its record.
proof fn lemma_encode_slab_push(nodes: Seq<SlabNode>, n: SlabNode)
    ensures
        spec_encode_slab(nodes.push(n)) == spec_encode_slab(nodes) + spec_encode_node(n),
    decreases nodes.len(),
{
    let s2 = nodes.push(n);
    if nodes.len() == 0 {
        assert(s2[0] == n);
        assert(s2.drop_first() =~= Seq::<SlabNode>::empty());
        assert(spec_encode_slab(s2.drop_first()) == Seq::<u8>::empty());
        assert(spec_encode_node(n) + Seq::<u8>::empty() =~= spec_encode_node(n));
        assert(spec_encode_slab(nodes) + spec_encode_node(n) =~= spec_encode_node(n));
    } else {
        assert(s2[0] == nodes[0]);
        assert(s2.drop_first() =~= nodes.drop_first().push(n));
        lemma_encode_slab_push(nodes.drop_first(), n);
        assert((spec_encode_node(nodes[0]) + spec_encode_slab(nodes.drop_first()))
            + spec_encode_node(n) =~= spec_encode_node(nodes[0]) + (spec_encode_slab(
            nodes.drop_first(),
        ) + spec_encode_node(n)));
    }
}

/// A slab buffer is 80 bytes per node.
pub proof fn lemma_encode_slab_len(nodes: Seq<SlabNode>)
    ensures
        spec_encode_slab(nodes).len() == 80 * nodes.len(),
    decreases nodes.len(),
{
    if nodes.len() > 0 {
        lemma_node_round_trip(nodes[0]);
        lemma_encode_slab_len(nodes.drop_first());
    }
}

/// The `i`-th record of a slab buffer is the `i`-th node's record.
pub proof fn lemma_encode_slab_segment(nodes: Seq<SlabNode>, i: int)
    requires
        0 <= i < nodes.len(),
    ensures
        spec_encode_slab(nodes).subrange(80 * i, 80 * i + 80) == spec_encode_node(nodes[i]),
    decreases nodes.len(),
{
    lemma_encode_slab_len(nodes);
    lemma_node_round_trip(nodes[0]);
    lemma_encode_slab_len(nodes.drop_first());
    if i == 0 {
        assert(spec_encode_slab(nodes).subrange(0, 80) =~= spec_encode_node(nodes[0]));
    } else {
        lemma_encode_slab_segment(nodes.drop_first(), i - 1);
        assert(nodes.drop_first()[i - 1] == nodes[i]);
        assert(spec_encode_slab(nodes).subrange(80 * i, 80 * i + 80) =~= spec_encode_slab(
            nodes.drop_first(),
        ).subrange(80 * (i - 1), 80 * (i - 1) + 80));
    }
}

/// Serializing a slab and reading it back yields every node's fields: the
/// record round-trip law at the buffer level.
pub proof fn lemma_slab_round_trip(nodes: Seq<SlabNode>, i: int)
    requires
        0 <= i < nodes.len(),
    ensures
        spec_encode_slab(nodes).len() == 80 * nodes.len(),
        node_matches(nodes[i], spec_encode_slab(nodes).subrange(80 * i, 80 * i + 80)),
{
    lemma_encode_slab_len(nodes);
    lemma_encode_slab_segment(nodes, i);
    lemma_node_round_trip(nodes[i]);
}

/// Serialize a slab's node buffer; the two list heads ride beside the
/// bytes, as the metadata record stores them.
pub fn encode_slab(slab: &Slab) -> (r: (Vec<u8>, u32, u32))
    ensures
        r.0@ == spec_encode_slab(slab.nodes@),
        r.1 == slab.head,
        r.2 == slab.free_head,
{
    let mut out: Vec<u8> = Vec::new();
    let mut i: usize = 0;
    let n = slab.nodes.len();
    proof {
        assert(slab.nodes@.take(0) =~= Seq::<SlabNode>::empty());
    }
    while i < n
        invariant
            0 <= i <= n,
            n == slab.nodes.len(),
            out@ == spec_encode_slab(slab.nodes@.take(i as int)),
        decreases n - i,
    {
        let node_bytes = encode_node(&slab.nodes[i]);
        push_bytes(&mut out, &node_bytes);
        proof {
            assert(slab.nodes@.take(i + 1) =~= slab.nodes@.take(i as int).push(
                slab.nodes@[i as int],
            ));
            lemma_encode_slab_push(slab.nodes@.take(i as int), slab.nodes@[i as int]);
        }
        i = i + 1;
    }
    proof {
        assert(slab.nodes@.take(n as int) =~= slab.nodes@);
    }
    (out, slab.head, slab.free_head)
}

/// Deserialize a slab's node buffer around the stored list heads. Fails
/// with `EventDeserializationFailure` exactly when the buffer is not a
/// whole number of records.
///
/// Decoding restores the stored bytes; it does not re-establish the slab's
/// well-formedness, which the host audits when it loads a record it did
/// not itself write.
pub fn decode_slab(bytes: &Vec<u8>, head: u32, free_head: u32, side: Side) -> (r: Result<
    Slab,
    ErrorCode,
>)
    ensures
        match r {
            Ok(s) => {
                &&& bytes@.len() % 80 == 0
                &&& s.nodes@.len() == bytes@.len() / 80
                &&& forall|i: int|
                    0 <= i < s.nodes@.len() ==> node_matches(
                        #[trigger] s.nodes@[i],
                        bytes@.subrange(80 * i, 80 * i + 80),
                    )
                &&& s.head == head
                &&& s.free_head == free_head
                &&& s.side == side
            },
            Err(e) => {
                &&& e == ErrorCode::EventDeserializationFailure
                &&& bytes@.len() % 80 != 0
            },
        },
{
    if bytes.len() % NODE_RECORD_SIZE != 0 {
        return Err(ErrorCode::EventDeserializationFailure);
    }
    let count = bytes.len() / NODE_RECORD_SIZE;
    let mut nodes: Vec<SlabNode> = Vec::new();
    let mut i: usize = 0;
    proof {
        assert(80 * (count as int) == bytes@.len()) by {
            lemma_fundamental_div_mod(bytes@.len() as int, 80);
        }
    }
    while i < count
        invariant
            0 <= i <= count,
            count == bytes@.len() / 80,
            80 * (count as int) == bytes@.len(),
            bytes@.len() <= usize::MAX,
            nodes.len() == i,
            forall|j: int|
                0 <= j < i ==> node_matches(
                    #[trigger] nodes@[j],
                    bytes@.subrange(80 * j, 80 * j + 80),
                ),
        decreases count - i,
    {
        proof {
            assert((i as int) * 80 + 80 <= bytes@.len()) by (nonlinear_arith)
                requires
                    0 <= i < count,
                    80 * (count as int) == bytes@.len(),
            ;
        }
        let start = i * NODE_RECORD_SIZE;
        let node = decode_node(bytes, start);
        nodes.push(node);
        i = i + 1;
    }
    Ok(
        Slab {
            nodes,
            head,
            free_head,
            side,
            active_list: Ghost(Seq::empty()),
            free_list: Ghost(Seq::empty()),
        },
    )
}

} // verus!
