//! Fixed-capacity slab order book: an intrusive doubly-linked active list,
//! price-time sorted, plus a singly-linked free list, both threaded through
//! one array of nodes by index. `NULL_INDEX` terminates both lists.
//!
//! The ghost fields `active_list` and `free_list` carry the two lists as
//! index sequences; [`Slab::wf`] ties them to the executable links, and every
//! operation states its effect as an update of those sequences.
use crate::errors::ErrorCode;
use crate::state::Side;
use vstd::prelude::*;

verus! {

/// List terminator for `head`, `free_head`, `next` and `prev`.
pub const NULL_INDEX: u32 = u32::MAX;

/// Compile-time bound on slab capacity.
pub const MAX_SLAB_CAPACITY: usize = 140;

/// One order node of the slab.
#[derive(Clone, Copy, Debug)]
pub struct SlabNode {
    /// Order id; unique within the book and increasing with placement order.
    pub key: u128,
    pub price: u64,
    pub qty: u64,
    pub owner: [u8; 32],
    /// Host slot at which the order was inserted; the time part of
    /// price-time priority.
    pub inserted_slot: u64,
    pub next: u32,
    pub prev: u32,
}

/// The payload of a node, without the list links: what the rest of the
/// engine reads of a resting order.
#[derive(Clone, Copy, Debug)]
pub struct OrderView {
    pub key: u128,
    pub price: u64,
    pub qty: u64,
    pub owner: [u8; 32],
    pub inserted_slot: u64,
}

/// The payload carried by `n`.
pub open spec fn view_of(n: SlabNode) -> OrderView {
    OrderView {
        key: n.key,
        price: n.price,
        qty: n.qty,
        owner: n.owner,
        inserted_slot: n.inserted_slot,
    }
}

/// `p1` is a strictly better price than `p2` on `side`.
pub open spec fn price_better(p1: u64, p2: u64, side: Side) -> bool {
    match side {
        Side::Bid => p1 > p2,
        Side::Ask => p1 < p2,
    }
}

/// Strict price-time-key priority: `x` is served before `y`.
pub open spec fn view_precedes(x: OrderView, y: OrderView, side: Side) -> bool {
    ||| price_better(x.price, y.price, side)
    ||| (x.price == y.price && x.inserted_slot < y.inserted_slot)
    ||| (x.price == y.price && x.inserted_slot == y.inserted_slot && x.key < y.key)
}

/// The insertion walk stops in front of `cur`: the new entry is strictly
/// better by price, or ties the price with a strictly earlier slot.
pub open spec fn insert_goes_before(price: u64, slot: u64, cur: OrderView, side: Side) -> bool {
    price_better(price, cur.price, side) || (price == cur.price && slot < cur.inserted_slot)
}

/// `s` with `v` inserted at position `p`.
pub open spec fn seq_insert<T>(s: Seq<T>, p: int, v: T) -> Seq<T>
    recommends
        0 <= p <= s.len(),
{
    Seq::new(
        s.len() + 1,
        |i: int|
            if i < p {
                s[i]
            } else if i == p {
                v
            } else {
                s[i - 1]
            },
    )
}

/// `s` with the element at position `p` removed.
pub open spec fn seq_remove_at<T>(s: Seq<T>, p: int) -> Seq<T>
    recommends
        0 <= p < s.len(),
{
    Seq::new((s.len() - 1) as nat, |i: int| if i < p { s[i] } else { s[i + 1] })
}

/// First index of `v` in `s`, or `s.len()` if absent.
pub open spec fn seq_find(s: Seq<int>, v: int) -> int
    decreases s.len(),
{
    if s.len() == 0 {
        0
    } else if s[0] == v {
        0
    } else {
        1 + seq_find(s.drop_first(), v)
    }
}

/// No value occurs twice in `s`.
pub open spec fn distinct(s: Seq<int>) -> bool {
    forall|i: int, j: int| 0 <= i < j < s.len() ==> s[i] != s[j]
}

/// No value occurs in both `a` and `f`.
pub open spec fn disjoint(a: Seq<int>, f: Seq<int>) -> bool {
    forall|i: int, j: int|
        #![trigger a[i], f[j]]
        0 <= i < a.len() && 0 <= j < f.len() ==> a[i] != f[j]
}

/// Every index below `cap` occurs in `a` or in `f`.
pub open spec fn covers(a: Seq<int>, f: Seq<int>, cap: int) -> bool {
    forall|k: int| 0 <= k < cap ==> a.contains(k) || f.contains(k)
}

/// Position at which an entry with `price` and `slot` is spliced into the
/// active list `a`: the first node the walk would stop in front of, or the
/// end of the list.
pub open spec fn insert_position(
    nodes: Seq<SlabNode>,
    a: Seq<int>,
    price: u64,
    slot: u64,
    side: Side,
) -> int
    decreases a.len(),
{
    if a.len() == 0 {
        0
    } else if insert_goes_before(price, slot, view_of(nodes[a[0]]), side) {
        0
    } else {
        1 + insert_position(nodes, a.drop_first(), price, slot, side)
    }
}

/// Priority is transitive.
pub proof fn lemma_precedes_trans(x: OrderView, y: OrderView, z: OrderView, side: Side)
    requires
        view_precedes(x, y, side),
        view_precedes(y, z, side),
    ensures
        view_precedes(x, z, side),
{
}

/// [`insert_position`] is the unique boundary: everything before it refuses
/// the walk's stop test, and the node at it (if any) passes it.
pub proof fn lemma_insert_position_bounds(
    nodes: Seq<SlabNode>,
    a: Seq<int>,
    price: u64,
    slot: u64,
    side: Side,
)
    ensures
        0 <= insert_position(nodes, a, price, slot, side) <= a.len(),
        forall|j: int|
            0 <= j < insert_position(nodes, a, price, slot, side) ==> !insert_goes_before(
                price,
                slot,
                view_of(nodes[#[trigger] a[j]]),
                side,
            ),
        insert_position(nodes, a, price, slot, side) < a.len() ==> insert_goes_before(
            price,
            slot,
            view_of(nodes[a[insert_position(nodes, a, price, slot, side)]]),
            side,
        ),
    decreases a.len(),
{
    if a.len() == 0 {
    } else if insert_goes_before(price, slot, view_of(nodes[a[0]]), side) {
    } else {
        lemma_insert_position_bounds(nodes, a.drop_first(), price, slot, side);
        let p = insert_position(nodes, a, price, slot, side);
        let pd = insert_position(nodes, a.drop_first(), price, slot, side);
        assert(p == 1 + pd);
        assert forall|j: int| 0 <= j < p implies !insert_goes_before(
            price,
            slot,
            view_of(nodes[#[trigger] a[j]]),
            side,
        ) by {
            if j > 0 {
                assert(a.drop_first()[j - 1] == a[j]);
            }
        }
        if p < a.len() {
            assert(a.drop_first()[pd] == a[p]);
        }
    }
}

/// A walk that refused the stop test up to `i` and passes it at `i` (or ran
/// off the end) stopped exactly at [`insert_position`].
pub proof fn lemma_insert_position_from_bounds(
    nodes: Seq<SlabNode>,
    a: Seq<int>,
    price: u64,
    slot: u64,
    side: Side,
    i: int,
)
    requires
        0 <= i <= a.len(),
        forall|j: int|
            0 <= j < i ==> !insert_goes_before(price, slot, view_of(nodes[#[trigger] a[j]]), side),
        i < a.len() ==> insert_goes_before(price, slot, view_of(nodes[a[i]]), side),
    ensures
        insert_position(nodes, a, price, slot, side) == i,
    decreases a.len(),
{
    if a.len() == 0 {
    } else if insert_goes_before(price, slot, view_of(nodes[a[0]]), side) {
        assert(i == 0);
    } else {
        assert(i >= 1);
        assert forall|j: int| 0 <= j < i - 1 implies !insert_goes_before(
            price,
            slot,
            view_of(nodes[#[trigger] a.drop_first()[j]]),
            side,
        ) by {
            assert(a.drop_first()[j] == a[j + 1]);
        }
        if i - 1 < a.drop_first().len() {
            assert(a.drop_first()[i - 1] == a[i]);
        }
        lemma_insert_position_from_bounds(nodes, a.drop_first(), price, slot, side, i - 1);
    }
}

/// If `v` occurs in `s`, [`seq_find`] returns its first position.
pub proof fn lemma_seq_find_present(s: Seq<int>, v: int)
    requires
        s.contains(v),
    ensures
        0 <= seq_find(s, v) < s.len(),
        s[seq_find(s, v)] == v,
    decreases s.len(),
{
    if s[0] == v {
    } else {
        let w = choose|w: int| 0 <= w < s.len() && s[w] == v;
        assert(s.drop_first()[w - 1] == v);
        assert(s.drop_first().contains(v));
        lemma_seq_find_present(s.drop_first(), v);
    }
}

/// Describes the state `post` that [`Slab::insert`] builds from `pre`: the
/// head of the free list, spliced into the active list at
/// [`insert_position`], every other node untouched but for the two link
/// fields around the splice.
pub open spec fn spliced(
    pre: Slab,
    post: Slab,
    key: u128,
    price: u64,
    qty: u64,
    owner: [u8; 32],
    slot: u64,
) -> bool {
    let a = pre.active();
    let f = pre.free();
    let p = insert_position(pre.nodes@, a, price, slot, pre.side);
    let idxi = f[0];
    &&& post.side == pre.side
    &&& post.nodes.len() == pre.nodes.len()
    &&& post.active() == seq_insert(a, p, idxi)
    &&& post.free() == f.drop_first()
    &&& post.head as int == (if p == 0 {
        idxi
    } else {
        a[0]
    })
    &&& post.free_head as int == (if f.len() > 1 {
        f[1]
    } else {
        NULL_INDEX as int
    })
    &&& view_of(post.nodes@[idxi]) == (OrderView { key, price, qty, owner, inserted_slot: slot })
    &&& post.nodes@[idxi].prev as int == (if p > 0 {
        a[p - 1]
    } else {
        NULL_INDEX as int
    })
    &&& post.nodes@[idxi].next as int == (if p < a.len() {
        a[p]
    } else {
        NULL_INDEX as int
    })
    &&& (p > 0 ==> {
        &&& view_of(post.nodes@[a[p - 1]]) == view_of(pre.nodes@[a[p - 1]])
        &&& post.nodes@[a[p - 1]].prev == pre.nodes@[a[p - 1]].prev
        &&& post.nodes@[a[p - 1]].next as int == idxi
    })
    &&& (p < a.len() ==> {
        &&& view_of(post.nodes@[a[p]]) == view_of(pre.nodes@[a[p]])
        &&& post.nodes@[a[p]].next == pre.nodes@[a[p]].next
        &&& post.nodes@[a[p]].prev as int == idxi
    })
    &&& forall|k: int|
        0 <= k < pre.nodes.len() && k != idxi && (p == 0 || k != a[p - 1]) && (p >= a.len() || k
            != a[p]) ==> #[trigger] post.nodes@[k] == pre.nodes@[k]
}

/// The splice preserves well-formedness and inserts exactly one entry into
/// the book view, leaving the top of book at least as good.
#[verifier::rlimit(100)]
proof fn lemma_insert_splice(
    pre: Slab,
    post: Slab,
    key: u128,
    price: u64,
    qty: u64,
    owner: [u8; 32],
    slot: u64,
)
    requires
        pre.wf(),
        qty > 0,
        pre.free().len() > 0,
        forall|i: int|
            0 <= i < pre.book_view().len() ==> (#[trigger] pre.book_view()[i]).key < key,
        spliced(pre, post, key, price, qty, owner, slot),
    ensures
        post.wf(),
        post.book_view() == seq_insert(
            pre.book_view(),
            insert_position(pre.nodes@, pre.active(), price, slot, pre.side),
            OrderView { key, price, qty, owner, inserted_slot: slot },
        ),
        pre.book_view().len() > 0 ==> !price_better(
            pre.book_view()[0].price,
            post.book_view()[0].price,
            pre.side,
        ),
{
    let a = pre.active();
    let f = pre.free();
    let side = pre.side;
    let on = pre.nodes@;
    let nn = post.nodes@;
    let cap = pre.nodes.len() as int;
    let p = insert_position(on, a, price, slot, side);
    let idxi = f[0];
    let newv = OrderView { key, price, qty, owner, inserted_slot: slot };
    let a2 = post.active();
    let f2 = post.free();
    lemma_insert_position_bounds(on, a, price, slot, side);
    assert(0 <= idxi < cap);
    assert forall|j: int| 0 <= j < a.len() implies #[trigger] a[j] != idxi by {
        assert(a[j] != f[0]);
    }
    // Payloads change only at the allocated node.
    assert forall|k: int| 0 <= k < cap && k != idxi implies view_of(#[trigger] nn[k]) == view_of(
        on[k],
    ) by {
        if p > 0 && k == a[p - 1] {
        } else if p < a.len() && k == a[p] {
        } else {
            assert(nn[k] == on[k]);
        }
    }
    // Nodes away from the splice point keep their links too.
    assert forall|k: int| 0 <= k < a.len() && k != p - 1 && k != p implies nn[#[trigger] a[k]]
        == on[a[k]] by {
        assert(a[k] != idxi);
        if p > 0 {
            assert(a[k] != a[p - 1]);
        }
        if p < a.len() {
            assert(a[k] != a[p]);
        }
    }
    assert forall|k: int| 1 <= k < f.len() implies nn[#[trigger] f[k]] == on[f[k]] by {
        assert(f[k] != f[0]);
        if p > 0 {
            assert(f[k] != a[p - 1]);
        }
        if p < a.len() {
            assert(f[k] != a[p]);
        }
    }
    assert(post.idx_in_range(a2)) by {
        assert forall|i: int| 0 <= i < a2.len() implies 0 <= #[trigger] a2[i] < cap by {
            if i < p {
                assert(a2[i] == a[i]);
            } else if i == p {
                assert(a2[i] == idxi);
            } else {
                assert(a2[i] == a[i - 1]);
            }
        }
    }
    assert(post.idx_in_range(f2)) by {
        assert forall|i: int| 0 <= i < f2.len() implies 0 <= #[trigger] f2[i] < cap by {
            assert(f2[i] == f[i + 1]);
        }
    }
    assert(distinct(a2)) by {
        assert forall|i: int, j: int| 0 <= i < j < a2.len() implies a2[i] != a2[j] by {
            if i == p {
                assert(a2[j] == a[j - 1]);
            } else if j == p {
                assert(a2[i] == a[i]);
            }
        }
    }
    assert(distinct(f2)) by {
        assert forall|i: int, j: int| 0 <= i < j < f2.len() implies f2[i] != f2[j] by {
            assert(f2[i] == f[i + 1]);
            assert(f2[j] == f[j + 1]);
        }
    }
    assert(disjoint(a2, f2)) by {
        assert forall|i: int, j: int|
            #![trigger a2[i], f2[j]]
            0 <= i < a2.len() && 0 <= j < f2.len() implies a2[i] != f2[j] by {
            assert(f2[j] == f[j + 1]);
            if i < p {
                assert(a2[i] == a[i]);
            } else if i == p {
                assert(a2[i] == idxi);
            } else {
                assert(a2[i] == a[i - 1]);
            }
        }
    }
    assert(covers(a2, f2, cap)) by {
        assert forall|k: int| 0 <= k < cap implies a2.contains(k) || f2.contains(k) by {
            if a.contains(k) {
                let j = choose|j: int| 0 <= j < a.len() && a[j] == k;
                if j < p {
                    assert(a2[j] == k);
                } else {
                    assert(a2[j + 1] == k);
                }
            } else {
                assert(f.contains(k));
                let j = choose|j: int| 0 <= j < f.len() && f[j] == k;
                if j == 0 {
                    assert(a2[p] == k);
                } else {
                    assert(f2[j - 1] == k);
                }
            }
        }
    }
    // Forward links of the active list.
    assert forall|i: int|
        #![trigger a2[i]]
        0 <= i < a2.len() implies nn[a2[i]].next as int == (if i + 1 < a2.len() {
        a2[i + 1]
    } else {
        NULL_INDEX as int
    }) by {
        if i < p - 1 {
            assert(a2[i] == a[i] && a2[i + 1] == a[i + 1]);
            assert(nn[a[i]] == on[a[i]]);
        } else if i == p - 1 {
            assert(a2[i] == a[p - 1] && a2[i + 1] == idxi);
        } else if i == p {
            assert(a2[i] == idxi);
            if p < a.len() {
                assert(a2[i + 1] == a[p]);
            }
        } else if i == p + 1 {
            assert(a2[i] == a[p]);
            if i + 1 < a2.len() {
                assert(a2[i + 1] == a[p + 1]);
            }
        } else {
            assert(a2[i] == a[i - 1]);
            assert(nn[a[i - 1]] == on[a[i - 1]]);
            if i + 1 < a2.len() {
                assert(a2[i + 1] == a[i]);
            }
        }
    }
    // Backward links of the active list.
    assert forall|i: int|
        #![trigger a2[i]]
        0 <= i < a2.len() implies nn[a2[i]].prev as int == (if i > 0 {
        a2[i - 1]
    } else {
        NULL_INDEX as int
    }) by {
        if i < p - 1 {
            assert(a2[i] == a[i]);
            assert(nn[a[i]] == on[a[i]]);
            if i > 0 {
                assert(a2[i - 1] == a[i - 1]);
            }
        } else if i == p - 1 {
            assert(a2[i] == a[p - 1]);
            assert(nn[a2[i]].prev == on[a[p - 1]].prev);
            if i > 0 {
                assert(a2[i - 1] == a[i - 1]);
            }
        } else if i == p {
            assert(a2[i] == idxi);
            if i > 0 {
                assert(a2[i - 1] == a[p - 1]);
            }
        } else if i == p + 1 {
            assert(a2[i] == a[p]);
            assert(a2[i - 1] == idxi);
        } else {
            assert(a2[i] == a[i - 1]);
            assert(nn[a[i - 1]] == on[a[i - 1]]);
            assert(a2[i - 1] == a[i - 2]);
        }
    }
    // Links of the free list.
    assert forall|i: int|
        #![trigger f2[i]]
        0 <= i < f2.len() implies nn[f2[i]].next as int == (if i + 1 < f2.len() {
        f2[i + 1]
    } else {
        NULL_INDEX as int
    }) by {
        assert(f2[i] == f[i + 1]);
        assert(nn[f[i + 1]] == on[f[i + 1]]);
        if i + 1 < f2.len() {
            assert(f2[i + 1] == f[i + 2]);
        }
    }
    // Quantities.
    assert forall|i: int| #![trigger a2[i]] 0 <= i < a2.len() implies nn[a2[i]].qty > 0 by {
        if i < p {
            assert(a2[i] == a[i]);
        } else if i == p {
            assert(a2[i] == idxi);
        } else {
            assert(a2[i] == a[i - 1]);
        }
    }
    assert forall|i: int| #![trigger f2[i]] 0 <= i < f2.len() implies nn[f2[i]].qty == 0 by {
        assert(f2[i] == f[i + 1]);
        assert(nn[f[i + 1]] == on[f[i + 1]]);
    }
    // Priority order.
    assert forall|i: int, j: int|
        #![trigger a2[i], a2[j]]
        0 <= i < j < a2.len() implies view_precedes(
        view_of(nn[a2[i]]),
        view_of(nn[a2[j]]),
        side,
    ) by {
        if i < p && j == p {
            assert(a2[i] == a[i] && a2[j] == idxi);
            assert(pre.book_view()[i] == view_of(on[a[i]]));
            assert(!insert_goes_before(price, slot, view_of(on[a[i]]), side));
        } else if i == p && j > p {
            assert(a2[i] == idxi && a2[j] == a[j - 1]);
            assert(insert_goes_before(price, slot, view_of(on[a[p]]), side));
            if j - 1 > p {
                assert(view_precedes(view_of(on[a[p]]), view_of(on[a[j - 1]]), side));
                lemma_precedes_trans(newv, view_of(on[a[p]]), view_of(on[a[j - 1]]), side);
            }
        } else if i < p && j > p {
            assert(a2[i] == a[i] && a2[j] == a[j - 1]);
        } else if j < p {
            assert(a2[i] == a[i] && a2[j] == a[j]);
        } else {
            assert(a2[i] == a[i - 1] && a2[j] == a[j - 1]);
        }
    }
    assert(post.wf());
    assert(post.book_view() =~= seq_insert(pre.book_view(), p, newv)) by {
        assert forall|i: int| 0 <= i < a2.len() implies post.book_view()[i] == seq_insert(
            pre.book_view(),
            p,
            newv,
        )[i] by {
            if i < p {
                assert(a2[i] == a[i]);
            } else if i == p {
                assert(a2[i] == idxi);
            } else {
                assert(a2[i] == a[i - 1]);
            }
        }
    }
    if pre.book_view().len() > 0 {
        if p == 0 {
            assert(post.book_view()[0] == newv);
            assert(insert_goes_before(price, slot, view_of(on[a[0]]), side));
        } else {
            assert(post.book_view()[0] == pre.book_view()[0]);
        }
    }
}

/// Describes the state `post` that [`Slab::remove`] builds from `pre`: the
/// active node at index `idxi` unlinked, zeroed, and pushed onto the front
/// of the free list, every other node untouched but for the two link fields
/// around the gap.
pub open spec fn unspliced(pre: Slab, post: Slab, idxi: int) -> bool {
    let a = pre.active();
    let f = pre.free();
    let p = seq_find(a, idxi);
    &&& post.side == pre.side
    &&& post.nodes.len() == pre.nodes.len()
    &&& post.active() == seq_remove_at(a, p)
    &&& post.free() == seq![idxi] + f
    &&& post.head as int == (if p == 0 {
        if a.len() > 1 {
            a[1]
        } else {
            NULL_INDEX as int
        }
    } else {
        a[0]
    })
    &&& post.free_head as int == idxi
    &&& post.nodes@[idxi].qty == 0
    &&& post.nodes@[idxi].next as int == (if f.len() > 0 {
        f[0]
    } else {
        NULL_INDEX as int
    })
    &&& (p > 0 ==> {
        &&& view_of(post.nodes@[a[p - 1]]) == view_of(pre.nodes@[a[p - 1]])
        &&& post.nodes@[a[p - 1]].prev == pre.nodes@[a[p - 1]].prev
        &&& post.nodes@[a[p - 1]].next as int == (if p + 1 < a.len() {
            a[p + 1]
        } else {
            NULL_INDEX as int
        })
    })
    &&& (p + 1 < a.len() ==> {
        &&& view_of(post.nodes@[a[p + 1]]) == view_of(pre.nodes@[a[p + 1]])
        &&& post.nodes@[a[p + 1]].next == pre.nodes@[a[p + 1]].next
        &&& post.nodes@[a[p + 1]].prev as int == (if p > 0 {
            a[p - 1]
        } else {
            NULL_INDEX as int
        })
    })
    &&& forall|k: int|
        0 <= k < pre.nodes.len() && k != idxi && (p == 0 || k != a[p - 1]) && (p + 1 >= a.len()
            || k != a[p + 1]) ==> #[trigger] post.nodes@[k] == pre.nodes@[k]
}

/// A node with positive quantity is on the active list.
proof fn lemma_active_member(s: Slab, k: int)
    requires
        s.wf(),
        0 <= k < s.cap(),
        s.nodes@[k].qty > 0,
    ensures
        s.active().contains(k),
        0 <= seq_find(s.active(), k) < s.active().len(),
        s.active()[seq_find(s.active(), k)] == k,
{
    if !s.active().contains(k) {
        assert(s.free().contains(k));
        let j = choose|j: int| 0 <= j < s.free().len() && s.free()[j] == k;
        assert(s.nodes@[s.free()[j]].qty == 0);
    }
    lemma_seq_find_present(s.active(), k);
}

/// The unsplice preserves well-formedness and removes exactly one entry
/// from the book view.
#[verifier::rlimit(100)]
proof fn lemma_remove_unsplice(pre: Slab, post: Slab, idxi: int)
    requires
        pre.wf(),
        pre.active().contains(idxi),
        unspliced(pre, post, idxi),
    ensures
        post.wf(),
        post.book_view() == seq_remove_at(pre.book_view(), seq_find(pre.active(), idxi)),
{
    let a = pre.active();
    let f = pre.free();
    let side = pre.side;
    let on = pre.nodes@;
    let nn = post.nodes@;
    let cap = pre.nodes.len() as int;
    let p = seq_find(a, idxi);
    let a2 = post.active();
    let f2 = post.free();
    lemma_seq_find_present(a, idxi);
    assert(a[p] == idxi);
    assert forall|j: int| 0 <= j < f.len() implies #[trigger] f[j] != idxi by {
        assert(a[p] != f[j]);
    }
    assert(f2[0] == idxi);
    assert forall|j: int| 1 <= j < f2.len() implies #[trigger] f2[j] == f[j - 1] by {}
    // Payloads change only at the removed node.
    assert forall|k: int| 0 <= k < cap && k != idxi implies view_of(#[trigger] nn[k]) == view_of(
        on[k],
    ) by {
        if p > 0 && k == a[p - 1] {
        } else if p + 1 < a.len() && k == a[p + 1] {
        } else {
            assert(nn[k] == on[k]);
        }
    }
    // Nodes away from the gap keep their links too.
    assert forall|k: int| 0 <= k < a.len() && k != p - 1 && k != p && k != p + 1 implies nn[
        #[trigger] a[k]] == on[a[k]] by {
        assert(a[k] != a[p]);
        if p > 0 {
            assert(a[k] != a[p - 1]);
        }
        if p + 1 < a.len() {
            assert(a[k] != a[p + 1]);
        }
    }
    assert forall|k: int| 0 <= k < f.len() implies nn[#[trigger] f[k]] == on[f[k]] by {
        if p > 0 {
            assert(f[k] != a[p - 1]);
        }
        if p + 1 < a.len() {
            assert(f[k] != a[p + 1]);
        }
    }
    assert(post.idx_in_range(a2)) by {
        assert forall|i: int| 0 <= i < a2.len() implies 0 <= #[trigger] a2[i] < cap by {
            if i < p {
                assert(a2[i] == a[i]);
            } else {
                assert(a2[i] == a[i + 1]);
            }
        }
    }
    assert(post.idx_in_range(f2)) by {
        assert forall|i: int| 0 <= i < f2.len() implies 0 <= #[trigger] f2[i] < cap by {
            if i >= 1 {
                assert(f2[i] == f[i - 1]);
            }
        }
    }
    assert(distinct(a2)) by {
        assert forall|i: int, j: int| 0 <= i < j < a2.len() implies a2[i] != a2[j] by {
            if i < p {
                assert(a2[i] == a[i]);
            } else {
                assert(a2[i] == a[i + 1]);
            }
            if j < p {
                assert(a2[j] == a[j]);
            } else {
                assert(a2[j] == a[j + 1]);
            }
        }
    }
    assert(distinct(f2)) by {
        assert forall|i: int, j: int| 0 <= i < j < f2.len() implies f2[i] != f2[j] by {
            if i >= 1 {
                assert(f2[i] == f[i - 1]);
            }
            assert(f2[j] == f[j - 1]);
        }
    }
    assert(disjoint(a2, f2)) by {
        assert forall|i: int, j: int|
            #![trigger a2[i], f2[j]]
            0 <= i < a2.len() && 0 <= j < f2.len() implies a2[i] != f2[j] by {
            if i < p {
                assert(a2[i] == a[i]);
                assert(a[i] != a[p]);
            } else {
                assert(a2[i] == a[i + 1]);
                assert(a[i + 1] != a[p]);
            }
            if j >= 1 {
                assert(f2[j] == f[j - 1]);
            }
        }
    }
    assert(covers(a2, f2, cap)) by {
        assert forall|k: int| 0 <= k < cap implies a2.contains(k) || f2.contains(k) by {
            if a.contains(k) {
                let j = choose|j: int| 0 <= j < a.len() && a[j] == k;
                if j == p {
                    assert(f2[0] == k);
                } else if j < p {
                    assert(a2[j] == k);
                } else {
                    assert(a2[j - 1] == k);
                }
            } else {
                assert(f.contains(k));
                let j = choose|j: int| 0 <= j < f.len() && f[j] == k;
                assert(f2[j + 1] == k);
            }
        }
    }
    // Forward links of the active list.
    assert forall|i: int|
        #![trigger a2[i]]
        0 <= i < a2.len() implies nn[a2[i]].next as int == (if i + 1 < a2.len() {
        a2[i + 1]
    } else {
        NULL_INDEX as int
    }) by {
        if i < p - 1 {
            assert(a2[i] == a[i] && a2[i + 1] == a[i + 1]);
            assert(nn[a[i]] == on[a[i]]);
        } else if i == p - 1 {
            assert(a2[i] == a[p - 1]);
            if i + 1 < a2.len() {
                assert(a2[i + 1] == a[p + 1]);
            }
        } else if i == p {
            assert(a2[i] == a[p + 1]);
            assert(nn[a2[i]].next == on[a[p + 1]].next);
            if i + 1 < a2.len() {
                assert(a2[i + 1] == a[p + 2]);
            }
        } else {
            assert(a2[i] == a[i + 1]);
            assert(nn[a[i + 1]] == on[a[i + 1]]);
            if i + 1 < a2.len() {
                assert(a2[i + 1] == a[i + 2]);
            }
        }
    }
    // Backward links of the active list.
    assert forall|i: int|
        #![trigger a2[i]]
        0 <= i < a2.len() implies nn[a2[i]].prev as int == (if i > 0 {
        a2[i - 1]
    } else {
        NULL_INDEX as int
    }) by {
        if i < p - 1 {
            assert(a2[i] == a[i]);
            assert(nn[a[i]] == on[a[i]]);
            if i > 0 {
                assert(a2[i - 1] == a[i - 1]);
            }
        } else if i == p - 1 {
            assert(a2[i] == a[p - 1]);
            assert(nn[a2[i]].prev == on[a[p - 1]].prev);
            if i > 0 {
                assert(a2[i - 1] == a[i - 1]);
            }
        } else if i == p {
            assert(a2[i] == a[p + 1]);
            if i > 0 {
                assert(a2[i - 1] == a[p - 1]);
            }
        } else {
            assert(a2[i] == a[i + 1]);
            assert(nn[a[i + 1]] == on[a[i + 1]]);
            assert(a2[i - 1] == a[i]);
        }
    }
    // Links of the free list.
    assert forall|i: int|
        #![trigger f2[i]]
        0 <= i < f2.len() implies nn[f2[i]].next as int == (if i + 1 < f2.len() {
        f2[i + 1]
    } else {
        NULL_INDEX as int
    }) by {
        if i == 0 {
            if f.len() > 0 {
                assert(f2[1] == f[0]);
            }
        } else {
            assert(f2[i] == f[i - 1]);
            assert(nn[f[i - 1]] == on[f[i - 1]]);
            if i + 1 < f2.len() {
                assert(f2[i + 1] == f[i]);
            }
        }
    }
    // Quantities.
    assert forall|i: int| #![trigger a2[i]] 0 <= i < a2.len() implies nn[a2[i]].qty > 0 by {
        if i < p {
            assert(a2[i] == a[i]);
        } else {
            assert(a2[i] == a[i + 1]);
        }
    }
    assert forall|i: int| #![trigger f2[i]] 0 <= i < f2.len() implies nn[f2[i]].qty == 0 by {
        if i >= 1 {
            assert(f2[i] == f[i - 1]);
            assert(nn[f[i - 1]] == on[f[i - 1]]);
        }
    }
    // Priority order.
    assert forall|i: int, j: int|
        #![trigger a2[i], a2[j]]
        0 <= i < j < a2.len() implies view_precedes(
        view_of(nn[a2[i]]),
        view_of(nn[a2[j]]),
        side,
    ) by {
        if i < p {
            assert(a2[i] == a[i]);
        } else {
            assert(a2[i] == a[i + 1]);
        }
        if j < p {
            assert(a2[j] == a[j]);
        } else {
            assert(a2[j] == a[j + 1]);
        }
    }
    assert(post.wf());
    assert(post.book_view() =~= seq_remove_at(pre.book_view(), p)) by {
        assert forall|i: int| 0 <= i < a2.len() implies post.book_view()[i] == seq_remove_at(
            pre.book_view(),
            p,
        )[i] by {
            if i < p {
                assert(a2[i] == a[i]);
            } else {
                assert(a2[i] == a[i + 1]);
            }
        }
    }
}

/// Shrinking the quantity of one active node, links and the rest of its
/// payload untouched, preserves well-formedness and updates exactly one
/// book entry.
#[verifier::rlimit(100)]
proof fn lemma_reduce_in_place(pre: Slab, post: Slab, p: int, idxi: int)
    requires
        pre.wf(),
        0 <= p < pre.active().len(),
        pre.active()[p] == idxi,
        post.side == pre.side,
        post.head == pre.head,
        post.free_head == pre.free_head,
        post.active() == pre.active(),
        post.free() == pre.free(),
        post.nodes.len() == pre.nodes.len(),
        post.nodes@[idxi].qty > 0,
        post.nodes@[idxi].key == pre.nodes@[idxi].key,
        post.nodes@[idxi].price == pre.nodes@[idxi].price,
        post.nodes@[idxi].owner == pre.nodes@[idxi].owner,
        post.nodes@[idxi].inserted_slot == pre.nodes@[idxi].inserted_slot,
        post.nodes@[idxi].prev == pre.nodes@[idxi].prev,
        post.nodes@[idxi].next == pre.nodes@[idxi].next,
        forall|k: int|
            0 <= k < pre.nodes.len() && k != idxi ==> #[trigger] post.nodes@[k] == pre.nodes@[k],
    ensures
        post.wf(),
        post.book_view() == pre.book_view().update(
            p,
            OrderView { qty: post.nodes@[idxi].qty, ..view_of(pre.nodes@[idxi]) },
        ),
{
    let a = pre.active();
    let f = pre.free();
    let on = pre.nodes@;
    let nn = post.nodes@;
    assert forall|k: int| 0 <= k < a.len() && k != p implies nn[#[trigger] a[k]] == on[a[k]] by {
        assert(a[k] != a[p]);
    }
    assert forall|k: int| 0 <= k < f.len() implies nn[#[trigger] f[k]] == on[f[k]] by {
        assert(a[p] != f[k]);
    }
    assert forall|i: int|
        #![trigger a[i]]
        0 <= i < a.len() implies nn[a[i]].next == on[a[i]].next && nn[a[i]].prev == on[a[i]].prev
        && nn[a[i]].qty > 0 && view_of(nn[a[i]]).price == view_of(on[a[i]]).price && view_of(
        nn[a[i]],
    ).inserted_slot == view_of(on[a[i]]).inserted_slot && view_of(nn[a[i]]).key == view_of(
        on[a[i]],
    ).key by {
        if i != p {
            assert(nn[a[i]] == on[a[i]]);
        }
    }
    assert forall|i: int, j: int|
        #![trigger a[i], a[j]]
        0 <= i < j < a.len() implies view_precedes(view_of(nn[a[i]]), view_of(nn[a[j]]), pre.side)
        by {
        assert(view_precedes(view_of(on[a[i]]), view_of(on[a[j]]), pre.side));
    }
    assert(post.wf());
    assert(post.book_view() =~= pre.book_view().update(
        p,
        OrderView { qty: post.nodes@[idxi].qty, ..view_of(pre.nodes@[idxi]) },
    )) by {
        assert forall|i: int| 0 <= i < a.len() && i != p implies post.book_view()[i]
            == pre.book_view()[i] by {
            assert(nn[a[i]] == on[a[i]]);
        }
        assert(post.book_view()[p] == OrderView {
            qty: post.nodes@[idxi].qty,
            ..view_of(pre.nodes@[idxi])
        });
    }
}

/// The slab record: `capacity` nodes, the heads of both lists, and the side
/// whose sort order the active list obeys.
pub struct Slab {
    pub nodes: Vec<SlabNode>,
    /// Index of the best active order, or `NULL_INDEX`.
    pub head: u32,
    /// Index of the first free node, or `NULL_INDEX`.
    pub free_head: u32,
    pub side: Side,
    /// The active list as a sequence of node indices, best first.
    pub active_list: Ghost<Seq<int>>,
    /// The free list as a sequence of node indices, head first.
    pub free_list: Ghost<Seq<int>>,
}

impl Slab {
    /// Number of nodes in the slab.
    pub open spec fn cap(self) -> int {
        self.nodes.len() as int
    }

    /// The active list: indices of resting orders, best first.
    pub open spec fn active(self) -> Seq<int> {
        self.active_list@
    }

    /// The free list: indices of unused nodes.
    pub open spec fn free(self) -> Seq<int> {
        self.free_list@
    }

    /// All indices in `s` are valid node indices.
    pub open spec fn idx_in_range(self, s: Seq<int>) -> bool {
        forall|i: int| 0 <= i < s.len() ==> 0 <= #[trigger] s[i] < self.cap()
    }

    /// The book as the rest of the engine sees it: the payloads of the
    /// active list, best first.
    pub open spec fn book_view(self) -> Seq<OrderView> {
        Seq::new(self.active().len(), |i: int| view_of(self.nodes@[self.active()[i]]))
    }

    /// Well-formedness: the two ghost lists are in range, distinct, disjoint
    /// and cover every index; the executable heads and links mirror them;
    /// active nodes hold positive quantity in strict priority order; free
    /// nodes are zeroed.
    pub open spec fn wf(self) -> bool {
        let a = self.active();
        let f = self.free();
        &&& 1 <= self.cap() <= MAX_SLAB_CAPACITY as int
        &&& self.idx_in_range(a)
        &&& self.idx_in_range(f)
        &&& distinct(a)
        &&& distinct(f)
        &&& disjoint(a, f)
        &&& covers(a, f, self.cap())
        &&& (if a.len() == 0 {
            self.head == NULL_INDEX
        } else {
            self.head as int == a[0]
        })
        &&& (if f.len() == 0 {
            self.free_head == NULL_INDEX
        } else {
            self.free_head as int == f[0]
        })
        &&& forall|i: int|
            #![trigger a[i]]
            0 <= i < a.len() ==> self.nodes@[a[i]].next as int == (if i + 1 < a.len() {
                a[i + 1]
            } else {
                NULL_INDEX as int
            })
        &&& forall|i: int|
            #![trigger a[i]]
            0 <= i < a.len() ==> self.nodes@[a[i]].prev as int == (if i > 0 {
                a[i - 1]
            } else {
                NULL_INDEX as int
            })
        &&& forall|i: int|
            #![trigger f[i]]
            0 <= i < f.len() ==> self.nodes@[f[i]].next as int == (if i + 1 < f.len() {
                f[i + 1]
            } else {
                NULL_INDEX as int
            })
        &&& forall|i: int| #![trigger a[i]] 0 <= i < a.len() ==> self.nodes@[a[i]].qty > 0
        &&& forall|i: int| #![trigger f[i]] 0 <= i < f.len() ==> self.nodes@[f[i]].qty == 0
        &&& forall|i: int, j: int|
            #![trigger a[i], a[j]]
            0 <= i < j < a.len() ==> view_precedes(
                view_of(self.nodes@[a[i]]),
                view_of(self.nodes@[a[j]]),
                self.side,
            )
    }

    /// Create a slab of `capacity` zeroed nodes, all on the free list in
    /// index order, with an empty active list. `side` is 0 for `Bid`, 1 for
    /// `Ask`.
    pub fn new(capacity: usize, side: u8) -> (r: Result<Slab, ErrorCode>)
        ensures
            match r {
                Ok(s) => {
                    &&& 1 <= capacity <= MAX_SLAB_CAPACITY
                    &&& (side == 0 || side == 1)
                    &&& s.wf()
                    &&& s.side == (if side == 0 {
                        Side::Bid
                    } else {
                        Side::Ask
                    })
                    &&& s.cap() == capacity
                    &&& s.book_view() == Seq::<OrderView>::empty()
                    &&& s.free() == Seq::new(capacity as nat, |i: int| i)
                    &&& s.head == NULL_INDEX
                    &&& s.free_head == 0
                },
                Err(e) => {
                    ||| (e == ErrorCode::InvalidCapacity && (capacity == 0 || capacity
                        > MAX_SLAB_CAPACITY))
                    ||| (e == ErrorCode::InvalidOrderbookSide && 1 <= capacity
                        <= MAX_SLAB_CAPACITY && side != 0 && side != 1)
                },
            },
    {
        if capacity == 0 || capacity > MAX_SLAB_CAPACITY {
            return Err(ErrorCode::InvalidCapacity);
        }
        if side > 1 {
            return Err(ErrorCode::InvalidOrderbookSide);
        }
        let side_enum = if side == 0 {
            Side::Bid
        } else {
            Side::Ask
        };
        let mut nodes: Vec<SlabNode> = Vec::new();
        let mut i: usize = 0;
        while i < capacity
            invariant
                0 <= i <= capacity,
                capacity <= MAX_SLAB_CAPACITY,
                nodes.len() == i,
                forall|j: int|
                    0 <= j < i ==> {
                        let n = #[trigger] nodes@[j];
                        &&& n.qty == 0
                        &&& n.prev == NULL_INDEX
                        &&& n.next as int == (if j + 1 < capacity {
                            j + 1
                        } else {
                            NULL_INDEX as int
                        })
                    },
            decreases capacity - i,
        {
            let next = if i + 1 < capacity {
                (i + 1) as u32
            } else {
                NULL_INDEX
            };
            nodes.push(
                SlabNode {
                    key: 0,
                    price: 0,
                    qty: 0,
                    owner: [0u8; 32],
                    inserted_slot: 0,
                    next,
                    prev: NULL_INDEX,
                },
            );
            i = i + 1;
        }
        let s = Slab {
            nodes,
            head: NULL_INDEX,
            free_head: 0,
            side: side_enum,
            active_list: Ghost(Seq::empty()),
            free_list: Ghost(Seq::new(capacity as nat, |i: int| i)),
        };
        proof {
            let f = s.free();
            assert forall|k: int| 0 <= k < s.cap() implies f.contains(k) by {
                assert(f[k] == k);
            }
            assert(s.book_view() =~= Seq::<OrderView>::empty());
        }
        Ok(s)
    }

    /// Walk the active list and return `(prev, curr)`: the indices between
    /// which a new entry with `price` and `slot` is spliced, `NULL_INDEX`
    /// standing for the list ends.
    fn find_insert_pos(&self, price: u64, slot: u64) -> (r: (u32, u32))
        requires
            self.wf(),
        ensures
            ({
                let p = insert_position(self.nodes@, self.active(), price, slot, self.side);
                &&& (p < self.active().len() ==> r.1 as int == self.active()[p])
                &&& (p == self.active().len() ==> r.1 == NULL_INDEX)
                &&& (p > 0 ==> r.0 as int == self.active()[p - 1])
                &&& (p == 0 ==> r.0 == NULL_INDEX)
            }),
    {
        let ghost a = self.active();
        let mut curr: u32 = self.head;
        let mut prev: u32 = NULL_INDEX;
        let ghost mut i: int = 0int;
        while curr != NULL_INDEX
            invariant_except_break
                self.wf(),
                a == self.active(),
                0 <= i <= a.len(),
                i < a.len() ==> curr as int == a[i],
                i == a.len() ==> curr == NULL_INDEX,
                i > 0 ==> prev as int == a[i - 1],
                i == 0 ==> prev == NULL_INDEX,
                forall|j: int|
                    0 <= j < i ==> !insert_goes_before(
                        price,
                        slot,
                        view_of(self.nodes@[#[trigger] a[j]]),
                        self.side,
                    ),
            ensures
                0 <= i <= a.len(),
                i > 0 ==> prev as int == a[i - 1],
                i == 0 ==> prev == NULL_INDEX,
                i < a.len() ==> curr as int == a[i],
                i == a.len() ==> curr == NULL_INDEX,
                forall|j: int|
                    0 <= j < i ==> !insert_goes_before(
                        price,
                        slot,
                        view_of(self.nodes@[#[trigger] a[j]]),
                        self.side,
                    ),
                i < a.len() ==> insert_goes_before(
                    price,
                    slot,
                    view_of(self.nodes@[a[i]]),
                    self.side,
                ),
            decreases a.len() - i,
        {
            proof {
                if i == a.len() {
                    // curr would be NULL_INDEX, contradicting the loop test.
                    assert(false);
                }
                assert(0 <= a[i] < self.cap());
            }
            let node = self.nodes[curr as usize];
            let should = match self.side {
                Side::Bid => price > node.price || (price == node.price && slot
                    < node.inserted_slot),
                Side::Ask => price < node.price || (price == node.price && slot
                    < node.inserted_slot),
            };
            if should {
                break ;
            }
            prev = curr;
            curr = node.next;
            proof {
                i = i + 1;
            }
        }
        proof {
            lemma_insert_position_from_bounds(self.nodes@, a, price, slot, self.side, i);
        }
        (prev, curr)
    }

    /// Insert a new order. Fails with `InvalidQuantity` on `qty == 0` and
    /// with `OrderbookFull` when the free list is empty; otherwise allocates
    /// the head of the free list and splices it into the active list at its
    /// price-time position, returning its index.
    ///
    /// The caller must supply a key strictly greater than every resting key;
    /// the order engine's monotone order-id counter guarantees this.
    #[verifier::rlimit(100)]
    pub fn insert(&mut self, key: u128, price: u64, qty: u64, owner: [u8; 32], slot: u64) -> (r:
        Result<u32, ErrorCode>)
        requires
            old(self).wf(),
            forall|i: int|
                0 <= i < old(self).book_view().len() ==> (#[trigger] old(
                    self,
                ).book_view()[i]).key < key,
        ensures
            match r {
                Ok(idx) => {
                    let p = insert_position(
                        old(self).nodes@,
                        old(self).active(),
                        price,
                        slot,
                        old(self).side,
                    );
                    let newv = OrderView { key, price, qty, owner, inserted_slot: slot };
                    &&& qty > 0
                    &&& old(self).free().len() > 0
                    &&& idx as int == old(self).free()[0]
                    &&& final(self).wf()
                    &&& final(self).side == old(self).side
                    &&& final(self).cap() == old(self).cap()
                    &&& 0 <= p <= old(self).active().len()
                    &&& final(self).active() == seq_insert(old(self).active(), p, idx as int)
                    &&& final(self).free() == old(self).free().drop_first()
                    &&& final(self).book_view() == seq_insert(old(self).book_view(), p, newv)
                    &&& (old(self).book_view().len() > 0 ==> !price_better(
                        old(self).book_view()[0].price,
                        final(self).book_view()[0].price,
                        old(self).side,
                    ))
                },
                Err(e) => {
                    &&& *final(self) == *old(self)
                    &&& (e == ErrorCode::InvalidQuantity <==> qty == 0)
                    &&& (e == ErrorCode::OrderbookFull <==> qty > 0 && old(self).free().len()
                        == 0)
                    &&& (qty == 0 || old(self).free().len() == 0)
                },
            },
    {
        if qty == 0 {
            return Err(ErrorCode::InvalidQuantity);
        }
        if self.free_head == NULL_INDEX {
            proof {
                if self.free().len() > 0 {
                    assert(0 <= self.free()[0] < self.cap());
                }
            }
            return Err(ErrorCode::OrderbookFull);
        }
        let ghost onodes = self.nodes@;
        let ghost a = self.active();
        let ghost f = self.free();
        let ghost side = self.side;
        proof {
            if f.len() == 0 {
                assert(false);
            }
            lemma_insert_position_bounds(onodes, a, price, slot, side);
        }
        let ghost p = insert_position(onodes, a, price, slot, side);
        let ghost newv = OrderView { key, price, qty, owner, inserted_slot: slot };
        let (prev_idx, curr_idx) = self.find_insert_pos(price, slot);
        let idx = self.free_head;
        let ghost idxi = idx as int;
        proof {
            assert(idxi == f[0]);
            assert(0 <= idxi < self.cap());
            // The allocated node is on the free list, so it is on neither
            // side of the splice point.
            assert forall|j: int| 0 <= j < a.len() implies #[trigger] a[j] != idxi by {}
        }
        let i_us = idx as usize;
        self.free_head = self.nodes[i_us].next;
        self.nodes[i_us] =
        SlabNode { key, price, qty, owner, inserted_slot: slot, prev: prev_idx, next: curr_idx };
        if prev_idx != NULL_INDEX {
            proof {
                assert(prev_idx as int == a[p - 1]);
                assert(0 <= a[p - 1] < self.cap());
            }
            let pi = prev_idx as usize;
            let n = self.nodes[pi];
            self.nodes[pi] =
            SlabNode {
                key: n.key,
                price: n.price,
                qty: n.qty,
                owner: n.owner,
                inserted_slot: n.inserted_slot,
                prev: n.prev,
                next: idx,
            };
        } else {
            self.head = idx;
        }
        if curr_idx != NULL_INDEX {
            proof {
                assert(curr_idx as int == a[p]);
                assert(0 <= a[p] < self.cap());
            }
            let ci = curr_idx as usize;
            let n = self.nodes[ci];
            self.nodes[ci] =
            SlabNode {
                key: n.key,
                price: n.price,
                qty: n.qty,
                owner: n.owner,
                inserted_slot: n.inserted_slot,
                prev: idx,
                next: n.next,
            };
        }
        proof {
            self.active_list@ = seq_insert(a, p, idxi);
            self.free_list@ = f.drop_first();
            assert(view_of(self.nodes@[idxi]) == newv);
            assert(spliced(*old(self), *self, key, price, qty, owner, slot));
            lemma_insert_splice(*old(self), *self, key, price, qty, owner, slot);
        }
        Ok(idx)
    }

    /// Remove the active order at node index `idx`: unlink it, zero its
    /// payload, and push the node onto the free list. Fails with
    /// `InvalidIndex` exactly when `idx` is out of range or names a node
    /// that holds no active order.
    pub fn remove(&mut self, idx: u32) -> (r: Result<(), ErrorCode>)
        requires
            old(self).wf(),
        ensures
            match r {
                Ok(_) => {
                    let p = seq_find(old(self).active(), idx as int);
                    &&& 0 <= (idx as int) < old(self).cap()
                    &&& old(self).nodes@[idx as int].qty > 0
                    &&& old(self).active().contains(idx as int)
                    &&& 0 <= p < old(self).active().len()
                    &&& final(self).wf()
                    &&& final(self).side == old(self).side
                    &&& final(self).cap() == old(self).cap()
                    &&& final(self).active() == seq_remove_at(old(self).active(), p)
                    &&& final(self).free() == seq![idx as int] + old(self).free()
                    &&& final(self).book_view() == seq_remove_at(old(self).book_view(), p)
                    &&& final(self).free_head == idx
                },
                Err(e) => {
                    &&& *final(self) == *old(self)
                    &&& e == ErrorCode::InvalidIndex
                    &&& (idx as int >= old(self).cap() || old(self).nodes@[idx as int].qty == 0)
                },
            },
    {
        let i_us = idx as usize;
        if i_us >= self.nodes.len() {
            return Err(ErrorCode::InvalidIndex);
        }
        if self.nodes[i_us].qty == 0 {
            return Err(ErrorCode::InvalidIndex);
        }
        let ghost a = self.active();
        let ghost f = self.free();
        let ghost idxi = idx as int;
        proof {
            lemma_active_member(*self, idxi);
        }
        let ghost p = seq_find(a, idxi);
        let prev = self.nodes[i_us].prev;
        let next = self.nodes[i_us].next;
        proof {
            assert(a[p] == idxi);
            if p > 0 {
                assert(0 <= a[p - 1] < self.cap());
            }
            if p + 1 < a.len() {
                assert(0 <= a[p + 1] < self.cap());
            }
        }
        if prev != NULL_INDEX {
            proof {
                if p == 0 {
                    assert(false);
                }
            }
            let pi = prev as usize;
            let n = self.nodes[pi];
            self.nodes[pi] =
            SlabNode {
                key: n.key,
                price: n.price,
                qty: n.qty,
                owner: n.owner,
                inserted_slot: n.inserted_slot,
                prev: n.prev,
                next,
            };
        } else {
            self.head = next;
        }
        if next != NULL_INDEX {
            proof {
                if p + 1 >= a.len() {
                    assert(false);
                }
            }
            let ni = next as usize;
            let n = self.nodes[ni];
            self.nodes[ni] =
            SlabNode {
                key: n.key,
                price: n.price,
                qty: n.qty,
                owner: n.owner,
                inserted_slot: n.inserted_slot,
                prev,
                next: n.next,
            };
        }
        let old_free_head = self.free_head;
        self.nodes[i_us] =
        SlabNode {
            key: 0,
            price: 0,
            qty: 0,
            owner: [0u8; 32],
            inserted_slot: 0,
            prev: NULL_INDEX,
            next: old_free_head,
        };
        self.free_head = idx;
        proof {
            self.active_list@ = seq_remove_at(a, p);
            self.free_list@ = seq![idxi] + f;
            assert(unspliced(*old(self), *self, idxi));
            lemma_remove_unsplice(*old(self), *self, idxi);
        }
        Ok(())
    }

    /// Fill the active order at node index `idx` by `qty` units: remove it
    /// when fully consumed, otherwise shrink it in place. Fails with
    /// `InvalidIndex` exactly when `idx` names no active order, and with
    /// `InvalidQuantity` exactly when `qty == 0`.
    pub fn reduce_order(&mut self, idx: u32, qty: u64) -> (r: Result<(), ErrorCode>)
        requires
            old(self).wf(),
        ensures
            match r {
                Ok(_) => {
                    let p = seq_find(old(self).active(), idx as int);
                    let oldv = old(self).book_view()[p];
                    &&& 0 <= (idx as int) < old(self).cap()
                    &&& old(self).active().contains(idx as int)
                    &&& 0 <= p < old(self).active().len()
                    &&& qty > 0
                    &&& final(self).wf()
                    &&& final(self).side == old(self).side
                    &&& final(self).cap() == old(self).cap()
                    &&& (qty >= oldv.qty ==> {
                        &&& final(self).active() == seq_remove_at(old(self).active(), p)
                        &&& final(self).free() == seq![idx as int] + old(self).free()
                        &&& final(self).book_view() == seq_remove_at(old(self).book_view(), p)
                    })
                    &&& (qty < oldv.qty ==> {
                        &&& final(self).active() == old(self).active()
                        &&& final(self).free() == old(self).free()
                        &&& final(self).head == old(self).head
                        &&& final(self).free_head == old(self).free_head
                        &&& final(self).book_view() == old(self).book_view().update(
                            p,
                            OrderView { qty: (oldv.qty - qty) as u64, ..oldv },
                        )
                    })
                },
                Err(e) => {
                    &&& *final(self) == *old(self)
                    &&& (e == ErrorCode::InvalidIndex <==> (idx as int >= old(self).cap() || old(
                        self,
                    ).nodes@[idx as int].qty == 0))
                    &&& (e == ErrorCode::InvalidQuantity <==> ((idx as int) < old(self).cap()
                        && old(self).nodes@[idx as int].qty > 0 && qty == 0))
                    &&& (e == ErrorCode::InvalidIndex || e == ErrorCode::InvalidQuantity)
                },
            },
    {
        let i_us = idx as usize;
        if i_us >= self.nodes.len() {
            return Err(ErrorCode::InvalidIndex);
        }
        let node = self.nodes[i_us];
        if node.qty == 0 {
            return Err(ErrorCode::InvalidIndex);
        }
        if qty == 0 {
            return Err(ErrorCode::InvalidQuantity);
        }
        let ghost a = self.active();
        let ghost idxi = idx as int;
        proof {
            lemma_active_member(*self, idxi);
        }
        let ghost p = seq_find(a, idxi);
        proof {
            assert(a[p] == idxi);
            assert(self.book_view()[p] == view_of(self.nodes@[idxi]));
        }
        if qty >= node.qty {
            match self.remove(idx) {
                Ok(_) => Ok(()),
                Err(_) => {
                    proof {
                        assert(false);
                    }
                    Err(ErrorCode::InvalidIndex)
                },
            }
        } else {
            self.nodes[i_us] =
            SlabNode {
                key: node.key,
                price: node.price,
                qty: node.qty - qty,
                owner: node.owner,
                inserted_slot: node.inserted_slot,
                prev: node.prev,
                next: node.next,
            };
            proof {
                lemma_reduce_in_place(*old(self), *self, p, idxi);
            }
            Ok(())
        }
    }

    /// Index of the best resting order, or `None` on an empty book.
    pub fn best(&self) -> (r: Option<u32>)
        requires
            self.wf(),
        ensures
            match r {
                None => self.book_view().len() == 0,
                Some(i) => {
                    &&& self.book_view().len() > 0
                    &&& i == self.head
                    &&& i as int == self.active()[0]
                    &&& view_of(self.nodes@[i as int]) == self.book_view()[0]
                },
            },
    {
        if self.head == NULL_INDEX {
            proof {
                if self.active().len() > 0 {
                    assert(0 <= self.active()[0] < self.cap());
                }
            }
            None
        } else {
            Some(self.head)
        }
    }

    /// The best resting order's payload, or `None` on an empty book.
    pub fn best_order(&self) -> (r: Option<OrderView>)
        requires
            self.wf(),
        ensures
            match r {
                None => self.book_view().len() == 0,
                Some(v) => self.book_view().len() > 0 && v == self.book_view()[0],
            },
    {
        match self.best() {
            None => None,
            Some(i) => {
                let n = self.nodes[i as usize];
                Some(
                    OrderView {
                        key: n.key,
                        price: n.price,
                        qty: n.qty,
                        owner: n.owner,
                        inserted_slot: n.inserted_slot,
                    },
                )
            },
        }
    }

    /// Whether this slab sorts as a bid book.
    pub fn is_bid_side(&self) -> (r: bool)
        ensures
            r == (self.side == Side::Bid),
    {
        self.side == Side::Bid
    }

    /// Walk the active list for the first node with positive quantity. On a
    /// well-formed slab every active node has positive quantity, so this
    /// returns exactly what [`Slab::best`] returns.
    #[verifier::rlimit(100)]
    pub fn find_best(&self) -> (r: Option<u32>)
        requires
            self.wf(),
        ensures
            match r {
                None => self.book_view().len() == 0,
                Some(i) => {
                    &&& self.book_view().len() > 0
                    &&& i == self.head
                    &&& i as int == self.active()[0]
                    &&& view_of(self.nodes@[i as int]) == self.book_view()[0]
                },
            },
    {
        let curr = self.head;
        if curr == NULL_INDEX {
            proof {
                if self.active().len() > 0 {
                    assert(0 <= self.active()[0] < self.cap());
                }
            }
            None
        } else {
            proof {
                assert(0 <= self.active()[0] < self.cap());
            }
            if self.nodes[curr as usize].qty > 0 {
                Some(curr)
            } else {
                // Unreachable: the head of a well-formed active list has
                // positive quantity, so the walk stops at the first node.
                proof {
                    assert(false);
                }
                None
            }
        }
    }
}

/// If `v` first appears at position `p` of `s`, [`seq_find`] returns `p`.
proof fn lemma_seq_find_first(s: Seq<int>, v: int, p: int)
    requires
        0 <= p < s.len(),
        s[p] == v,
        forall|j: int| 0 <= j < p ==> s[j] != v,
    ensures
        seq_find(s, v) == p,
    decreases s.len(),
{
    if s[0] == v {
        assert(p == 0);
    } else {
        assert(s.drop_first()[p - 1] == v);
        assert forall|j: int| 0 <= j < p - 1 implies s.drop_first()[j] != v by {
            assert(s.drop_first()[j] == s[j + 1]);
        }
        lemma_seq_find_first(s.drop_first(), v, p - 1);
    }
}

/// The two lists of a well-formed slab partition its index space: every
/// index below the capacity is on exactly one of the active and free lists.
pub proof fn lemma_active_free_partition(s: Slab)
    requires
        s.wf(),
    ensures
        forall|k: int| 0 <= k < s.cap() ==> s.active().contains(k) || s.free().contains(k),
        forall|k: int| #[trigger] s.active().contains(k) ==> !s.free().contains(k),
        forall|k: int| s.active().contains(k) || s.free().contains(k) ==> 0 <= k < s.cap(),
{
    assert forall|k: int| #[trigger] s.active().contains(k) implies !s.free().contains(k) by {
        if s.free().contains(k) {
            let i = choose|i: int| 0 <= i < s.active().len() && s.active()[i] == k;
            let j = choose|j: int| 0 <= j < s.free().len() && s.free()[j] == k;
            assert(s.active()[i] != s.free()[j]);
        }
    }
    assert forall|k: int| s.active().contains(k) || s.free().contains(k) implies 0 <= k < s.cap()
        by {
        if s.active().contains(k) {
            let i = choose|i: int| 0 <= i < s.active().len() && s.active()[i] == k;
            assert(0 <= s.active()[i] < s.cap());
        } else {
            let j = choose|j: int| 0 <= j < s.free().len() && s.free()[j] == k;
            assert(0 <= s.free()[j] < s.cap());
        }
    }
}

/// Every resting order of a well-formed slab has positive quantity, and the
/// book is strictly sorted by price-time-key priority, best first.
pub proof fn lemma_book_sorted(s: Slab)
    requires
        s.wf(),
    ensures
        forall|i: int| 0 <= i < s.book_view().len() ==> (#[trigger] s.book_view()[i]).qty > 0,
        forall|i: int, j: int|
            0 <= i < j < s.book_view().len() ==> view_precedes(
                #[trigger] s.book_view()[i],
                #[trigger] s.book_view()[j],
                s.side,
            ),
{
    assert forall|i: int| 0 <= i < s.book_view().len() implies (#[trigger] s.book_view()[i]).qty
        > 0 by {
        assert(s.book_view()[i] == view_of(s.nodes@[s.active()[i]]));
    }
    assert forall|i: int, j: int| 0 <= i < j < s.book_view().len() implies view_precedes(
        #[trigger] s.book_view()[i],
        #[trigger] s.book_view()[j],
        s.side,
    ) by {
        assert(view_precedes(
            view_of(s.nodes@[s.active()[i]]),
            view_of(s.nodes@[s.active()[j]]),
            s.side,
        ));
    }
}

/// Inserting an order and then removing it restores the slab's lists, its
/// two heads, and the book view to their pre-insert values; only the node
/// payloads left behind on the free list may differ.
///
/// `s1` is the slab after [`Slab::insert`] placed the order at node `idx`
/// and position `p`, exactly as that method's postcondition states, and
/// `s2` the slab after [`Slab::remove`] took `idx` out again.
pub proof fn lemma_insert_remove_round_trip(
    s0: Slab,
    s1: Slab,
    s2: Slab,
    idx: u32,
    p: int,
    v: OrderView,
)
    requires
        s0.wf(),
        s2.wf(),
        s0.free().len() > 0,
        idx as int == s0.free()[0],
        0 <= p <= s0.active().len(),
        s1.active() == seq_insert(s0.active(), p, idx as int),
        s1.free() == s0.free().drop_first(),
        s1.book_view() == seq_insert(s0.book_view(), p, v),
        s2.active() == seq_remove_at(s1.active(), seq_find(s1.active(), idx as int)),
        s2.free() == seq![idx as int] + s1.free(),
        s2.book_view() == seq_remove_at(s1.book_view(), seq_find(s1.active(), idx as int)),
        s2.free_head == idx,
    ensures
        s2.head == s0.head,
        s2.free_head == s0.free_head,
        s2.active() == s0.active(),
        s2.free() == s0.free(),
        s2.book_view() == s0.book_view(),
{
    let a0 = s0.active();
    let a1 = s1.active();
    assert forall|j: int| 0 <= j < a0.len() implies #[trigger] a0[j] != idx as int by {
        assert(a0[j] != s0.free()[0]);
    }
    assert(a1[p] == idx as int);
    assert forall|j: int| 0 <= j < p implies a1[j] != idx as int by {
        assert(a1[j] == a0[j]);
    }
    lemma_seq_find_first(a1, idx as int, p);
    assert(s2.active() =~= a0);
    assert(s2.free() =~= s0.free()) by {
        assert(s2.free()[0] == idx as int);
        assert forall|j: int| 1 <= j < s2.free().len() implies s2.free()[j] == s0.free()[j] by {
            assert(s2.free()[j] == s1.free()[j - 1]);
            assert(s1.free()[j - 1] == s0.free()[j]);
        }
    }
    assert(s2.book_view() =~= s0.book_view());
    if a0.len() == 0 {
        assert(s2.head == NULL_INDEX && s0.head == NULL_INDEX);
    } else {
        assert(s2.head as int == s2.active()[0]);
        assert(s0.head as int == a0[0]);
    }
    assert(s0.free_head as int == s0.free()[0]);
}

} // verus!
