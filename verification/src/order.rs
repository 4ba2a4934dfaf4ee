//! Order placement and matching: limit orders with a leverage gate, market
//! orders matched against the opposite book best-first under a slippage
//! band.
use crate::errors::ErrorCode;
use crate::event_queue::push_event;
use crate::event_queue::EventQueue;
use crate::slab::insert_position;
use crate::slab::seq_insert;
use crate::slab::OrderView;
use crate::slab::Slab;
use crate::slab::NULL_INDEX;
use crate::state::opposite;
use crate::state::opposite_side;
use crate::state::MarginAccount;
use crate::state::Market;
use crate::state::OrderEvent;
use crate::state::OrderbookSide;
use crate::state::Position;
use crate::state::Side;
use crate::state::EVENT_FILL;
use crate::state::EVENT_PLACE;
use vstd::arithmetic::mul::lemma_mul_nonnegative;
use vstd::prelude::*;

verus! {

/// The orderbook-side record and its slab agree: same side, mirrored list
/// heads, and every resting key below the next order id.
pub open spec fn ob_slab_wf(ob: OrderbookSide, slab: Slab) -> bool {
    &&& slab.wf()
    &&& ob.side == slab.side
    &&& ob.head == slab.head
    &&& ob.free_head == slab.free_head
    &&& forall|i: int|
        0 <= i < slab.book_view().len() ==> (#[trigger] slab.book_view()[i]).key
            < ob.next_order_id
}

/// Notional value of one position: entry price times quantity.
pub open spec fn position_notional(p: Position) -> int {
    p.entry_price * p.qty
}

/// Total notional across a list of positions.
pub open spec fn total_notional(ps: Seq<Position>) -> int
    decreases ps.len(),
{
    if ps.len() == 0 {
        0
    } else {
        position_notional(ps[0]) + total_notional(ps.drop_first())
    }
}

/// A product of two `u64` values fits in `u128`.
pub proof fn lemma_u64_mul_fits(a: u64, b: u64)
    ensures
        0 <= a * b <= u128::MAX,
{
    assert(0 <= a * b && a * b <= 0xFFFF_FFFF_FFFF_FFFFu64 * 0xFFFF_FFFF_FFFF_FFFFu64)
        by (nonlinear_arith)
        requires
            0 <= a <= 0xFFFF_FFFF_FFFF_FFFFu64 && 0 <= b <= 0xFFFF_FFFF_FFFF_FFFFu64,
    ;
}

/// Appending a position adds its notional to the total.
proof fn lemma_total_notional_push(ps: Seq<Position>, p: Position)
    ensures
        total_notional(ps.push(p)) == total_notional(ps) + position_notional(p),
    decreases ps.len(),
{
    let s2 = ps.push(p);
    assert(s2.len() == ps.len() + 1);
    assert(total_notional(s2) == position_notional(s2[0]) + total_notional(s2.drop_first()));
    if ps.len() == 0 {
        assert(s2[0] == p);
        assert(s2.drop_first() =~= Seq::<Position>::empty());
        assert(total_notional(s2.drop_first()) == 0);
    } else {
        assert(s2[0] == ps[0]);
        assert(s2.drop_first() =~= ps.drop_first().push(p));
        lemma_total_notional_push(ps.drop_first(), p);
    }
}

/// Notional totals are sums of products of unsigned values.
proof fn lemma_total_notional_nonneg(ps: Seq<Position>)
    ensures
        total_notional(ps) >= 0,
    decreases ps.len(),
{
    if ps.len() > 0 {
        lemma_mul_nonnegative(ps[0].entry_price as int, ps[0].qty as int);
        lemma_total_notional_nonneg(ps.drop_first());
    }
}

/// A prefix never exceeds the whole total.
proof fn lemma_total_notional_prefix(ps: Seq<Position>, i: int)
    requires
        0 <= i <= ps.len(),
    ensures
        total_notional(ps.take(i)) <= total_notional(ps),
    decreases ps.len() - i,
{
    if i == ps.len() {
        assert(ps.take(i) =~= ps);
    } else {
        assert(ps.take(i + 1) =~= ps.take(i).push(ps[i]));
        lemma_total_notional_push(ps.take(i), ps[i]);
        lemma_mul_nonnegative(ps[i].entry_price as int, ps[i].qty as int);
        lemma_total_notional_prefix(ps, i + 1);
    }
}

/// Sum the notional of all open positions, as the leverage gate reads it.
/// Fails with `Overflow` exactly when the total exceeds `u128`.
fn existing_notional(margin: &MarginAccount) -> (r: Result<u128, ErrorCode>)
    ensures
        match r {
            Ok(v) => v as int == total_notional(margin.positions@),
            Err(e) => {
                &&& e == ErrorCode::Overflow
                &&& total_notional(margin.positions@) > u128::MAX
            },
        },
{
    let mut acc: u128 = 0;
    let mut i: usize = 0;
    let n = margin.positions.len();
    while i < n
        invariant
            0 <= i <= n,
            n == margin.positions.len(),
            acc as int == total_notional(margin.positions@.take(i as int)),
        decreases n - i,
    {
        let p = margin.positions[i];
        proof {
            lemma_u64_mul_fits(p.entry_price, p.qty);
        }
        let notional = (p.entry_price as u128) * (p.qty as u128);
        proof {
            assert(margin.positions@.take(i + 1) =~= margin.positions@.take(i as int).push(p));
            lemma_total_notional_push(margin.positions@.take(i as int), p);
        }
        match acc.checked_add(notional) {
            Some(v) => {
                acc = v;
            },
            None => {
                proof {
                    lemma_total_notional_prefix(margin.positions@, i + 1);
                }
                return Err(ErrorCode::Overflow);
            },
        }
        i = i + 1;
    }
    proof {
        assert(margin.positions@.take(n as int) =~= margin.positions@);
    }
    Ok(acc)
}

/// Place a resting limit order.
///
/// Checks, in this order: the book is the named side; the account's total
/// notional including this order stays within `u128`; the leverage gate
/// `existing + order <= collateral * leverage_limit`; the order-id counter
/// has room; the order itself (positive quantity, a free slab node). On
/// success the order rests at its price-time position under the key
/// `old(ob).next_order_id`, the counter advances, and a placement record is
/// appended to the event queue. On failure nothing changes.
#[verifier::rlimit(100)]
pub fn place_limit_order(
    ob: &mut OrderbookSide,
    slab: &mut Slab,
    queue: &mut EventQueue,
    margin: &MarginAccount,
    market: &Market,
    side: Side,
    price: u64,
    qty: u64,
    owner: [u8; 32],
    slot: u64,
) -> (r: Result<(), ErrorCode>)
    requires
        ob_slab_wf(*old(ob), *old(slab)),
        old(queue).wf(),
    ensures
        match r {
            Ok(_) => {
                let key = old(ob).next_order_id;
                let newv = OrderView { key, price, qty, owner, inserted_slot: slot };
                let p = insert_position(
                    old(slab).nodes@,
                    old(slab).active(),
                    price,
                    slot,
                    old(slab).side,
                );
                let ev = OrderEvent { event_type: EVENT_PLACE, key, price, qty, owner };
                &&& side == old(ob).side
                &&& qty > 0
                &&& total_notional(margin.positions@) + price * qty <= margin.collateral
                    * market.params.leverage_limit
                &&& old(ob).next_order_id < u128::MAX
                &&& ob_slab_wf(*final(ob), *final(slab))
                &&& final(ob).side == old(ob).side
                &&& final(ob).next_order_id == old(ob).next_order_id + 1
                &&& final(slab).side == old(slab).side
                &&& final(slab).cap() == old(slab).cap()
                &&& 0 <= p <= old(slab).book_view().len()
                &&& final(slab).book_view() == seq_insert(old(slab).book_view(), p, newv)
                &&& final(queue).cap() == old(queue).cap()
                &&& final(queue).wf()
                &&& (old(queue).live().len() < old(queue).cap() ==> final(queue).live() == old(
                    queue,
                ).live().push(ev))
                &&& (old(queue).live().len() == old(queue).cap() ==> final(queue).live() == old(
                    queue,
                ).live().drop_first().push(ev))
                &&& (old(slab).book_view().len() > 0 ==> !crate::slab::price_better(
                    old(slab).book_view()[0].price,
                    final(slab).book_view()[0].price,
                    old(slab).side,
                ))
            },
            Err(e) => {
                &&& *final(ob) == *old(ob)
                &&& *final(slab) == *old(slab)
                &&& *final(queue) == *old(queue)
                &&& (e == ErrorCode::InvalidOrderbookSide <==> old(ob).side != side)
                &&& (e == ErrorCode::Overflow <==> old(ob).side == side && total_notional(
                    margin.positions@,
                ) + price * qty > u128::MAX)
                &&& (e == ErrorCode::LeverageExceeded <==> old(ob).side == side
                    && total_notional(margin.positions@) + price * qty <= u128::MAX
                    && total_notional(margin.positions@) + price * qty > margin.collateral
                    * market.params.leverage_limit)
                &&& (e == ErrorCode::OrderbookOverflow <==> old(ob).side == side
                    && total_notional(margin.positions@) + price * qty <= margin.collateral
                    * market.params.leverage_limit && old(ob).next_order_id == u128::MAX)
                &&& (e == ErrorCode::InvalidQuantity <==> old(ob).side == side
                    && total_notional(margin.positions@) + price * qty <= margin.collateral
                    * market.params.leverage_limit && old(ob).next_order_id < u128::MAX && qty
                    == 0)
                &&& (e == ErrorCode::OrderbookFull <==> old(ob).side == side && total_notional(
                    margin.positions@,
                ) + price * qty <= margin.collateral * market.params.leverage_limit && old(
                    ob,
                ).next_order_id < u128::MAX && qty > 0 && old(slab).free().len() == 0)
                &&& (e == ErrorCode::InvalidOrderbookSide || e == ErrorCode::Overflow || e
                    == ErrorCode::LeverageExceeded || e == ErrorCode::OrderbookOverflow || e
                    == ErrorCode::InvalidQuantity || e == ErrorCode::OrderbookFull)
            },
        },
{
    if !side_eq(ob.side, side) {
        return Err(ErrorCode::InvalidOrderbookSide);
    }
    proof {
        lemma_u64_mul_fits(price, qty);
        lemma_total_notional_nonneg(margin.positions@);
        assert(margin.collateral * market.params.leverage_limit <= u64::MAX * 0xFFu128)
            by (nonlinear_arith)
            requires
                0 <= margin.collateral <= u64::MAX && 0 <= market.params.leverage_limit <= 0xFF,
        ;
    }
    let order_notional = (price as u128) * (qty as u128);
    let existing = match existing_notional(margin) {
        Ok(v) => v,
        Err(e) => {
            return Err(e);
        },
    };
    let total = match existing.checked_add(order_notional) {
        Some(v) => v,
        None => {
            return Err(ErrorCode::Overflow);
        },
    };
    let limit = (margin.collateral as u128) * (market.params.leverage_limit as u128);
    if total > limit {
        return Err(ErrorCode::LeverageExceeded);
    }
    if ob.next_order_id == u128::MAX {
        return Err(ErrorCode::OrderbookOverflow);
    }
    let key = ob.next_order_id;
    match slab.insert(key, price, qty, owner, slot) {
        Ok(_) => {},
        Err(e) => {
            return Err(e);
        },
    }
    ob.next_order_id = key + 1;
    ob.head = slab.head;
    ob.free_head = slab.free_head;
    let pushed = push_event(queue, EVENT_PLACE, key, price, qty, owner);
    match pushed {
        Ok(_) => {},
        Err(_) => {
            proof {
                assert(false);
            }
        },
    }
    proof {
        let fbook = final(slab).book_view();
        let next_id = final(ob).next_order_id;
        assert forall|i: int| 0 <= i < fbook.len() implies (#[trigger] fbook[i]).key < next_id by {
            let p = insert_position(
                old(slab).nodes@,
                old(slab).active(),
                price,
                slot,
                old(slab).side,
            );
            if i < p {
                assert(final(slab).book_view()[i] == old(slab).book_view()[i]);
            } else if i > p {
                assert(final(slab).book_view()[i] == old(slab).book_view()[i - 1]);
            }
        }
    }
    Ok(())
}

/// The fill event that consumes `amount` units of resting order `v`.
pub open spec fn fill_of(v: OrderView, amount: u64) -> OrderEvent {
    OrderEvent { event_type: EVENT_FILL, key: v.key, price: v.price, qty: amount, owner: v.owner }
}

/// The run of fill events a market order for `remaining` units takes off
/// `book`, best first.
pub open spec fn match_fills(book: Seq<OrderView>, remaining: u128) -> Seq<OrderEvent>
    decreases book.len(),
{
    if remaining == 0 || book.len() == 0 {
        Seq::empty()
    } else if remaining >= book[0].qty {
        seq![fill_of(book[0], book[0].qty)] + match_fills(
            book.drop_first(),
            (remaining - book[0].qty) as u128,
        )
    } else {
        seq![fill_of(book[0], remaining as u64)]
    }
}

/// The book left behind by that match.
pub open spec fn book_after_fills(book: Seq<OrderView>, remaining: u128) -> Seq<OrderView>
    decreases book.len(),
{
    if remaining == 0 || book.len() == 0 {
        book
    } else if remaining >= book[0].qty {
        book_after_fills(book.drop_first(), (remaining - book[0].qty) as u128)
    } else {
        book.update(0, OrderView { qty: (book[0].qty - remaining) as u64, ..book[0] })
    }
}

/// A fill price acceptable against a book of `book_side`: at most the limit
/// when lifting asks, at least the limit when hitting bids.
pub open spec fn within_band(price: u64, limit: u64, book_side: Side) -> bool {
    match book_side {
        Side::Ask => price <= limit,
        Side::Bid => price >= limit,
    }
}

/// Every order the match would touch lies within the band.
pub open spec fn band_ok(book: Seq<OrderView>, remaining: u128, limit: u64, book_side: Side) -> bool
    decreases book.len(),
{
    ||| remaining == 0
    ||| book.len() == 0
    ||| (within_band(book[0].price, limit, book_side) && (remaining < book[0].qty || band_ok(
        book.drop_first(),
        (remaining - book[0].qty) as u128,
        limit,
        book_side,
    )))
}

/// Slippage multiplier in basis points: the band widens upward when lifting
/// asks and downward (floored at zero) when hitting bids.
pub open spec fn slippage_factor(bps: u16, book_side: Side) -> int {
    match book_side {
        Side::Ask => 10_000 + bps as int,
        Side::Bid => if bps as int >= 10_000 {
            0int
        } else {
            10_000 - bps as int
        },
    }
}

/// The price limit derived from the best price and the slippage allowance.
pub open spec fn slippage_limit(best: u64, bps: u16, book_side: Side) -> int {
    (best * slippage_factor(bps, book_side)) / 10_000
}

/// Sum of the quantities of a run of fill events.
pub open spec fn sum_fill_qty(evs: Seq<OrderEvent>) -> int
    decreases evs.len(),
{
    if evs.len() == 0 {
        0
    } else {
        evs[0].qty + sum_fill_qty(evs.drop_first())
    }
}

/// A market order either fills its whole quantity or empties the book.
pub proof fn lemma_match_fills_total(book: Seq<OrderView>, remaining: u128)
    ensures
        0 <= sum_fill_qty(match_fills(book, remaining)) <= remaining,
        sum_fill_qty(match_fills(book, remaining)) == remaining || book_after_fills(
            book,
            remaining,
        ).len() == 0,
    decreases book.len(),
{
    if remaining == 0 || book.len() == 0 {
    } else if remaining >= book[0].qty {
        let rest = match_fills(book.drop_first(), (remaining - book[0].qty) as u128);
        let fills = match_fills(book, remaining);
        lemma_match_fills_total(book.drop_first(), (remaining - book[0].qty) as u128);
        assert(fills[0] == fill_of(book[0], book[0].qty));
        assert(fills.drop_first() =~= rest);
        assert(sum_fill_qty(fills) == fills[0].qty + sum_fill_qty(rest));
        assert(book_after_fills(book, remaining) == book_after_fills(
            book.drop_first(),
            (remaining - book[0].qty) as u128,
        ));
    } else {
        let fills = match_fills(book, remaining);
        assert(fills[0] == fill_of(book[0], remaining as u64));
        assert(fills.drop_first() =~= Seq::<OrderEvent>::empty());
        assert(sum_fill_qty(fills) == fills[0].qty + sum_fill_qty(fills.drop_first()));
        assert(sum_fill_qty(fills.drop_first()) == 0);
    }
}

/// When the whole match lies within the band, so does each of its fills.
pub proof fn lemma_match_fills_band(book: Seq<OrderView>, remaining: u128, limit: u64, side: Side)
    requires
        band_ok(book, remaining, limit, side),
    ensures
        forall|k: int|
            0 <= k < match_fills(book, remaining).len() ==> within_band(
                (#[trigger] match_fills(book, remaining)[k]).price,
                limit,
                side,
            ),
    decreases book.len(),
{
    if remaining == 0 || book.len() == 0 {
    } else if remaining >= book[0].qty {
        let rest = match_fills(book.drop_first(), (remaining - book[0].qty) as u128);
        let fills = match_fills(book, remaining);
        lemma_match_fills_band(book.drop_first(), (remaining - book[0].qty) as u128, limit, side);
        assert forall|k: int| 0 <= k < fills.len() implies within_band(
            (#[trigger] fills[k]).price,
            limit,
            side,
        ) by {
            if k == 0 {
                assert(fills[0] == fill_of(book[0], book[0].qty));
            } else {
                assert(fills[k] == rest[k - 1]);
            }
        }
    } else {
        let fills = match_fills(book, remaining);
        assert(fills.len() == 1);
        assert forall|k: int| 0 <= k < fills.len() implies within_band(
            (#[trigger] fills[k]).price,
            limit,
            side,
        ) by {
            assert(fills[0] == fill_of(book[0], remaining as u64));
        }
    }
}

/// The match never introduces a key: what rests after it rested before.
pub proof fn lemma_book_after_keys(book: Seq<OrderView>, remaining: u128, bound: u128)
    requires
        forall|i: int| 0 <= i < book.len() ==> (#[trigger] book[i]).key < bound,
    ensures
        forall|i: int|
            0 <= i < book_after_fills(book, remaining).len() ==> (#[trigger] book_after_fills(
                book,
                remaining,
            )[i]).key < bound,
    decreases book.len(),
{
    if remaining == 0 || book.len() == 0 {
    } else if remaining >= book[0].qty {
        assert forall|i: int| 0 <= i < book.drop_first().len() implies (#[trigger] book.drop_first()[
            i
        ]).key < bound by {
            assert(book.drop_first()[i] == book[i + 1]);
        }
        lemma_book_after_keys(book.drop_first(), (remaining - book[0].qty) as u128, bound);
        let after = book_after_fills(book, remaining);
        let after2 = book_after_fills(book.drop_first(), (remaining - book[0].qty) as u128);
        assert(after == after2);
        assert forall|i: int| 0 <= i < after.len() implies (#[trigger] after[i]).key < bound by {
            assert(after[i] == after2[i]);
        }
    } else {
        let after = book_after_fills(book, remaining);
        assert forall|i: int| 0 <= i < after.len() implies (#[trigger] after[i]).key < bound by {
            if i == 0 {
                assert(after[0].key == book[0].key);
            } else {
                assert(after[i] == book[i]);
            }
        }
    }
}

/// One step of [`band_ok`], spelled out for the walk below.
proof fn lemma_band_ok_unfold(book: Seq<OrderView>, rem: u128, limit: u64, side: Side)
    requires
        rem > 0,
        book.len() > 0,
    ensures
        band_ok(book, rem, limit, side) == (within_band(book[0].price, limit, side) && (rem
            < book[0].qty || band_ok(
            book.drop_first(),
            (rem - book[0].qty) as u128,
            limit,
            side,
        ))),
{
}

/// Walk the book best-first and decide whether a market order for `qty`
/// units stays within the slippage band `limit`.
#[verifier::rlimit(100)]
fn band_check(slab: &Slab, qty: u64, limit: u64) -> (r: bool)
    requires
        slab.wf(),
    ensures
        r == band_ok(slab.book_view(), qty as u128, limit, slab.side),
{
    let ghost book = slab.book_view();
    let ghost a = slab.active();
    let mut curr = slab.head;
    let mut rem: u64 = qty;
    let ghost mut i: int = 0int;
    proof {
        assert(book.skip(0) =~= book);
    }
    loop
        invariant
            slab.wf(),
            book == slab.book_view(),
            a == slab.active(),
            0 <= i <= a.len(),
            i < a.len() ==> curr as int == a[i],
            i == a.len() ==> curr == NULL_INDEX,
            band_ok(book, qty as u128, limit, slab.side) == band_ok(
                book.skip(i),
                rem as u128,
                limit,
                slab.side,
            ),
        decreases a.len() - i,
    {
        if rem == 0 {
            return true;
        }
        if curr == NULL_INDEX {
            proof {
                assert(book.skip(i).len() == 0);
            }
            return true;
        }
        proof {
            assert(0 <= a[i] < slab.cap());
            assert(book.skip(i)[0] == book[i]);
            assert(book[i] == crate::slab::view_of(slab.nodes@[a[i]]));
            lemma_band_ok_unfold(book.skip(i), rem as u128, limit, slab.side);
        }
        let n = slab.nodes[curr as usize];
        let inside = match slab.side {
            Side::Ask => n.price <= limit,
            Side::Bid => n.price >= limit,
        };
        if !inside {
            return false;
        }
        if n.qty >= rem {
            return true;
        }
        proof {
            assert(book.skip(i).drop_first() =~= book.skip(i + 1));
            i = i + 1;
        }
        rem = rem - n.qty;
        curr = n.next;
    }
}

/// Fill a market order for `qty` units of the trader's `side` against this
/// book, which holds the opposite side's resting orders.
///
/// The price limit is the current best price widened by
/// `max_slippage_bps`; if any order the match would touch lies outside that
/// band the whole order fails with `SlippageExceeded` and nothing changes.
/// Otherwise the match consumes resting orders best-first, appending one
/// fill record per touched order to the event queue, until the quantity is
/// exhausted or the book is empty.
#[verifier::rlimit(100)]
pub fn place_market_order(
    ob: &mut OrderbookSide,
    slab: &mut Slab,
    queue: &mut EventQueue,
    qty: u64,
    side: Side,
    max_slippage_bps: u16,
) -> (r: Result<(), ErrorCode>)
    requires
        ob_slab_wf(*old(ob), *old(slab)),
        old(queue).wf(),
    ensures
        match r {
            Ok(_) => {
                let book0 = old(slab).book_view();
                let fills = match_fills(book0, qty as u128);
                let lim = slippage_limit(book0[0].price, max_slippage_bps, old(slab).side);
                &&& old(ob).side == opposite_side(side)
                &&& book0.len() > 0
                &&& book0[0].price * slippage_factor(max_slippage_bps, old(slab).side)
                    <= u64::MAX
                &&& band_ok(book0, qty as u128, lim as u64, old(slab).side)
                &&& forall|k: int|
                    0 <= k < fills.len() ==> within_band(
                        (#[trigger] fills[k]).price,
                        lim as u64,
                        old(slab).side,
                    )
                &&& ob_slab_wf(*final(ob), *final(slab))
                &&& final(ob).side == old(ob).side
                &&& final(ob).next_order_id == old(ob).next_order_id
                &&& final(slab).side == old(slab).side
                &&& final(slab).cap() == old(slab).cap()
                &&& final(slab).book_view() == book_after_fills(book0, qty as u128)
                &&& final(queue).wf()
                &&& final(queue).cap() == old(queue).cap()
                &&& final(queue).live() == crate::event_queue::ring_after(
                    old(queue).live(),
                    fills,
                    old(queue).cap(),
                )
                &&& (sum_fill_qty(fills) == qty || final(slab).book_view().len() == 0)
            },
            Err(e) => {
                let book0 = old(slab).book_view();
                &&& *final(ob) == *old(ob)
                &&& *final(slab) == *old(slab)
                &&& *final(queue) == *old(queue)
                &&& (e == ErrorCode::InvalidOrderbookSide <==> old(ob).side != opposite_side(
                    side,
                ))
                &&& (e == ErrorCode::OrderbookEmpty <==> old(ob).side == opposite_side(side)
                    && book0.len() == 0)
                &&& (e == ErrorCode::Overflow <==> old(ob).side == opposite_side(side)
                    && book0.len() > 0 && book0[0].price * slippage_factor(
                    max_slippage_bps,
                    old(slab).side,
                ) > u64::MAX)
                &&& (e == ErrorCode::SlippageExceeded <==> old(ob).side == opposite_side(side)
                    && book0.len() > 0 && book0[0].price * slippage_factor(
                    max_slippage_bps,
                    old(slab).side,
                ) <= u64::MAX && !band_ok(
                    book0,
                    qty as u128,
                    slippage_limit(book0[0].price, max_slippage_bps, old(slab).side) as u64,
                    old(slab).side,
                ))
                &&& (e == ErrorCode::InvalidOrderbookSide || e == ErrorCode::OrderbookEmpty || e
                    == ErrorCode::Overflow || e == ErrorCode::SlippageExceeded)
            },
        },
{
    let opp = opposite(side);
    if !side_eq(ob.side, opp) {
        return Err(ErrorCode::InvalidOrderbookSide);
    }
    let best_v = match slab.best_order() {
        None => {
            return Err(ErrorCode::OrderbookEmpty);
        },
        Some(v) => v,
    };
    let is_bid_book = slab.is_bid_side();
    let factor: u64 = if !is_bid_book {
        10_000u64 + (max_slippage_bps as u64)
    } else if max_slippage_bps >= 10_000 {
        0u64
    } else {
        10_000u64 - (max_slippage_bps as u64)
    };
    proof {
        assert(factor as int == slippage_factor(max_slippage_bps, slab.side));
    }
    let limit = match best_v.price.checked_mul(factor) {
        None => {
            return Err(ErrorCode::Overflow);
        },
        Some(x) => x / 10_000,
    };
    proof {
        assert(limit as int == slippage_limit(best_v.price, max_slippage_bps, slab.side));
    }
    if !band_check(slab, qty, limit) {
        return Err(ErrorCode::SlippageExceeded);
    }
    let ghost book0 = slab.book_view();
    let ghost q0 = old(queue).live();
    let ghost capg = old(queue).cap();
    let ghost side0 = slab.side;
    let ghost mut evs: Seq<OrderEvent> = Seq::empty();
    let mut remaining: u64 = qty;
    proof {
        assert(evs + match_fills(book0, qty as u128) =~= match_fills(book0, qty as u128));
        crate::event_queue::lemma_ring_after_empty(q0, capg);
    }
    loop
        invariant
            slab.wf(),
            queue.wf(),
            slab.side == side0,
            slab.cap() == old(slab).cap(),
            queue.cap() == capg,
            q0.len() <= capg,
            remaining <= qty,
            match_fills(book0, qty as u128) == evs + match_fills(
                slab.book_view(),
                remaining as u128,
            ),
            book_after_fills(book0, qty as u128) == book_after_fills(
                slab.book_view(),
                remaining as u128,
            ),
            queue.live() == crate::event_queue::ring_after(q0, evs, capg),
        ensures
            slab.wf(),
            queue.wf(),
            slab.side == side0,
            slab.cap() == old(slab).cap(),
            queue.cap() == capg,
            remaining == 0 || slab.book_view().len() == 0,
            match_fills(book0, qty as u128) == evs + match_fills(
                slab.book_view(),
                remaining as u128,
            ),
            book_after_fills(book0, qty as u128) == book_after_fills(
                slab.book_view(),
                remaining as u128,
            ),
            queue.live() == crate::event_queue::ring_after(q0, evs, capg),
        decreases remaining,
    {
        if remaining == 0 {
            break ;
        }
        let idx = match slab.best() {
            None => {
                break ;
            },
            Some(i) => i,
        };
        let ghost pre = *slab;
        let ghost bk = slab.book_view();
        proof {
            assert(0 <= slab.active()[0] < slab.cap());
        }
        let n = slab.nodes[idx as usize];
        let ghost nv = crate::slab::view_of(slab.nodes@[idx as int]);
        let fill = if remaining < n.qty {
            remaining
        } else {
            n.qty
        };
        proof {
            assert(n.qty > 0);
            assert(crate::slab::seq_find(pre.active(), idx as int) == 0) by {
                assert(pre.active()[0] == idx as int);
            }
        }
        match slab.reduce_order(idx, fill) {
            Ok(_) => {},
            Err(_) => {
                proof {
                    assert(false);
                }
            },
        }
        let pushed = push_event(queue, EVENT_FILL, n.key, n.price, fill, n.owner);
        match pushed {
            Ok(_) => {},
            Err(_) => {
                proof {
                    assert(false);
                }
            },
        }
        proof {
            let ev = fill_of(nv, fill);
            assert(bk[0] == nv);
            // One unfolding of the two match functions around this fill.
            if fill == n.qty {
                assert(slab.book_view() == crate::slab::seq_remove_at(bk, 0));
                assert(slab.book_view() =~= bk.drop_first());
                assert(match_fills(bk, remaining as u128) == seq![ev] + match_fills(
                    slab.book_view(),
                    (remaining - fill) as u128,
                ));
                assert(book_after_fills(bk, remaining as u128) == book_after_fills(
                    slab.book_view(),
                    (remaining - fill) as u128,
                ));
            } else {
                assert(slab.book_view() == bk.update(
                    0,
                    OrderView { qty: (n.qty - fill) as u64, ..nv },
                ));
                assert(match_fills(bk, remaining as u128) =~= seq![ev]);
                assert(match_fills(slab.book_view(), 0u128) =~= Seq::<OrderEvent>::empty());
                assert(match_fills(bk, remaining as u128) =~= seq![ev] + match_fills(
                    slab.book_view(),
                    (remaining - fill) as u128,
                ));
                assert(book_after_fills(bk, remaining as u128) == slab.book_view());
                assert(book_after_fills(slab.book_view(), (remaining - fill) as u128)
                    == slab.book_view());
            }
            // Re-associate the runs.
            assert((evs + seq![ev]) + match_fills(slab.book_view(), (remaining - fill) as u128)
                =~= evs + (seq![ev] + match_fills(
                slab.book_view(),
                (remaining - fill) as u128,
            )));
            assert(evs + seq![ev] =~= evs.push(ev));
            crate::event_queue::lemma_ring_after_step(q0, evs, ev, capg);
            evs = evs.push(ev);
        }
        remaining = remaining - fill;
    }
    ob.head = slab.head;
    ob.free_head = slab.free_head;
    proof {
        assert(match_fills(slab.book_view(), remaining as u128) =~= Seq::<OrderEvent>::empty());
        assert(evs + Seq::<OrderEvent>::empty() =~= evs);
        assert(evs == match_fills(book0, qty as u128));
        lemma_match_fills_total(book0, qty as u128);
        lemma_match_fills_band(book0, qty as u128, limit, side0);
        lemma_book_after_keys(book0, qty as u128, old(ob).next_order_id);
    }
    Ok(())
}

/// Create one side of a market's order book: a slab of `capacity` free
/// nodes and its metadata record, with order ids starting at 1. `side` is 0
/// for `Bid`, 1 for `Ask`; other values fail with `InvalidOrderbookSide`
/// and a bad capacity with `InvalidCapacity`.
pub fn initialize_orderbook(side: u8, capacity: usize) -> (r: Result<
    (OrderbookSide, Slab),
    ErrorCode,
>)
    ensures
        match r {
            Ok(pair) => {
                &&& (side == 0 || side == 1)
                &&& 1 <= capacity <= crate::slab::MAX_SLAB_CAPACITY
                &&& ob_slab_wf(pair.0, pair.1)
                &&& pair.0.side == (if side == 0 {
                    Side::Bid
                } else {
                    Side::Ask
                })
                &&& pair.0.next_order_id == 1
                &&& pair.1.cap() == capacity
                &&& pair.1.book_view() == Seq::<OrderView>::empty()
            },
            Err(e) => {
                ||| (e == ErrorCode::InvalidCapacity && (capacity == 0 || capacity
                    > crate::slab::MAX_SLAB_CAPACITY))
                ||| (e == ErrorCode::InvalidOrderbookSide && 1 <= capacity
                    <= crate::slab::MAX_SLAB_CAPACITY && side != 0 && side != 1)
            },
        },
{
    let slab = match Slab::new(capacity, side) {
        Ok(s) => s,
        Err(e) => {
            return Err(e);
        },
    };
    let ob = OrderbookSide {
        side: if side == 0 {
            Side::Bid
        } else {
            Side::Ask
        },
        head: slab.head,
        free_head: slab.free_head,
        next_order_id: 1,
    };
    Ok((ob, slab))
}

/// Executable equality on sides.
fn side_eq(a: Side, b: Side) -> (r: bool)
    ensures
        r == (a == b),
{
    match (a, b) {
        (Side::Bid, Side::Bid) => true,
        (Side::Ask, Side::Ask) => true,
        _ => false,
    }
}

} // verus!
