//! Liquidation: when an account's health falls below the maintenance
//! margin ratio, its positions are unwound against the book, a protocol
//! fee is carved out for the liquidator, and the residual proceeds become
//! the account's collateral.
use crate::errors::ErrorCode;
use crate::math::clamp_i128;
use crate::math::clamp_u128;
use crate::math::div_trunc;
use crate::math::div_trunc_or_zero;
use crate::math::sat_add_i128;
use crate::math::sat_mul_i128;
use crate::math::sat_sub_i128;
use crate::order::book_after_fills;
use crate::order::lemma_book_after_keys;
use crate::order::lemma_u64_mul_fits;
use crate::order::match_fills;
use crate::order::ob_slab_wf;
use crate::slab::view_of;
use crate::slab::OrderView;
use crate::slab::Slab;
use crate::state::MarginAccount;
use crate::state::MarketParams;
use crate::state::OrderEvent;
use crate::state::OrderbookSide;
use crate::state::Position;
use crate::state::Side;
use vstd::prelude::*;

verus! {

/// Mark-to-market profit of one position: `(mark - entry) * qty`, positive
/// for a long in a rising market, negated for a short, with the engine's
/// saturating steps.
pub open spec fn position_pnl(p: Position, mark: int) -> int {
    let prod = clamp_i128(clamp_i128(mark - p.entry_price) * p.qty);
    if p.side == Side::Bid {
        prod
    } else {
        clamp_i128(-prod)
    }
}

/// Equity folded over the positions, starting from the collateral.
pub open spec fn equity_from(ps: Seq<Position>, mark: int, acc: int) -> int
    decreases ps.len(),
{
    if ps.len() == 0 {
        acc
    } else {
        equity_from(ps.drop_first(), mark, clamp_i128(acc + position_pnl(ps[0], mark)))
    }
}

/// Gross exposure folded over the positions: the sum of `entry * qty`,
/// each term and the running sum saturating.
pub open spec fn notional_from(ps: Seq<Position>, acc: int) -> int
    decreases ps.len(),
{
    if ps.len() == 0 {
        acc
    } else {
        notional_from(
            ps.drop_first(),
            clamp_i128(acc + clamp_i128(ps[0].entry_price * ps[0].qty)),
        )
    }
}

/// Account health in basis points: equity over notional, or zero for an
/// account without exposure.
pub open spec fn health_of(collateral: u64, ps: Seq<Position>, mark: int) -> int {
    let equity = equity_from(ps, mark, collateral as int);
    let notional = notional_from(ps, 0);
    if notional > 0 {
        div_trunc(clamp_i128(equity * 10_000), notional)
    } else {
        0
    }
}

/// Total base quantity held across the positions.
pub open spec fn total_position_qty(ps: Seq<Position>) -> int
    decreases ps.len(),
{
    if ps.len() == 0 {
        0
    } else {
        ps[0].qty + total_position_qty(ps.drop_first())
    }
}

/// Appending a position adds its quantity.
proof fn lemma_total_qty_push(ps: Seq<Position>, p: Position)
    ensures
        total_position_qty(ps.push(p)) == total_position_qty(ps) + p.qty,
    decreases ps.len(),
{
    let s2 = ps.push(p);
    assert(total_position_qty(s2) == s2[0].qty + total_position_qty(s2.drop_first()));
    if ps.len() == 0 {
        assert(s2[0] == p);
        assert(s2.drop_first() =~= Seq::<Position>::empty());
    } else {
        assert(s2[0] == ps[0]);
        assert(s2.drop_first() =~= ps.drop_first().push(p));
        lemma_total_qty_push(ps.drop_first(), p);
    }
}

/// The total quantity is bounded by the position count times the ledger
/// capacity.
proof fn lemma_total_qty_bound(ps: Seq<Position>)
    ensures
        0 <= total_position_qty(ps) <= ps.len() * u64::MAX,
    decreases ps.len(),
{
    if ps.len() == 0 {
    } else {
        lemma_total_qty_bound(ps.drop_first());
        assert((ps.len() - 1) * u64::MAX + u64::MAX == ps.len() * u64::MAX) by (nonlinear_arith);
        assert(ps.len() * u64::MAX >= 0) by (nonlinear_arith)
            requires
                ps.len() >= 0,
        ;
    }
}

/// Proceeds of a run of fills folded with a saturating 128-bit sum of
/// `price * qty`.
pub open spec fn proceeds_acc(fills: Seq<OrderEvent>, acc: int) -> int
    decreases fills.len(),
{
    if fills.len() == 0 {
        acc
    } else {
        proceeds_acc(fills.drop_first(), clamp_u128(acc + fills[0].price * fills[0].qty))
    }
}

/// Proceeds of a run of fills.
pub open spec fn proceeds_of(fills: Seq<OrderEvent>) -> int {
    proceeds_acc(fills, 0)
}

/// What a successful liquidation hands out: the gross unwind proceeds and
/// the fee paid to the liquidator; the account keeps `proceeds - fee`.
#[derive(Clone, Copy, Debug)]
pub struct LiquidationOutcome {
    pub proceeds: u64,
    pub fee: u64,
}

/// Walk the book read-only and compute the proceeds of unwinding `total`
/// base units against it.
#[verifier::rlimit(100)]
fn unwind_proceeds(slab: &Slab, total: u128) -> (r: u128)
    requires
        slab.wf(),
    ensures
        r as int == proceeds_of(match_fills(slab.book_view(), total)),
{
    let ghost book = slab.book_view();
    let ghost a = slab.active();
    let mut curr = slab.head;
    let mut rem: u128 = total;
    let mut acc: u128 = 0;
    let ghost mut i: int = 0int;
    proof {
        assert(book.skip(0) =~= book);
    }
    loop
        invariant
            slab.wf(),
            book == slab.book_view(),
            a == slab.active(),
            0 <= i <= a.len(),
            i < a.len() ==> curr as int == a[i],
            i == a.len() ==> curr == crate::slab::NULL_INDEX,
            proceeds_of(match_fills(book, total)) == proceeds_acc(
                match_fills(book.skip(i), rem),
                acc as int,
            ),
        decreases a.len() - i,
    {
        if rem == 0 {
            proof {
                assert(match_fills(book.skip(i), 0u128) =~= Seq::<OrderEvent>::empty());
            }
            return acc;
        }
        if curr == crate::slab::NULL_INDEX {
            proof {
                assert(book.skip(i).len() == 0);
                assert(match_fills(book.skip(i), rem) =~= Seq::<OrderEvent>::empty());
            }
            return acc;
        }
        proof {
            assert(0 <= a[i] < slab.cap());
            assert(book.skip(i)[0] == book[i]);
            assert(book[i] == view_of(slab.nodes@[a[i]]));
            assert(book.skip(i).drop_first() =~= book.skip(i + 1));
        }
        let n = slab.nodes[curr as usize];
        let fill: u64 = if rem < (n.qty as u128) {
            rem as u64
        } else {
            n.qty
        };
        proof {
            lemma_u64_mul_fits(n.price, fill);
            let sub = book.skip(i);
            let ev = crate::order::fill_of(book[i], fill);
            assert(match_fills(sub, rem) =~= seq![ev] + match_fills(
                book.skip(i + 1),
                (rem - fill) as u128,
            ));
            assert((seq![ev] + match_fills(book.skip(i + 1), (rem - fill) as u128))[0] == ev);
            assert((seq![ev] + match_fills(book.skip(i + 1), (rem - fill) as u128)).drop_first()
                =~= match_fills(book.skip(i + 1), (rem - fill) as u128));
            assert(proceeds_acc(match_fills(sub, rem), acc as int) == proceeds_acc(
                match_fills(book.skip(i + 1), (rem - fill) as u128),
                clamp_u128(acc + ev.price * ev.qty),
            ));
            i = i + 1;
        }
        acc = acc.saturating_add((n.price as u128) * (fill as u128));
        rem = rem - (fill as u128);
        curr = n.next;
    }
}

/// Unwind an under-collateralized account against the book.
///
/// The health gate is the sole authorization: an account whose health (in
/// basis points of its notional) is at or above
/// `params.maintenance_margin_ratio` fails with `HealthyAccount`. Below
/// it, the account's whole base quantity is matched against the book
/// best-first with no price limit; 0.5% of the proceeds go to the
/// liquidator as `fee`, every position is cleared, and the account's
/// collateral becomes `proceeds - fee`. Proceeds beyond the `u64` ledger
/// fail with `Overflow`. On failure nothing changes.
#[verifier::rlimit(100)]
pub fn liquidate(
    margin: &mut MarginAccount,
    ob: &mut OrderbookSide,
    slab: &mut Slab,
    params: &MarketParams,
    mark_price: i128,
) -> (r: Result<LiquidationOutcome, ErrorCode>)
    requires
        ob_slab_wf(*old(ob), *old(slab)),
    ensures
        ({
            let health = health_of(
                old(margin).collateral,
                old(margin).positions@,
                mark_price as int,
            );
            let total = total_position_qty(old(margin).positions@);
            let book0 = old(slab).book_view();
            let fills = match_fills(book0, total as u128);
            match r {
                Ok(out) => {
                    &&& health < params.maintenance_margin_ratio
                    &&& 0 <= total <= u128::MAX
                    &&& proceeds_of(fills) <= u64::MAX
                    &&& out.proceeds as int == proceeds_of(fills)
                    &&& out.fee == out.proceeds / 200
                    &&& final(margin).positions@ == Seq::<Position>::empty()
                    &&& final(margin).collateral == out.proceeds - out.fee
                    &&& final(margin).owner == old(margin).owner
                    &&& final(margin).margin_type == old(margin).margin_type
                    &&& ob_slab_wf(*final(ob), *final(slab))
                    &&& final(ob).side == old(ob).side
                    &&& final(ob).next_order_id == old(ob).next_order_id
                    &&& final(slab).side == old(slab).side
                    &&& final(slab).cap() == old(slab).cap()
                    &&& final(slab).book_view() == book_after_fills(book0, total as u128)
                },
                Err(e) => {
                    &&& *final(margin) == *old(margin)
                    &&& *final(ob) == *old(ob)
                    &&& *final(slab) == *old(slab)
                    &&& (e == ErrorCode::HealthyAccount <==> health
                        >= params.maintenance_margin_ratio)
                    &&& (e == ErrorCode::Overflow <==> health < params.maintenance_margin_ratio
                        && proceeds_of(fills) > u64::MAX)
                    &&& (e == ErrorCode::HealthyAccount || e == ErrorCode::Overflow)
                },
            }
        }),
{
    let ghost ps = margin.positions@;
    // Equity and notional, folded with saturating 128-bit arithmetic.
    let mut equity: i128 = margin.collateral as i128;
    let mut notional: i128 = 0;
    let mut i: usize = 0;
    let n = margin.positions.len();
    proof {
        assert(ps.skip(0) =~= ps);
    }
    while i < n
        invariant
            0 <= i <= n,
            n == margin.positions.len(),
            ps == margin.positions@,
            equity_from(ps, mark_price as int, old(margin).collateral as int) == equity_from(
                ps.skip(i as int),
                mark_price as int,
                equity as int,
            ),
            notional_from(ps, 0) == notional_from(ps.skip(i as int), notional as int),
            *margin == *old(margin),
        decreases n - i,
    {
        let p = margin.positions[i];
        proof {
            assert(ps.skip(i as int)[0] == ps[i as int]);
            assert(ps.skip(i as int).drop_first() =~= ps.skip(i + 1));
        }
        let diff = sat_sub_i128(mark_price, p.entry_price as i128);
        let prod = sat_mul_i128(diff, p.qty as i128);
        let pnl: i128 = match p.side {
            Side::Bid => prod,
            Side::Ask => if prod == i128::MIN {
                i128::MAX
            } else {
                -prod
            },
        };
        equity = sat_add_i128(equity, pnl);
        let term = sat_mul_i128(p.entry_price as i128, p.qty as i128);
        notional = sat_add_i128(notional, term);
        i = i + 1;
    }
    proof {
        assert(ps.skip(n as int).len() == 0);
    }
    let health: i128 = if notional > 0 {
        let scaled = sat_mul_i128(equity, 10_000);
        div_trunc_or_zero(scaled, notional)
    } else {
        0
    };
    if health >= (params.maintenance_margin_ratio as i128) {
        return Err(ErrorCode::HealthyAccount);
    }
    // Total base quantity to unwind.
    let mut total: u128 = 0;
    let mut j: usize = 0;
    proof {
        assert(ps.take(0) =~= Seq::<Position>::empty());
        lemma_total_qty_bound(ps);
    }
    while j < n
        invariant
            0 <= j <= n,
            n == margin.positions.len(),
            ps == margin.positions@,
            total as int == total_position_qty(ps.take(j as int)),
            *margin == *old(margin),
        decreases n - j,
    {
        let p = margin.positions[j];
        proof {
            assert(ps.take(j + 1) =~= ps.take(j as int).push(p));
            lemma_total_qty_push(ps.take(j as int), p);
            lemma_total_qty_bound(ps.take(j + 1));
            assert(ps.take(j + 1).len() * u64::MAX <= ps.len() * u64::MAX) by (nonlinear_arith)
                requires
                    0 <= ps.take(j + 1).len() <= ps.len(),
            ;
            assert(ps.len() * u64::MAX < u128::MAX) by (nonlinear_arith)
                requires
                    0 <= ps.len() < 0x1_0000_0000_0000_0000,
            ;
        }
        total = total + (p.qty as u128);
        j = j + 1;
    }
    proof {
        assert(ps.take(n as int) =~= ps);
    }
    // First pass, read-only: the proceeds the unwind would realize.
    let proceeds128 = unwind_proceeds(slab, total);
    if proceeds128 > (u64::MAX as u128) {
        return Err(ErrorCode::Overflow);
    }
    let proceeds = proceeds128 as u64;
    // Second pass: consume the book.
    let ghost book0 = slab.book_view();
    let ghost side0 = slab.side;
    let mut rem: u128 = total;
    loop
        invariant
            slab.wf(),
            slab.side == side0,
            slab.cap() == old(slab).cap(),
            book_after_fills(book0, total) == book_after_fills(slab.book_view(), rem),
        ensures
            slab.wf(),
            slab.side == side0,
            slab.cap() == old(slab).cap(),
            rem == 0 || slab.book_view().len() == 0,
            book_after_fills(book0, total) == book_after_fills(slab.book_view(), rem),
        decreases rem,
    {
        if rem == 0 {
            break ;
        }
        let idx = match slab.best() {
            None => {
                break ;
            },
            Some(k) => k,
        };
        let ghost pre = *slab;
        let ghost bk = slab.book_view();
        proof {
            assert(0 <= slab.active()[0] < slab.cap());
        }
        let node = slab.nodes[idx as usize];
        let fill: u64 = if rem < (node.qty as u128) {
            rem as u64
        } else {
            node.qty
        };
        proof {
            assert(node.qty > 0);
            assert(crate::slab::seq_find(pre.active(), idx as int) == 0) by {
                assert(pre.active()[0] == idx as int);
            }
        }
        match slab.reduce_order(idx, fill) {
            Ok(_) => {},
            Err(_) => {
                proof {
                    assert(false);
                }
            },
        }
        proof {
            let nv = view_of(pre.nodes@[idx as int]);
            assert(bk[0] == nv);
            if fill == node.qty {
                assert(slab.book_view() == crate::slab::seq_remove_at(bk, 0));
                assert(slab.book_view() =~= bk.drop_first());
                assert(book_after_fills(bk, rem) == book_after_fills(
                    slab.book_view(),
                    (rem - fill) as u128,
                ));
            } else {
                assert(slab.book_view() == bk.update(
                    0,
                    OrderView { qty: (node.qty - fill) as u64, ..nv },
                ));
                assert(book_after_fills(bk, rem) == slab.book_view());
                assert(book_after_fills(slab.book_view(), 0u128) == slab.book_view());
            }
        }
        rem = rem - (fill as u128);
    }
    // Fee and residual.
    let fee = proceeds / 200;
    proof {
        assert(proceeds / 200 <= proceeds) by (nonlinear_arith)
            requires
                proceeds >= 0,
        ;
    }
    let vault_cut = proceeds - fee;
    margin.positions = Vec::new();
    margin.collateral = vault_cut;
    ob.head = slab.head;
    ob.free_head = slab.free_head;
    proof {
        lemma_book_after_keys(book0, total, old(ob).next_order_id);
    }
    Ok(LiquidationOutcome { proceeds, fee })
}

} // verus!
