//! Settlement: periodic funding applied to margin accounts, and draining
//! the event queue into position and collateral changes.
use crate::errors::ErrorCode;
use crate::event_queue::EventQueue;
use crate::math::clamp_i128;
use crate::math::div_trunc;
use crate::math::div_trunc_or_zero;
use crate::math::sat_add_i128;
use crate::math::sat_mul_i128;
use crate::math::sat_sub_i128;
use crate::order::lemma_u64_mul_fits;
use crate::state::opposite;
use crate::state::opposite_side;
use crate::state::MarginAccount;
use crate::state::MarginType;
use crate::state::Market;
use crate::state::OrderEvent;
use crate::state::Position;
use crate::state::Side;
use crate::state::EVENT_FILL;
use vstd::prelude::*;

verus! {

/// Funding owed on one position at `mark`: `(mark - entry) * qty / entry`
/// with truncating division and the engine's saturating 128-bit steps;
/// zero when the entry price is zero.
pub open spec fn funding_of(mark: int, entry: u64, qty: u64) -> int {
    if entry == 0 {
        0
    } else {
        div_trunc(clamp_i128(clamp_i128(mark - entry) * qty), entry as int)
    }
}

/// Executable counterpart of [`funding_of`].
fn funding_amount(mark: i128, entry: u64, qty: u64) -> (r: i128)
    ensures
        r as int == funding_of(mark as int, entry, qty),
{
    let e = entry as i128;
    let diff = sat_sub_i128(mark, e);
    let prod = sat_mul_i128(diff, qty as i128);
    div_trunc_or_zero(prod, e)
}

/// Net funding over a cross account's positions, folded in account order
/// with saturating accumulation: a long pays its funding, a short receives
/// it.
pub open spec fn net_funding_from(ps: Seq<Position>, mark: int, acc: int) -> int
    decreases ps.len(),
{
    if ps.len() == 0 {
        acc
    } else {
        let f = funding_of(mark, ps[0].entry_price, ps[0].qty);
        let acc2 = if ps[0].side == Side::Bid {
            clamp_i128(acc - f)
        } else {
            clamp_i128(acc + f)
        };
        net_funding_from(ps.drop_first(), mark, acc2)
    }
}

/// Net funding of a cross account.
pub open spec fn net_funding(ps: Seq<Position>, mark: int) -> int {
    net_funding_from(ps, mark, 0)
}

/// Funding credit of one position under isolated margining: minus its
/// funding for a long, plus for a short.
pub open spec fn isolated_credit(p: Position, mark: int) -> int {
    let f = funding_of(mark, p.entry_price, p.qty);
    if p.side == Side::Bid {
        -f
    } else {
        f
    }
}

/// Funding applied position by position under isolated margining. A
/// debited position without the collateral to cover it fails the whole
/// settlement with `InsufficientCollateral`; credits saturate at the
/// ledger's capacity.
pub open spec fn isolated_result(ps: Seq<Position>, mark: int) -> Result<Seq<Position>, ErrorCode>
    decreases ps.len(),
{
    if ps.len() == 0 {
        Ok(Seq::empty())
    } else {
        let credit = isolated_credit(ps[0], mark);
        if credit < 0 && ps[0].collateral < -credit {
            Err(ErrorCode::InsufficientCollateral)
        } else {
            let c2 = if ps[0].collateral + credit <= u64::MAX {
                (ps[0].collateral + credit) as u64
            } else {
                u64::MAX
            };
            match isolated_result(ps.drop_first(), mark) {
                Ok(rest) => Ok(seq![Position { collateral: c2, ..ps[0] }] + rest),
                Err(e) => Err(e),
            }
        }
    }
}

/// Apply a signed funding credit to a collateral balance: a debit must be
/// covered, a credit saturates.
fn apply_credit(collateral: u64, f: i128, is_bid: bool) -> (r: Result<u64, ErrorCode>)
    ensures
        ({
            let credit = if is_bid {
                -(f as int)
            } else {
                f as int
            };
            match r {
                Ok(c2) => {
                    &&& (credit >= 0 || collateral >= -credit)
                    &&& c2 as int == (if collateral + credit <= u64::MAX {
                        collateral + credit
                    } else {
                        u64::MAX as int
                    })
                },
                Err(e) => {
                    &&& e == ErrorCode::InsufficientCollateral
                    &&& credit < 0
                    &&& collateral < -credit
                },
            }
        }),
{
    let debit: bool = if is_bid {
        f > 0
    } else {
        f < 0
    };
    if debit {
        // The position pays |f|.
        if !is_bid && f == i128::MIN {
            // The debt exceeds any u64 balance.
            return Err(ErrorCode::InsufficientCollateral);
        }
        let owed: i128 = if is_bid {
            f
        } else {
            -f
        };
        if (collateral as i128) < owed {
            Err(ErrorCode::InsufficientCollateral)
        } else {
            Ok(collateral - (owed as u64))
        }
    } else {
        // The position receives |f|, saturating.
        if is_bid {
            // credit == -f with f <= 0.
            if f == i128::MIN || -f >= (u64::MAX as i128) {
                Ok(u64::MAX)
            } else {
                Ok(collateral.saturating_add((-f) as u64))
            }
        } else {
            // credit == f with f >= 0.
            if f >= (u64::MAX as i128) {
                Ok(u64::MAX)
            } else {
                Ok(collateral.saturating_add(f as u64))
            }
        }
    }
}

/// Settle one funding period against a margin account at `mark_price`.
///
/// Under cross margining the positions' funding flows are netted and
/// applied to the shared collateral: a net debit the collateral cannot
/// cover fails with `InsufficientCollateral` and changes nothing. Under
/// isolated margining each position's own collateral pays or receives its
/// funding, with the same gate per position. On success the market's
/// `last_funding_timestamp` becomes `now`.
///
/// Absent saturation, the cross collateral moves by exactly the net
/// funding: the third `Cross` clause below.
pub fn settle_funding(
    margin: &mut MarginAccount,
    market: &mut Market,
    mark_price: i128,
    now: i64,
) -> (r: Result<(), ErrorCode>)
    ensures
        match r {
            Ok(_) => {
                let net = net_funding(old(margin).positions@, mark_price as int);
                &&& final(margin).owner == old(margin).owner
                &&& final(margin).margin_type == old(margin).margin_type
                &&& *final(market) == (Market { last_funding_timestamp: now, ..*old(market) })
                &&& (old(margin).margin_type == MarginType::Cross ==> {
                    &&& final(margin).positions == old(margin).positions
                    &&& (net >= 0 ==> final(margin).collateral as int == (if old(
                        margin,
                    ).collateral + net <= u64::MAX {
                        old(margin).collateral + net
                    } else {
                        u64::MAX as int
                    }))
                    &&& (net < 0 ==> old(margin).collateral >= -net && final(margin).collateral
                        as int == old(margin).collateral + net)
                    &&& ((-old(margin).collateral <= net && old(margin).collateral + net
                        <= u64::MAX) ==> final(margin).collateral as int == old(
                        margin,
                    ).collateral + net)
                })
                &&& (old(margin).margin_type == MarginType::Isolated ==> {
                    &&& final(margin).collateral == old(margin).collateral
                    &&& isolated_result(old(margin).positions@, mark_price as int) == Ok::<
                        Seq<Position>,
                        ErrorCode,
                    >(final(margin).positions@)
                })
            },
            Err(e) => {
                &&& *final(margin) == *old(margin)
                &&& *final(market) == *old(market)
                &&& e == ErrorCode::InsufficientCollateral
                &&& (old(margin).margin_type == MarginType::Cross ==> {
                    let net = net_funding(old(margin).positions@, mark_price as int);
                    net < 0 && old(margin).collateral < -net
                })
                &&& (old(margin).margin_type == MarginType::Isolated ==> isolated_result(
                    old(margin).positions@,
                    mark_price as int,
                ) == Err::<Seq<Position>, ErrorCode>(e))
            },
        },
{
    let ghost ps = margin.positions@;
    let is_cross = match margin.margin_type {
        MarginType::Cross => true,
        MarginType::Isolated => false,
    };
    proof {
        assert(is_cross == (margin.margin_type == MarginType::Cross));
        assert(margin.margin_type == MarginType::Cross || margin.margin_type
            == MarginType::Isolated);
    }
    if is_cross {
        let mut net: i128 = 0;
        let mut i: usize = 0;
        let n = margin.positions.len();
        proof {
            assert(ps.skip(0) =~= ps);
        }
        while i < n
            invariant
                0 <= i <= n,
                n == margin.positions.len(),
                ps == margin.positions@,
                net_funding(ps, mark_price as int) == net_funding_from(
                    ps.skip(i as int),
                    mark_price as int,
                    net as int,
                ),
            decreases n - i,
        {
            let p = margin.positions[i];
            let f = funding_amount(mark_price, p.entry_price, p.qty);
            proof {
                assert(ps.skip(i as int)[0] == ps[i as int]);
                assert(ps.skip(i as int).drop_first() =~= ps.skip(i + 1));
            }
            net = match p.side {
                Side::Bid => sat_sub_i128(net, f),
                Side::Ask => sat_add_i128(net, f),
            };
            i = i + 1;
        }
        proof {
            assert(ps.skip(n as int).len() == 0);
        }
        if net < 0 {
            let owed = if net == i128::MIN {
                // -net would overflow `i128`; the balance certainly cannot
                // cover it.
                return Err(ErrorCode::InsufficientCollateral);
            } else {
                -net
            };
            if (margin.collateral as i128) < owed {
                return Err(ErrorCode::InsufficientCollateral);
            }
            margin.collateral = margin.collateral - (owed as u64);
        } else {
            if net >= (u64::MAX as i128) {
                margin.collateral = u64::MAX;
            } else {
                margin.collateral = margin.collateral.saturating_add(net as u64);
            }
        }
    } else {
        let mut out: Vec<Position> = Vec::new();
        let mut i: usize = 0;
        let n = margin.positions.len();
        proof {
            assert(ps.skip(0) =~= ps);
            assert(out@ + Seq::<Position>::empty() =~= Seq::<Position>::empty());
        }
        while i < n
            invariant
                0 <= i <= n,
                n == margin.positions.len(),
                ps == margin.positions@,
                *margin == *old(margin),
                *market == *old(market),
                margin.margin_type == MarginType::Isolated,
                isolated_result(ps, mark_price as int) == (match isolated_result(
                    ps.skip(i as int),
                    mark_price as int,
                ) {
                    Ok(rest) => Ok::<Seq<Position>, ErrorCode>(out@ + rest),
                    Err(e) => Err(e),
                }),
            decreases n - i,
        {
            let p = margin.positions[i];
            let f = funding_amount(mark_price, p.entry_price, p.qty);
            let is_bid = match p.side {
                Side::Bid => true,
                Side::Ask => false,
            };
            proof {
                assert(ps.skip(i as int)[0] == ps[i as int]);
                assert(ps.skip(i as int).drop_first() =~= ps.skip(i + 1));
            }
            let c2 = match apply_credit(p.collateral, f, is_bid) {
                Ok(c) => c,
                Err(e) => {
                    proof {
                        assert(isolated_credit(p, mark_price as int) == (if is_bid {
                            -(f as int)
                        } else {
                            f as int
                        }));
                        assert(isolated_result(ps.skip(i as int), mark_price as int) == Err::<
                            Seq<Position>,
                            ErrorCode,
                        >(ErrorCode::InsufficientCollateral));
                    }
                    return Err(e);
                },
            };
            let p2 = Position {
                key: p.key,
                qty: p.qty,
                entry_price: p.entry_price,
                side: p.side,
                collateral: c2,
            };
            let ghost out_old = out@;
            out.push(p2);
            proof {
                assert(p2 == Position { collateral: c2, ..p });
                match isolated_result(ps.skip(i + 1), mark_price as int) {
                    Ok(rest) => {
                        assert((out_old + (seq![p2] + rest)) =~= (out@ + rest));
                    },
                    Err(_) => {},
                }
            }
            i = i + 1;
        }
        proof {
            assert(ps.skip(n as int).len() == 0);
            assert(out@ + Seq::<Position>::empty() =~= out@);
        }
        margin.positions = out;
    }
    market.last_funding_timestamp = now;
    Ok(())
}

/// First position with order id `key`, or the list's length if none rests
/// under it.
pub open spec fn find_position(ps: Seq<Position>, key: u128) -> int
    decreases ps.len(),
{
    if ps.len() == 0 {
        0
    } else if ps[0].key == key {
        0
    } else {
        1 + find_position(ps.drop_first(), key)
    }
}

/// A scan that saw no match before `i` and a match at `i` (or none at all)
/// identifies [`find_position`].
proof fn lemma_find_position_from_bounds(ps: Seq<Position>, key: u128, i: int)
    requires
        0 <= i <= ps.len(),
        forall|j: int| 0 <= j < i ==> (#[trigger] ps[j]).key != key,
        i < ps.len() ==> ps[i].key == key,
    ensures
        find_position(ps, key) == i,
    decreases ps.len(),
{
    if ps.len() == 0 {
    } else if ps[0].key == key {
        assert(i == 0);
    } else {
        assert(i >= 1);
        assert forall|j: int| 0 <= j < i - 1 implies (#[trigger] ps.drop_first()[j]).key != key by {
            assert(ps.drop_first()[j] == ps[j + 1]);
        }
        if i - 1 < ps.drop_first().len() {
            assert(ps.drop_first()[i - 1] == ps[i]);
        }
        lemma_find_position_from_bounds(ps.drop_first(), key, i - 1);
    }
}

/// Scan a position list for `key`.
fn find_position_exec(ps: &Vec<Position>, key: u128) -> (j: usize)
    ensures
        j as int == find_position(ps@, key),
        j <= ps.len(),
        j < ps.len() ==> ps@[j as int].key == key,
        forall|l: int| 0 <= l < j ==> (#[trigger] ps@[l]).key != key,
{
    let mut j: usize = 0;
    let n = ps.len();
    while j < n
        invariant
            0 <= j <= n,
            n == ps.len(),
            forall|l: int| 0 <= l < j ==> (#[trigger] ps@[l]).key != key,
        decreases n - j,
    {
        if ps[j].key == key {
            proof {
                lemma_find_position_from_bounds(ps@, key, j as int);
            }
            return j;
        }
        j = j + 1;
    }
    proof {
        lemma_find_position_from_bounds(ps@, key, n as int);
    }
    n
}

/// The maker's side of one fill: the filled quantity leaves the position
/// under the fill's key, saturating at zero; an absent key changes
/// nothing.
pub open spec fn apply_maker(ps: Seq<Position>, ev: OrderEvent) -> Seq<Position> {
    let j = find_position(ps, ev.key);
    if j < ps.len() {
        ps.update(
            j,
            Position {
                qty: (if ps[j].qty >= ev.qty {
                    (ps[j].qty - ev.qty) as u64
                } else {
                    0u64
                }),
                ..ps[j]
            },
        )
    } else {
        ps
    }
}

/// The taker's side of one fill: the filled quantity joins the position
/// under the fill's key, saturating at the ledger's capacity; an absent
/// key opens a new position at the fill price on `taker_side`.
pub open spec fn apply_taker(ps: Seq<Position>, ev: OrderEvent, taker_side: Side) -> Seq<Position> {
    let j = find_position(ps, ev.key);
    if j < ps.len() {
        ps.update(
            j,
            Position {
                qty: (if ps[j].qty + ev.qty <= u64::MAX {
                    (ps[j].qty + ev.qty) as u64
                } else {
                    u64::MAX
                }),
                ..ps[j]
            },
        )
    } else {
        ps.push(
            Position {
                key: ev.key,
                qty: ev.qty,
                entry_price: ev.price,
                side: taker_side,
                collateral: 0,
            },
        )
    }
}

/// Executable counterpart of [`apply_maker`].
fn apply_maker_exec(ps: &mut Vec<Position>, ev: &OrderEvent)
    ensures
        final(ps)@ == apply_maker(old(ps)@, *ev),
{
    let j = find_position_exec(ps, ev.key);
    if j < ps.len() {
        let p = ps[j];
        ps[j] =
        Position {
            key: p.key,
            qty: p.qty.saturating_sub(ev.qty),
            entry_price: p.entry_price,
            side: p.side,
            collateral: p.collateral,
        };
    }
}

/// Executable counterpart of [`apply_taker`].
fn apply_taker_exec(ps: &mut Vec<Position>, ev: &OrderEvent, taker_side: Side)
    ensures
        final(ps)@ == apply_taker(old(ps)@, *ev, taker_side),
{
    let j = find_position_exec(ps, ev.key);
    if j < ps.len() {
        let p = ps[j];
        ps[j] =
        Position {
            key: p.key,
            qty: p.qty.saturating_add(ev.qty),
            entry_price: p.entry_price,
            side: p.side,
            collateral: p.collateral,
        };
    } else {
        ps.push(
            Position {
                key: ev.key,
                qty: ev.qty,
                entry_price: ev.price,
                side: taker_side,
                collateral: 0,
            },
        );
    }
}

/// The two accounts as settlement folds over them: maker collateral, maker
/// positions, taker collateral, taker positions.
pub open spec fn settle_step(
    st: (u64, Seq<Position>, u64, Seq<Position>),
    ev: OrderEvent,
    taker_side: Side,
) -> Result<(u64, Seq<Position>, u64, Seq<Position>), ErrorCode> {
    if ev.event_type != EVENT_FILL {
        Ok(st)
    } else {
        let amt = ev.price * ev.qty;
        if amt > u64::MAX {
            Err(ErrorCode::Overflow)
        } else if st.2 < amt {
            Err(ErrorCode::InsufficientCollateral)
        } else if st.0 + amt > u64::MAX {
            Err(ErrorCode::Overflow)
        } else {
            Ok(
                (
                    (st.0 + amt) as u64,
                    apply_maker(st.1, ev),
                    (st.2 - amt) as u64,
                    apply_taker(st.3, ev, taker_side),
                ),
            )
        }
    }
}

/// Settlement folded over a run of events; the first failing event aborts
/// the whole run.
pub open spec fn settle_events(
    st: (u64, Seq<Position>, u64, Seq<Position>),
    evs: Seq<OrderEvent>,
    taker_side: Side,
) -> Result<(u64, Seq<Position>, u64, Seq<Position>), ErrorCode>
    decreases evs.len(),
{
    if evs.len() == 0 {
        Ok(st)
    } else {
        match settle_step(st, evs[0], taker_side) {
            Ok(st2) => settle_events(st2, evs.drop_first(), taker_side),
            Err(e) => Err(e),
        }
    }
}

/// Folding one more event applies one more step.
proof fn lemma_settle_events_push(
    st: (u64, Seq<Position>, u64, Seq<Position>),
    evs: Seq<OrderEvent>,
    ev: OrderEvent,
    taker_side: Side,
)
    ensures
        settle_events(st, evs.push(ev), taker_side) == (match settle_events(st, evs, taker_side) {
            Ok(st2) => settle_step(st2, ev, taker_side),
            Err(e) => Err(e),
        }),
    decreases evs.len(),
{
    let s2 = evs.push(ev);
    assert(s2.len() == evs.len() + 1);
    if evs.len() == 0 {
        assert(s2[0] == ev);
        assert(s2.drop_first() =~= Seq::<OrderEvent>::empty());
        match settle_step(st, ev, taker_side) {
            Ok(st2) => {
                assert(settle_events(st2, s2.drop_first(), taker_side) == Ok::<
                    (u64, Seq<Position>, u64, Seq<Position>),
                    ErrorCode,
                >(st2));
            },
            Err(_) => {},
        }
        assert(settle_events(st, evs, taker_side) == Ok::<
            (u64, Seq<Position>, u64, Seq<Position>),
            ErrorCode,
        >(st));
    } else {
        assert(s2[0] == evs[0]);
        assert(s2.drop_first() =~= evs.drop_first().push(ev));
        match settle_step(st, evs[0], taker_side) {
            Ok(st2) => {
                lemma_settle_events_push(st2, evs.drop_first(), ev, taker_side);
                assert(settle_events(st, s2, taker_side) == settle_events(
                    st2,
                    s2.drop_first(),
                    taker_side,
                ));
                assert(settle_events(st2, s2.drop_first(), taker_side) == settle_events(
                    st2,
                    evs.drop_first().push(ev),
                    taker_side,
                ));
                assert(settle_events(st, evs, taker_side) == settle_events(
                    st2,
                    evs.drop_first(),
                    taker_side,
                ));
            },
            Err(e0) => {
                assert(settle_events(st, s2, taker_side) == Err::<
                    (u64, Seq<Position>, u64, Seq<Position>),
                    ErrorCode,
                >(e0));
                assert(settle_events(st, evs, taker_side) == Err::<
                    (u64, Seq<Position>, u64, Seq<Position>),
                    ErrorCode,
                >(e0));
            },
        }
    }
}

/// Positions with zero quantity are dropped at the end of settlement.
pub open spec fn retain_positive(ps: Seq<Position>) -> Seq<Position>
    decreases ps.len(),
{
    if ps.len() == 0 {
        Seq::empty()
    } else if ps[0].qty > 0 {
        seq![ps[0]] + retain_positive(ps.drop_first())
    } else {
        retain_positive(ps.drop_first())
    }
}

/// Executable counterpart of [`retain_positive`].
fn retain_exec(ps: &Vec<Position>) -> (r: Vec<Position>)
    ensures
        r@ == retain_positive(ps@),
{
    let mut out: Vec<Position> = Vec::new();
    let mut i: usize = 0;
    let n = ps.len();
    proof {
        assert(ps@.skip(0) =~= ps@);
        assert(out@ + retain_positive(ps@) =~= retain_positive(ps@));
    }
    while i < n
        invariant
            0 <= i <= n,
            n == ps.len(),
            retain_positive(ps@) == out@ + retain_positive(ps@.skip(i as int)),
        decreases n - i,
    {
        let p = ps[i];
        proof {
            assert(ps@.skip(i as int)[0] == ps@[i as int]);
            assert(ps@.skip(i as int).drop_first() =~= ps@.skip(i + 1));
        }
        if p.qty > 0 {
            out.push(p);
            proof {
                assert(out@.drop_last().push(p) =~= out@);
                assert((out@.drop_last() + (seq![p] + retain_positive(ps@.skip(i + 1)))) =~= (out@
                    + retain_positive(ps@.skip(i + 1))));
            }
        }
        i = i + 1;
    }
    proof {
        assert(ps@.skip(n as int).len() == 0);
        assert(out@ + Seq::<Position>::empty() =~= out@);
    }
    out
}

/// Copy a position list.
fn copy_positions(src: &Vec<Position>) -> (r: Vec<Position>)
    ensures
        r@ == src@,
{
    let mut out: Vec<Position> = Vec::new();
    let mut i: usize = 0;
    let n = src.len();
    while i < n
        invariant
            0 <= i <= n,
            n == src.len(),
            out@ == src@.take(i as int),
        decreases n - i,
    {
        out.push(src[i]);
        proof {
            assert(src@.take(i + 1) =~= src@.take(i as int).push(src@[i as int]));
        }
        i = i + 1;
    }
    proof {
        assert(src@.take(n as int) =~= src@);
    }
    out
}

/// Drain the event queue into the two margin accounts.
///
/// Each fill record moves `price * qty` quote units from the taker's
/// collateral to the maker's, shrinks the maker's position under the
/// fill's key and grows (or opens) the taker's; placement records are
/// informational and skipped. After the drain, positions left with zero
/// quantity are dropped from both accounts and the queue is empty. The
/// first failing record fails the whole call and nothing changes.
#[verifier::rlimit(100)]
pub fn settle_fills(
    queue: &mut EventQueue,
    maker: &mut MarginAccount,
    taker: &mut MarginAccount,
    book_side: Side,
) -> (r: Result<(), ErrorCode>)
    requires
        old(queue).wf(),
    ensures
        ({
            let ts = opposite_side(book_side);
            let st0 = (
                old(maker).collateral,
                old(maker).positions@,
                old(taker).collateral,
                old(taker).positions@,
            );
            let res = settle_events(st0, old(queue).live(), ts);
            match r {
                Ok(_) => {
                    &&& res is Ok
                    &&& final(maker).collateral == res->Ok_0.0
                    &&& final(maker).positions@ == retain_positive(res->Ok_0.1)
                    &&& final(taker).collateral == res->Ok_0.2
                    &&& final(taker).positions@ == retain_positive(res->Ok_0.3)
                    &&& final(maker).owner == old(maker).owner
                    &&& final(maker).margin_type == old(maker).margin_type
                    &&& final(taker).owner == old(taker).owner
                    &&& final(taker).margin_type == old(taker).margin_type
                    &&& final(queue).wf()
                    &&& final(queue).cap() == old(queue).cap()
                    &&& final(queue).live() == Seq::<OrderEvent>::empty()
                    &&& final(queue).head == final(queue).tail
                },
                Err(e) => {
                    &&& res == Err::<(u64, Seq<Position>, u64, Seq<Position>), ErrorCode>(e)
                    &&& *final(queue) == *old(queue)
                    &&& *final(maker) == *old(maker)
                    &&& *final(taker) == *old(taker)
                },
            }
        }),
{
    let ts = opposite(book_side);
    let ghost live = queue.live();
    let ghost st0 = (maker.collateral, maker.positions@, taker.collateral, taker.positions@);
    let mut mk_col = maker.collateral;
    let mut tk_col = taker.collateral;
    let mut mk_ps = copy_positions(&maker.positions);
    let mut tk_ps = copy_positions(&taker.positions);
    let total = queue.len();
    let mut i: u32 = 0;
    proof {
        assert(live.take(0) =~= Seq::<OrderEvent>::empty());
    }
    while i < total
        invariant
            queue.wf(),
            *queue == *old(queue),
            live == queue.live(),
            total as int == live.len(),
            0 <= i <= total,
            st0 == (
                old(maker).collateral,
                old(maker).positions@,
                old(taker).collateral,
                old(taker).positions@,
            ),
            ts == opposite_side(book_side),
            settle_events(st0, live.take(i as int), ts) == Ok::<
                (u64, Seq<Position>, u64, Seq<Position>),
                ErrorCode,
            >((mk_col, mk_ps@, tk_col, tk_ps@)),
        decreases total - i,
    {
        let ev = queue.get_live(i);
        proof {
            lemma_settle_events_push(st0, live.take(i as int), ev, ts);
            assert(live.take(i + 1) =~= live.take(i as int).push(ev));
        }
        if ev.event_type == EVENT_FILL {
            proof {
                lemma_u64_mul_fits(ev.price, ev.qty);
            }
            let amt128 = (ev.price as u128) * (ev.qty as u128);
            if amt128 > (u64::MAX as u128) {
                proof {
                    lemma_settle_events_take_err(st0, live, ts, i + 1);
                }
                return Err(ErrorCode::Overflow);
            }
            let amt = amt128 as u64;
            if tk_col < amt {
                proof {
                    lemma_settle_events_take_err(st0, live, ts, i + 1);
                }
                return Err(ErrorCode::InsufficientCollateral);
            }
            mk_col = match mk_col.checked_add(amt) {
                Some(v) => v,
                None => {
                    proof {
                        lemma_settle_events_take_err(st0, live, ts, i + 1);
                    }
                    return Err(ErrorCode::Overflow);
                },
            };
            tk_col = tk_col - amt;
            apply_maker_exec(&mut mk_ps, &ev);
            apply_taker_exec(&mut tk_ps, &ev, ts);
        }
        i = i + 1;
    }
    proof {
        assert(live.take(total as int) =~= live);
    }
    maker.collateral = mk_col;
    let mk_kept = retain_exec(&mk_ps);
    maker.positions = mk_kept;
    taker.collateral = tk_col;
    let tk_kept = retain_exec(&tk_ps);
    taker.positions = tk_kept;
    queue.consume_all();
    Ok(())
}

/// An error reached within a prefix of the run is the run's error.
proof fn lemma_settle_events_take_err(
    st: (u64, Seq<Position>, u64, Seq<Position>),
    evs: Seq<OrderEvent>,
    taker_side: Side,
    k: int,
)
    requires
        0 <= k <= evs.len(),
        settle_events(st, evs.take(k), taker_side) is Err,
    ensures
        settle_events(st, evs, taker_side) == settle_events(st, evs.take(k), taker_side),
    decreases evs.len() - k,
{
    if k == evs.len() {
        assert(evs.take(k) =~= evs);
    } else {
        lemma_settle_events_push(st, evs.take(k), evs[k], taker_side);
        assert(evs.take(k + 1) =~= evs.take(k).push(evs[k]));
        lemma_settle_events_take_err(st, evs, taker_side, k + 1);
    }
}

/// Quote units a run of events transfers from taker to maker: the sum of
/// `price * qty` over its fill records.
pub open spec fn transfer_total(evs: Seq<OrderEvent>) -> int
    decreases evs.len(),
{
    if evs.len() == 0 {
        0
    } else {
        (if evs[0].event_type == EVENT_FILL {
            evs[0].price * evs[0].qty
        } else {
            0
        }) + transfer_total(evs.drop_first())
    }
}

/// Settlement conserves quote: the maker gains exactly what the taker
/// pays, so the sum of the two collateral balances is unchanged.
pub proof fn lemma_settlement_conserves_quote(
    st: (u64, Seq<Position>, u64, Seq<Position>),
    evs: Seq<OrderEvent>,
    taker_side: Side,
)
    requires
        settle_events(st, evs, taker_side) is Ok,
    ensures
        ({
            let st2 = settle_events(st, evs, taker_side)->Ok_0;
            &&& st2.0 == st.0 + transfer_total(evs)
            &&& st2.2 == st.2 - transfer_total(evs)
            &&& st2.0 + st2.2 == st.0 + st.2
        }),
    decreases evs.len(),
{
    if evs.len() == 0 {
    } else {
        match settle_step(st, evs[0], taker_side) {
            Ok(st1) => {
                lemma_settlement_conserves_quote(st1, evs.drop_first(), taker_side);
            },
            Err(_) => {},
        }
    }
}

} // verus!
