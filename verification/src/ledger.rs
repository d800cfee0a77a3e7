//! An average-cost position ledger. Each execution is applied at most once,
//! a reused execution key with different facts is refused, and every applied
//! fill keeps cash, position, open cost and realized profit consistent, so
//! that equity always equals starting cash plus realized and unrealized price
//! profit minus fees.

use vstd::prelude::*;

use crate::arith::{
    lemma_normalize, lemma_qadd_cancel, lemma_qadd_swap_middle, lemma_qmul_div, qdiv_int,
    qmul_int, lemma_qadd_assoc, lemma_qadd_comm, lemma_qadd_facts, lemma_qadd_neg, lemma_qadd_zero,
    lemma_qint_add, lemma_qint_reduced, lemma_qneg_add, lemma_qneg_reduced, qadd, qint, qneg,
    qsub, reduced, normalize,
};
use crate::domain::{
    ExecutionKey, KeyView, PriceTicks, QtyLots, Side, key_order, lemma_key_order_basics,
    lemma_key_order_transitive,
};
use crate::checksum::{
    FNV_OFFSET, fnv, fnv_feed_byte, fnv_feed_bytes, fnv_feed_i128, fnv_step, le_bytes, lemma_fnv_concat,
};
pub use crate::rational::Rational;
use vstd::utf8::encode_utf8;
use crate::render::push_text;
use crate::rational::{
    fits_i128, lemma_i64_product_fits, q_add_checked, q_div_int_checked, q_mul_int_checked,
    q_sub_checked,
};

verus! {

/// Why the ledger refused a fill or a computation.
#[derive(Debug, Clone, PartialEq, Eq)]
pub enum LedgerError {
    NegativeFee,
    ArithmeticOverflow,
    ConflictingExecution(ExecutionKey),
}

impl LedgerError {
    /// The human-readable message for this error.
    pub fn message(&self) -> (s: String)
        ensures
            s@ == match self {
                LedgerError::NegativeFee => "fill fee cannot be negative"@,
                LedgerError::ArithmeticOverflow => "ledger arithmetic overflow"@,
                LedgerError::ConflictingExecution(key) => "execution key was reused with different facts: "@
                    + key.venue@ + "/"@ + key.account@ + "/"@ + key.instrument@ + "/"@ + key.execution_id@,
            },
    {
        match self {
            LedgerError::NegativeFee => "fill fee cannot be negative".to_owned(),
            LedgerError::ArithmeticOverflow => "ledger arithmetic overflow".to_owned(),
            LedgerError::ConflictingExecution(key) => {
                let mut s = "execution key was reused with different facts: ".to_owned();
                push_text(&mut s, key.venue.as_str());
                push_text(&mut s, "/");
                push_text(&mut s, key.account.as_str());
                push_text(&mut s, "/");
                push_text(&mut s, key.instrument.as_str());
                push_text(&mut s, "/");
                push_text(&mut s, key.execution_id.as_str());
                s
            },
        }
    }
}

/// One execution report.
#[derive(Debug, Clone, PartialEq, Eq)]
pub struct Fill {
    pub key: ExecutionKey,
    pub side: Side,
    pub price: PriceTicks,
    pub qty: QtyLots,
    /// A non-negative cost in the same quote unit as `price_ticks * qty_lots`.
    pub fee_quote: i128,
}

/// The facts of one execution.
pub struct FillView {
    pub key: KeyView,
    pub side: Side,
    pub price: int,
    pub qty: int,
    pub fee: int,
}

impl View for Fill {
    type V = FillView;

    open spec fn view(&self) -> FillView {
        FillView { key: self.key@, side: self.side, price: self.price@, qty: self.qty@, fee: self.fee_quote as int }
    }
}

impl Fill {
    /// A copy with the same facts.
    pub fn duplicate(&self) -> (f: Fill)
        ensures
            f@ == self@,
    {
        Fill { key: self.key.duplicate(), side: self.side, price: self.price, qty: self.qty, fee_quote: self.fee_quote }
    }

    /// Whether both fills carry the same facts.
    pub fn same_facts(&self, other: &Fill) -> (r: bool)
        ensures
            r == (self@ == other@),
    {
        proof {
            PriceTicks::lemma_view_injective(self.price, other.price);
            QtyLots::lemma_view_injective(self.qty, other.qty);
        }
        self.key.same_as(&other.key) && self.side == other.side && self.price.get() == other.price.get()
            && self.qty.get() == other.qty.get() && self.fee_quote == other.fee_quote
    }
}

/// Whether a fill was newly applied or was a replay of an applied one.
#[derive(Debug, Clone, Copy, PartialEq, Eq, Structural)]
pub enum ApplyOutcome {
    Applied,
    Duplicate,
}

/// The ledger's state at one moment.
#[derive(Debug, Clone, PartialEq, Eq, Structural)]
pub struct LedgerSnapshot {
    pub position_lots: i64,
    pub cash_quote: i128,
    pub open_cost_quote: Rational,
    pub realized_price_pnl_quote: Rational,
    pub fees_quote: i128,
    pub execution_count: usize,
}

/// The mathematical content of a ledger.
pub struct LedgerView {
    pub starting_cash: int,
    pub position: int,
    pub cash: int,
    pub open_cost: (int, int),
    pub realized: (int, int),
    pub fees: int,
    /// The applied executions, in ascending key order.
    pub executions: Seq<FillView>,
}

/// The open cost signed by the direction of the position: positive for a
/// long, negated for a short.
pub open spec fn signed_open_cost(open_cost: (int, int), position: int) -> (int, int) {
    if position < 0 {
        qneg(open_cost)
    } else {
        open_cost
    }
}

/// The executions are listed in strictly ascending key order, so no key
/// occurs twice.
pub open spec fn sorted_by_key(executions: Seq<FillView>) -> bool {
    forall|i: int, j: int| 0 <= i < j < executions.len() ==> key_order(executions[i].key, executions[j].key) < 0
}

/// What every ledger keeps: sorted executions, both fractions in lowest
/// terms, a flat position with no open cost, and the cash identity
/// `cash - starting_cash + fees == realized - signed open cost`.
pub open spec fn ledger_inv(v: LedgerView) -> bool {
    &&& sorted_by_key(v.executions)
    &&& reduced(v.open_cost.0, v.open_cost.1)
    &&& reduced(v.realized.0, v.realized.1)
    &&& (v.position == 0 ==> v.open_cost == qint(0))
    &&& qint(v.cash - v.starting_cash + v.fees) == qsub(v.realized, signed_open_cost(v.open_cost, v.position))
    &&& i64::MIN <= v.position <= i64::MAX
    &&& fits_i128(v.cash) && fits_i128(v.fees) && fits_i128(v.starting_cash)
}

/// A position ledger with average-cost accounting.
#[derive(Debug, Clone)]
pub struct Ledger {
    starting_cash_quote: i128,
    position_lots: i64,
    cash_quote: i128,
    open_cost_quote: Rational,
    realized_price_pnl_quote: Rational,
    fees_quote: i128,
    executions: Vec<Fill>,
}

impl View for Ledger {
    type V = LedgerView;

    closed spec fn view(&self) -> LedgerView {
        LedgerView {
            starting_cash: self.starting_cash_quote as int,
            position: self.position_lots as int,
            cash: self.cash_quote as int,
            open_cost: self.open_cost_quote@,
            realized: self.realized_price_pnl_quote@,
            fees: self.fees_quote as int,
            executions: self.executions@.map_values(|f: Fill| f@),
        }
    }
}

/// The equity at `mark`: cash plus the position valued at the mark.
pub open spec fn equity_of(v: LedgerView, mark: int) -> int {
    v.cash + v.position * mark
}

/// The unrealized price profit at `mark` as the ledger computes it: `None`
/// on overflow.
pub open spec fn unrealized_of(v: LedgerView, mark: int) -> Option<(int, int)> {
    let marked = (if v.position < 0 { -v.position } else { v.position }) * mark;
    if !fits_i128(marked) {
        None
    } else if v.position >= 0 {
        q_sub_checked(qint(marked), v.open_cost)
    } else {
        q_sub_checked(v.open_cost, qint(marked))
    }
}

/// Whether every intermediate of the equity identity check fits in an `i128`.
pub open spec fn equity_check_fits(v: LedgerView, mark: int) -> bool {
    &&& fits_i128(equity_of(v, mark))
    &&& fits_i128(equity_of(v, mark) - v.starting_cash)
    &&& unrealized_of(v, mark) is Some
    &&& q_add_checked(v.realized, unrealized_of(v, mark)->Some_0) is Some
    &&& q_sub_checked(q_add_checked(v.realized, unrealized_of(v, mark)->Some_0)->Some_0, qint(v.fees)) is Some
}

/// Equity identity: for every ledger, equity at any mark minus starting cash
/// equals realized price profit plus unrealized price profit at that mark
/// minus fees, whenever the quantities fit the machine.
pub proof fn law_equity_identity(v: LedgerView, mark: int)
    requires
        ledger_inv(v),
        equity_check_fits(v, mark),
    ensures
        qsub(qadd(v.realized, unrealized_of(v, mark)->Some_0), qint(v.fees)) == qint(equity_of(v, mark)
            - v.starting_cash),
{
    let c = v.cash - v.starting_cash + v.fees;
    let o = v.open_cost;
    let r = v.realized;
    let p = v.position;
    let pm = p * mark;
    let u = unrealized_of(v, mark)->Some_0;
    lemma_qint_reduced(pm);
    lemma_qint_reduced(c);
    lemma_qneg_reduced(o);
    if p >= 0 {
        assert(u == qadd(qint(pm), qneg(o)));
        lemma_qadd_comm(qint(pm), qneg(o));
        lemma_qadd_assoc(r, qneg(o), qint(pm));
        lemma_qint_add(c, pm);
    } else {
        assert((-p) * mark == -(p * mark)) by (nonlinear_arith);
        assert(qneg(qint(-pm)) == qint(pm));
        assert(u == qadd(o, qint(pm)));
        assert(qneg(qneg(o)) == o);
        lemma_qadd_assoc(r, o, qint(pm));
        lemma_qint_add(c, pm);
    }
    assert(qneg(qint(v.fees)) == qint(-v.fees));
    lemma_qint_add(c + pm, -v.fees);
}

impl Ledger {
    /// Checks the equity identity at `mark`: equity minus starting cash equals
    /// realized plus unrealized price profit minus fees. Refused only when an
    /// intermediate overflows; when it answers, the answer is `true`.
    pub fn verify_equity_identity(&self, mark: PriceTicks) -> (result: Result<bool, LedgerError>)
        requires
            self.wf(),
        ensures
            result is Ok <==> equity_check_fits(self@, mark@),
            result matches Err(e) ==> e == LedgerError::ArithmeticOverflow,
            result matches Ok(b) ==> b,
    {
        let equity = match self.equity_quote(mark) {
            Ok(e) => e,
            Err(e) => return Err(e),
        };
        let change = match equity.checked_sub(self.starting_cash_quote) {
            Some(c) => c,
            None => return Err(LedgerError::ArithmeticOverflow),
        };
        let equity_change = Rational::from_integer(change);
        let unrealized = match self.unrealized_price_pnl_quote(mark) {
            Ok(u) => u,
            Err(e) => return Err(e),
        };
        let gross = match self.realized_price_pnl_quote.checked_add(unrealized) {
            Ok(g) => g,
            Err(e) => return Err(e),
        };
        let explained = match gross.checked_sub(Rational::from_integer(self.fees_quote)) {
            Ok(x) => x,
            Err(e) => return Err(e),
        };
        proof {
            law_equity_identity(self@, mark@);
            Rational::lemma_view_injective(equity_change, explained);
        }
        Ok(equity_change == explained)
    }
}

/// +1 for a buy, -1 for a sell.
pub open spec fn side_sign(side: Side) -> int {
    match side {
        Side::Buy => 1,
        Side::Sell => -1,
    }
}

/// The sign of an integer: -1, 0 or 1.
pub open spec fn sign_of(x: int) -> int {
    if x > 0 {
        1
    } else if x < 0 {
        -1
    } else {
        0
    }
}

/// The magnitude of an integer.
pub open spec fn magnitude(x: int) -> int {
    if x < 0 {
        -x
    } else {
        x
    }
}

/// The open cost and realized profit after a fill, by average-cost
/// accounting, as computed in `i128` fractions: `None` on overflow. A fill on
/// the side of the position (or from flat) adds its notional to the open
/// cost; a fill against it closes up to the whole position at the average
/// cost, realizes the difference to the fill price, and opens any remainder
/// at the fill price.
pub open spec fn position_update(
    position: int,
    open_cost: (int, int),
    realized: (int, int),
    side: Side,
    price: int,
    qty: int,
) -> Option<((int, int), (int, int))> {
    let ps = sign_of(position);
    if !fits_i128(price * qty) {
        None
    } else if ps == 0 || ps == side_sign(side) {
        match q_add_checked(open_cost, qint(price * qty)) {
            Some(o) => Some((o, realized)),
            None => None,
        }
    } else {
        let pa = magnitude(position);
        let close = if pa < qty { pa } else { qty };
        match q_div_int_checked(open_cost, pa) {
            None => None,
            Some(average) => match q_mul_int_checked(average, close) {
                None => None,
                Some(closed) => if !fits_i128(price * close) {
                    None
                } else {
                    let exit = qint(price * close);
                    let pnl = if ps > 0 { q_sub_checked(exit, closed) } else { q_sub_checked(closed, exit) };
                    match pnl {
                        None => None,
                        Some(pnl) => match q_add_checked(realized, pnl) {
                            None => None,
                            Some(r2) => match q_sub_checked(open_cost, closed) {
                                None => None,
                                Some(o1) => {
                                    let opening = qty - close;
                                    if opening > 0 {
                                        if fits_i128(price * opening) {
                                            Some((qint(price * opening), r2))
                                        } else {
                                            None
                                        }
                                    } else {
                                        Some((o1, r2))
                                    }
                                },
                            },
                        },
                    }
                },
            },
        }
    }
}

/// A normalized fraction denotes the fraction it came from and has a
/// positive denominator.
proof fn lemma_normalize_value(n: int, d: int)
    requires
        d != 0,
    ensures
        normalize(n, d).0 * d == n * normalize(n, d).1,
        normalize(n, d).1 > 0,
{
    lemma_normalize(n, d);
}

/// Cancels a positive common factor.
proof fn lemma_cancel(a: int, b: int, c: int)
    requires
        c > 0,
        a * c == b * c,
    ensures
        a == b,
{
    assert(a == b) by (nonlinear_arith)
        requires
            c > 0,
            a * c == b * c,
    ;
}

/// Scaling the profit relation of a close by the average cost's
/// denominator.
proof fn lemma_scaled_profit(p0: int, p1: int, c0: int, c1: int, e: int, x: int, on: int, close: int, price: int)
    requires
        p0 * c1 == (e * c1 - c0) * p1,
        c0 * x == on * close * c1,
        e == price * close,
        c1 > 0,
    ensures
        p0 * x == close * (price * x - on) * p1,
{
    assert((p0 * c1) * x == ((e * c1 - c0) * p1) * x);
    assert(((e * c1 - c0) * p1) * x == e * c1 * p1 * x - (c0 * x) * p1) by (nonlinear_arith);
    assert((c0 * x) * p1 == (on * close * c1) * p1);
    assert((p0 * x) * c1 == (p0 * c1) * x) by (nonlinear_arith);
    assert(e * c1 * p1 * x == (price * close) * c1 * p1 * x);
    let y = p1 * c1;
    let z = price * x;
    assert((price * close) * c1 * p1 * x == close * z * y) by (nonlinear_arith)
        requires
            y == p1 * c1,
            z == price * x,
    ;
    assert((on * close * c1) * p1 == close * on * y) by (nonlinear_arith)
        requires
            y == p1 * c1,
    ;
    assert((close * (price * x - on) * p1) * c1 == close * (z - on) * y) by (nonlinear_arith)
        requires
            y == p1 * c1,
            z == price * x,
    ;
    assert(close * z * y - close * on * y == close * (z - on) * y) by (nonlinear_arith);
    lemma_cancel(p0 * x, close * (price * x - on) * p1, c1);
}

/// Carries a profit relation through the addition to realized profit.
proof fn lemma_scaled_sum(a0: int, a1: int, r0: int, r1: int, p0: int, p1: int, x: int, k: int)
    requires
        a0 * (r1 * p1) == (r0 * p1 + p0 * r1) * a1,
        p0 * x == k * p1,
        p1 > 0,
    ensures
        (a0 * r1 - r0 * a1) * x == k * (a1 * r1),
{
    assert(a0 * (r1 * p1) == (a0 * r1) * p1) by (nonlinear_arith);
    assert((r0 * p1 + p0 * r1) * a1 == (r0 * a1) * p1 + (p0 * r1) * a1) by (nonlinear_arith);
    assert((a0 * r1 - r0 * a1) * p1 == (p0 * r1) * a1) by (nonlinear_arith)
        requires
            (a0 * r1) * p1 == (r0 * a1) * p1 + (p0 * r1) * a1,
    ;
    assert(((a0 * r1 - r0 * a1) * x) * p1 == ((a0 * r1 - r0 * a1) * p1) * x) by (nonlinear_arith);
    assert(((p0 * r1) * a1) * x == (p0 * x) * (r1 * a1)) by (nonlinear_arith);
    assert((p0 * x) * (r1 * a1) == (k * p1) * (r1 * a1));
    assert((k * p1) * (r1 * a1) == (k * (a1 * r1)) * p1) by (nonlinear_arith);
    lemma_cancel((a0 * r1 - r0 * a1) * x, k * (a1 * r1), p1);
}

/// The open cost left after a close, scaled by the average cost's
/// denominator.
proof fn lemma_scaled_remaining(o0: int, o1: int, on: int, od: int, c0: int, c1: int, x: int, pa: int, close: int)
    requires
        o0 * (od * c1) == (on * c1 + (-c0) * od) * o1,
        c0 * x == on * close * c1,
        x == od * pa,
        c1 > 0,
    ensures
        o0 * x == on * (pa - close) * o1,
{
    assert((o0 * x) * c1 == (o0 * (od * c1)) * pa) by (nonlinear_arith)
        requires
            x == od * pa,
    ;
    assert(((on * c1 + (-c0) * od) * o1) * pa == on * c1 * o1 * pa - (c0 * (od * pa)) * o1) by (nonlinear_arith);
    assert((c0 * (od * pa)) * o1 == (on * close * c1) * o1);
    assert(on * c1 * o1 * pa - (on * close * c1) * o1 == (on * (pa - close) * o1) * c1) by (nonlinear_arith);
    lemma_cancel(o0 * x, on * (pa - close) * o1, c1);
}

/// A fill on a flat position, or on the side the position already has, adds
/// its notional to the open cost and realizes nothing.
pub proof fn law_opening_fill_adds_to_cost(
    position: int,
    open_cost: (int, int),
    realized: (int, int),
    side: Side,
    price: int,
    qty: int,
)
    requires
        position == 0 || sign_of(position) == side_sign(side),
        open_cost.1 > 0,
        position_update(position, open_cost, realized, side, price, qty) is Some,
    ensures
        ({
            let (o2, r2) = position_update(position, open_cost, realized, side, price, qty)->Some_0;
            &&& r2 == realized
            &&& o2.0 * open_cost.1 == (open_cost.0 + price * qty * open_cost.1) * o2.1
            &&& o2.1 > 0
        }),
{
    let on = open_cost.0;
    let od = open_cost.1;
    let o2 = position_update(position, open_cost, realized, side, price, qty)->Some_0.0;
    lemma_normalize_value(on * 1 + (price * qty) * od, od * 1);
    assert(o2.0 * (od * 1) == (on * 1 + (price * qty) * od) * o2.1);
    assert(o2.0 * od == (on + price * qty * od) * o2.1) by (nonlinear_arith)
        requires
            o2.0 * (od * 1) == (on * 1 + (price * qty) * od) * o2.1,
    ;
}

/// A fill against the position closes `min(|position|, qty)` lots at the
/// average cost `open_cost / |position|`: realized profit grows by the closed
/// lots times (fill price - average cost) on a long and (average cost - fill
/// price) on a short. A partial or exact close leaves what remains at the
/// same average cost (so an exact close leaves no open cost); a fill larger
/// than the position opens the excess at the fill price.
pub proof fn law_closing_fill_uses_average_cost(
    position: int,
    open_cost: (int, int),
    realized: (int, int),
    side: Side,
    price: int,
    qty: int,
)
    requires
        position != 0,
        sign_of(position) == -side_sign(side),
        qty > 0,
        open_cost.1 > 0,
        realized.1 > 0,
        position_update(position, open_cost, realized, side, price, qty) is Some,
    ensures
        ({
            let (o2, r2) = position_update(position, open_cost, realized, side, price, qty)->Some_0;
            let pa = magnitude(position);
            let close = if pa < qty { pa } else { qty };
            let on = open_cost.0;
            let od = open_cost.1;
            &&& r2.1 > 0
            &&& (r2.0 * realized.1 - realized.0 * r2.1) * (od * pa) == sign_of(position) * close * (price * od * pa
                - on) * (r2.1 * realized.1)
            &&& qty <= pa ==> o2.1 > 0 && o2.0 * (od * pa) == on * (pa - close) * o2.1
            &&& qty > pa ==> o2 == qint(price * (qty - pa))
        }),
{
    let on = open_cost.0;
    let od = open_cost.1;
    let r0 = realized.0;
    let r1 = realized.1;
    let pa = magnitude(position);
    let close = if pa < qty { pa } else { qty };
    let ps = sign_of(position);
    let (o2, r2) = position_update(position, open_cost, realized, side, price, qty)->Some_0;
    assert(od * pa > 0) by (nonlinear_arith)
        requires
            od > 0,
            pa > 0,
    ;
    let avg = qdiv_int(open_cost, pa);
    lemma_normalize_value(on, od * pa);
    let a0 = avg.0;
    let a1 = avg.1;
    let closed = qmul_int(avg, close);
    lemma_normalize_value(a0 * close, a1);
    let c0 = closed.0;
    let c1 = closed.1;
    // the closed cost is close lots at the average cost
    assert(c0 * (od * pa) == on * close * c1) by {
        assert(c0 * a1 * (od * pa) == a0 * close * c1 * (od * pa)) by (nonlinear_arith)
            requires
                c0 * a1 == a0 * close * c1,
        ;
        assert(a0 * close * c1 * (od * pa) == on * close * c1 * a1) by (nonlinear_arith)
            requires
                a0 * (od * pa) == on * a1,
        ;
        assert((c0 * (od * pa)) * a1 == (on * close * c1) * a1) by (nonlinear_arith)
            requires
                c0 * a1 * (od * pa) == on * close * c1 * a1,
        ;
        lemma_cancel(c0 * (od * pa), on * close * c1, a1);
    }
    let exit = qint(price * close);
    let pnl = if ps > 0 { qsub(exit, closed) } else { qsub(closed, exit) };
    if ps > 0 {
        lemma_normalize_value((price * close) * c1 + (-c0) * 1, 1 * c1);
    } else {
        lemma_normalize_value(c0 * 1 + (-(price * close)) * c1, c1 * 1);
    }
    let p0 = pnl.0;
    let p1 = pnl.1;
    // the profit is the closed lots times the price difference, signed
    if ps > 0 {
        assert(p0 * c1 == (price * close * c1 - c0) * p1) by (nonlinear_arith)
            requires
                p0 * (1 * c1) == ((price * close) * c1 + (-c0) * 1) * p1,
        ;
        lemma_scaled_profit(p0, p1, c0, c1, price * close, od * pa, on, close, price);
    } else {
        assert(p0 * c1 == (c0 - price * close * c1) * p1) by (nonlinear_arith)
            requires
                p0 * (c1 * 1) == (c0 * 1 + (-(price * close)) * c1) * p1,
        ;
        assert((-p0) * c1 == (price * close * c1 - c0) * p1) by (nonlinear_arith)
            requires
                p0 * c1 == (c0 - price * close * c1) * p1,
        ;
        lemma_scaled_profit(-p0, p1, c0, c1, price * close, od * pa, on, close, price);
        assert(p0 * (od * pa) == -(close * (price * (od * pa) - on) * p1)) by (nonlinear_arith)
            requires
                (-p0) * (od * pa) == close * (price * (od * pa) - on) * p1,
        ;
    }
    let k = ps * close * (price * (od * pa) - on);
    assert(p0 * (od * pa) == k * p1) by (nonlinear_arith)
        requires
            ps == 1 ==> p0 * (od * pa) == close * (price * (od * pa) - on) * p1,
            ps == -1 ==> p0 * (od * pa) == -(close * (price * (od * pa) - on) * p1),
            ps == 1 || ps == -1,
            k == ps * close * (price * (od * pa) - on),
    ;
    assert(r1 * p1 > 0) by (nonlinear_arith)
        requires
            r1 > 0,
            p1 > 0,
    ;
    lemma_normalize_value(r0 * p1 + p0 * r1, r1 * p1);
    assert(r2 == qadd(realized, pnl));
    lemma_scaled_sum(r2.0, r2.1, r0, r1, p0, p1, od * pa, k);
    assert(price * (od * pa) == price * od * pa) by (nonlinear_arith);
    assert(k * (r2.1 * r1) == ps * close * (price * od * pa - on) * (r2.1 * r1)) by (nonlinear_arith)
        requires
            k == ps * close * (price * (od * pa) - on),
            price * (od * pa) == price * od * pa,
    ;
    if qty <= pa {
        assert(od * c1 > 0) by (nonlinear_arith)
            requires
                od > 0,
                c1 > 0,
        ;
        lemma_normalize_value(on * c1 + (-c0) * od, od * c1);
        assert(o2 == qsub(open_cost, closed));
        lemma_scaled_remaining(o2.0, o2.1, on, od, c0, c1, od * pa, pa, close);
    }
}

/// Average-cost accounting keeps the cash identity: a fill that changes cash
/// by `-side * price * qty` changes `realized - signed open cost` by the same
/// amount, keeps both fractions in lowest terms, and leaves no open cost when
/// the position becomes flat.
pub proof fn lemma_position_update_keeps_identity(
    pos: int,
    o: (int, int),
    r: (int, int),
    side: Side,
    price: int,
    qty: int,
    c: int,
)
    requires
        reduced(o.0, o.1),
        reduced(r.0, r.1),
        pos == 0 ==> o == qint(0),
        qint(c) == qsub(r, signed_open_cost(o, pos)),
        price > 0,
        qty > 0,
        position_update(pos, o, r, side, price, qty) is Some,
    ensures
        ({
            let (o2, r2) = position_update(pos, o, r, side, price, qty)->Some_0;
            let pos2 = pos + side_sign(side) * qty;
            &&& reduced(o2.0, o2.1)
            &&& reduced(r2.0, r2.1)
            &&& (pos2 == 0 ==> o2 == qint(0))
            &&& qint(c - side_sign(side) * (price * qty)) == qsub(r2, signed_open_cost(o2, pos2))
        }),
{
    let n = price * qty;
    let ps = sign_of(pos);
    let sf = side_sign(side);
    let (o2, r2) = position_update(pos, o, r, side, price, qty)->Some_0;
    let pos2 = pos + sf * qty;
    lemma_qint_reduced(n);
    lemma_qint_reduced(-n);
    lemma_qint_reduced(0);
    lemma_qint_reduced(c);
    lemma_qneg_reduced(o);
    lemma_qneg_reduced(r);
    assert(qneg(qint(n)) == qint(-n));
    if ps == 0 || ps == sf {
        assert(o2 == qadd(o, qint(n)) && r2 == r);
        lemma_qadd_facts(o, qint(n));
        lemma_qneg_reduced(o2);
        assert(sf * qty != 0 && sign_of(pos2) == sf) by (nonlinear_arith)
            requires
                sf == 1 || sf == -1,
                qty > 0,
                ps == sign_of(pos),
                ps == 0 || ps == sf,
                pos2 == pos + sf * qty,
        ;
        if sf == 1 {
            // r - (o + n) == (r - o) - n
            assert(qsub(r, signed_open_cost(o, pos)) == qsub(r, o)) by {
                if pos == 0 {
                    assert(o == qint(0));
                }
            }
            lemma_qneg_add(o, qint(n));
            lemma_qadd_assoc(r, qneg(o), qint(-n));
            lemma_qint_add(c, -n);
        } else {
            // r + (o + n) == (r + o) + n
            assert(qsub(r, signed_open_cost(o, pos)) == qadd(r, o)) by {
                assert(qneg(qneg(o)) == o);
                if pos == 0 {
                    assert(o == qint(0));
                    assert(qneg(qint(0)) == qint(0));
                }
            }
            assert(qneg(qneg(o2)) == o2);
            lemma_qadd_assoc(r, o, qint(n));
            lemma_qint_add(c, n);
        }
    } else {
        let pa = magnitude(pos);
        let close = if pa < qty { pa } else { qty };
        let average = qdiv_int(o, pa);
        let closed = qmul_int(average, close);
        let exit = qint(price * close);
        let opening = qty - close;
        assert(pa > 0);
        assert(o.1 * pa > 0) by (nonlinear_arith)
            requires
                o.1 > 0,
                pa > 0,
        ;
        lemma_normalize(o.0, o.1 * pa);
        lemma_normalize(average.0 * close, average.1);
        lemma_qint_reduced(price * close);
        lemma_qneg_reduced(closed);
        lemma_qneg_reduced(exit);
        assert(price * qty == price * close + price * opening) by (nonlinear_arith)
            requires
                opening == qty - close,
        ;
        if close == pa {
            lemma_qmul_div(o, pa);
            assert(closed == o);
        }
        let o1 = qsub(o, closed);
        lemma_qadd_facts(o, qneg(closed));
        if ps > 0 {
            // long position, sell fill: pnl = exit - closed
            assert(sf == -1);
            let pnl = qsub(exit, closed);
            lemma_qadd_facts(exit, qneg(closed));
            assert(r2 == qadd(r, pnl));
            lemma_qadd_facts(r, pnl);
            assert(qint(c) == qsub(r, o));
            // (r + (e - k)) - (o - k) == (r - o) + e
            lemma_qneg_add(o, qneg(closed));
            assert(qneg(qneg(closed)) == closed);
            lemma_qadd_swap_middle(r, pnl, qneg(o), closed);
            lemma_qadd_comm(exit, qneg(closed));
            lemma_qadd_cancel(exit, qneg(closed));
            lemma_qadd_comm(qadd(exit, qneg(closed)), closed);
            lemma_qadd_comm(qadd(qneg(closed), exit), closed);
            assert(qadd(qadd(exit, qneg(closed)), qneg(qneg(closed))) == exit);
            assert(qsub(r2, o1) == qadd(qint(c), exit));
            lemma_qint_add(c, price * close);
            if opening > 0 {
                assert(o2 == qint(price * opening));
                assert(pos2 < 0);
                assert(qneg(qneg(o2)) == o2);
                // r2 + o2 == (r - o) + exit + p * opening, with closed == o
                assert(closed == o);
                lemma_qadd_comm(exit, qneg(o));
                lemma_qadd_assoc(r, qneg(o), exit);
                lemma_qint_add(c + price * close, price * opening);
            } else {
                assert(o2 == o1);
                assert(pos2 >= 0);
                if pos2 == 0 {
                    assert(closed == o);
                    lemma_qadd_neg(o);
                }
            }
        } else {
            // short position, buy fill: pnl = closed - exit
            assert(sf == 1);
            let pnl = qsub(closed, exit);
            lemma_qadd_facts(closed, qneg(exit));
            assert(r2 == qadd(r, pnl));
            lemma_qadd_facts(r, pnl);
            assert(qneg(qneg(o)) == o);
            assert(qint(c) == qadd(r, o));
            // (r + (k - e)) + (o - k) == (r + o) - e
            lemma_qadd_swap_middle(r, pnl, o, qneg(closed));
            lemma_qadd_comm(closed, qneg(exit));
            lemma_qadd_cancel(qneg(exit), closed);
            assert(qadd(r2, o1) == qadd(qint(c), qneg(exit)));
            assert(qneg(exit) == qint(-(price * close)));
            lemma_qint_add(c, -(price * close));
            if opening > 0 {
                assert(o2 == qint(price * opening));
                assert(pos2 > 0);
                assert(closed == o);
                // (r + (o - e)) - p * opening
                lemma_qadd_assoc(r, o, qneg(exit));
                assert(qneg(o2) == qint(-(price * opening)));
                lemma_qint_add(c - price * close, -(price * opening));
            } else {
                assert(o2 == o1);
                assert(pos2 <= 0);
                if pos2 == 0 {
                    assert(closed == o);
                    lemma_qadd_neg(o);
                    assert(qneg(qint(0)) == qint(0));
                } else {
                    lemma_qneg_reduced(o1);
                    assert(qneg(qneg(o1)) == o1);
                }
            }
        }
    }
}

/// Updates open cost and realized profit for one fill.
fn position_step(
    position: i64,
    open_cost: Rational,
    realized: Rational,
    side: Side,
    price: PriceTicks,
    qty: QtyLots,
) -> (result: Result<(Rational, Rational), LedgerError>)
    ensures
        result is Err <==> position_update(position as int, open_cost@, realized@, side, price@, qty@) is None,
        result matches Err(e) ==> e == LedgerError::ArithmeticOverflow,
        result matches Ok((o, r)) ==> position_update(position as int, open_cost@, realized@, side, price@, qty@)
            == Some((o@, r@)),
{
    let p = price.get();
    let q = qty.get();
    proof {
        lemma_i64_product_fits(p as int, q as int);
    }
    let fill_sign: i64 = match side {
        Side::Buy => 1,
        Side::Sell => -1,
    };
    let position_sign: i64 = if position > 0 {
        1
    } else if position < 0 {
        -1
    } else {
        0
    };
    let fill_notional = Rational::from_integer(p as i128 * q as i128);
    if position_sign == 0 || position_sign == fill_sign {
        return match open_cost.checked_add(fill_notional) {
            Ok(o) => Ok((o, realized)),
            Err(e) => Err(e),
        };
    }
    let position_abs: i128 = if position < 0 { -(position as i128) } else { position as i128 };
    let fill_abs: i128 = q as i128;
    let close_qty: i128 = if position_abs < fill_abs { position_abs } else { fill_abs };
    let average_cost = match open_cost.checked_div_integer(position_abs) {
        Ok(a) => a,
        Err(e) => return Err(e),
    };
    let closed_cost = match average_cost.checked_mul_integer(close_qty) {
        Ok(c) => c,
        Err(e) => return Err(e),
    };
    proof {
        lemma_i64_product_fits(p as int, close_qty as int);
    }
    let exit_notional = Rational::from_integer(p as i128 * close_qty);
    let price_pnl = if position_sign > 0 {
        exit_notional.checked_sub(closed_cost)
    } else {
        closed_cost.checked_sub(exit_notional)
    };
    let price_pnl = match price_pnl {
        Ok(x) => x,
        Err(e) => return Err(e),
    };
    let next_realized = match realized.checked_add(price_pnl) {
        Ok(x) => x,
        Err(e) => return Err(e),
    };
    let next_open = match open_cost.checked_sub(closed_cost) {
        Ok(x) => x,
        Err(e) => return Err(e),
    };
    let opening_qty: i128 = fill_abs - close_qty;
    if opening_qty > 0 {
        proof {
            lemma_i64_product_fits(p as int, opening_qty as int);
        }
        return Ok((Rational::from_integer(p as i128 * opening_qty), next_realized));
    }
    Ok((next_open, next_realized))
}

/// The number of leading executions whose keys sort before `key`: where an
/// execution with that key goes.
pub open spec fn insertion_index(executions: Seq<FillView>, key: KeyView) -> int
    decreases executions.len(),
{
    if executions.len() == 0 {
        0
    } else if key_order(executions[0].key, key) < 0 {
        1 + insertion_index(executions.drop_first(), key)
    } else {
        0
    }
}

/// The applied execution with this key, if any.
pub open spec fn find_execution(executions: Seq<FillView>, key: KeyView) -> Option<FillView> {
    if exists|i: int| 0 <= i < executions.len() && executions[i].key == key {
        Some(executions[choose|i: int| 0 <= i < executions.len() && executions[i].key == key])
    } else {
        None
    }
}

/// The ledger after newly applying `f`: `None` when a quantity overflows.
/// Cash falls by notional plus fee on a buy and rises by notional minus fee
/// on a sell, fees accumulate, the position moves by the signed quantity,
/// open cost and realized profit follow `position_update`, and the execution
/// is recorded in key order.
pub open spec fn fill_core(v: LedgerView, f: FillView) -> Option<LedgerView> {
    let notional = f.price * f.qty;
    let signed_qty = side_sign(f.side) * f.qty;
    let cash_change = if f.side == Side::Buy { -(notional + f.fee) } else { notional - f.fee };
    if (f.side == Side::Buy && !fits_i128(notional + f.fee)) || !fits_i128(v.cash + cash_change)
        || !fits_i128(v.fees + f.fee) || position_update(v.position, v.open_cost, v.realized, f.side, f.price, f.qty) is None
        || !(i64::MIN <= v.position + signed_qty <= i64::MAX) {
        None
    } else {
        let (o2, r2) = position_update(v.position, v.open_cost, v.realized, f.side, f.price, f.qty)->Some_0;
        Some(LedgerView {
            starting_cash: v.starting_cash,
            position: v.position + signed_qty,
            cash: v.cash + cash_change,
            open_cost: o2,
            realized: r2,
            fees: v.fees + f.fee,
            executions: v.executions.insert(insertion_index(v.executions, f.key), f),
        })
    }
}

/// A newly applied fill moves the position by its quantity (up on a buy,
/// down on a sell), pays its notional plus fee on a buy and receives its
/// notional minus fee on a sell, adds its fee to the fees, keeps the starting
/// cash, and adds exactly this execution to the recorded ones.
pub proof fn law_fill_moves_cash_position_and_fees(v: LedgerView, f: FillView)
    requires
        fill_core(v, f) is Some,
    ensures
        ({
            let n = fill_core(v, f)->Some_0;
            &&& n.position == v.position + (if f.side == Side::Buy { f.qty } else { -f.qty })
            &&& n.cash == (if f.side == Side::Buy {
                v.cash - f.price * f.qty - f.fee
            } else {
                v.cash + f.price * f.qty - f.fee
            })
            &&& n.fees == v.fees + f.fee
            &&& n.starting_cash == v.starting_cash
            &&& n.executions.len() == v.executions.len() + 1
            &&& n.executions.contains(f)
            &&& forall|e: FillView| v.executions.contains(e) ==> n.executions.contains(e)
        }),
{
    let n = fill_core(v, f)->Some_0;
    let i = insertion_index(v.executions, f.key);
    lemma_insertion_index_bounds(v.executions, f.key);
    assert(n.executions[i] == f);
    assert forall|e: FillView| v.executions.contains(e) implies n.executions.contains(e) by {
        let j = choose|j: int| 0 <= j < v.executions.len() && v.executions[j] == e;
        if j < i {
            assert(n.executions[j] == e);
        } else {
            assert(n.executions[j + 1] == e);
        }
    }
}

/// Where the insertion index lands: after every smaller key and before the
/// first key that is not smaller.
proof fn lemma_insertion_index(executions: Seq<FillView>, key: KeyView, i: int)
    requires
        0 <= i <= executions.len(),
        forall|j: int| 0 <= j < i ==> key_order(#[trigger] executions[j].key, key) < 0,
        i < executions.len() ==> key_order(executions[i].key, key) >= 0,
    ensures
        insertion_index(executions, key) == i,
    decreases executions.len(),
{
    if i > 0 {
        let rest = executions.drop_first();
        assert forall|j: int| 0 <= j < i - 1 implies key_order(#[trigger] rest[j].key, key) < 0 by {
            assert(rest[j] == executions[j + 1]);
        }
        lemma_insertion_index(rest, key, i - 1);
    }
}

/// Inserting a new key at its insertion index keeps the executions sorted.
proof fn lemma_insert_sorted(executions: Seq<FillView>, f: FillView, i: int)
    requires
        sorted_by_key(executions),
        0 <= i <= executions.len(),
        forall|j: int| 0 <= j < i ==> key_order(#[trigger] executions[j].key, f.key) < 0,
        forall|j: int| i <= j < executions.len() ==> key_order(f.key, #[trigger] executions[j].key) < 0,
    ensures
        sorted_by_key(executions.insert(i, f)),
{
    let s = executions.insert(i, f);
    assert forall|a: int, b: int| 0 <= a < b < s.len() implies key_order(s[a].key, s[b].key) < 0 by {
        if a < i && b < i {
        } else if a < i && b == i {
        } else if a < i && b > i {
            assert(s[b] == executions[b - 1]);
            lemma_key_order_transitive(s[a].key, f.key, s[b].key);
        } else if a == i {
            assert(s[b] == executions[b - 1]);
        } else {
            assert(s[a] == executions[a - 1]);
            assert(s[b] == executions[b - 1]);
        }
    }
}

/// Every newly applied fill keeps the ledger's invariant, in particular the
/// cash identity behind the equity identity.
pub proof fn law_fill_keeps_invariant(v: LedgerView, f: FillView)
    requires
        ledger_inv(v),
        f.price > 0,
        f.qty > 0,
        f.fee >= 0,
        find_execution(v.executions, f.key) is None,
        fill_core(v, f) is Some,
    ensures
        ledger_inv(fill_core(v, f)->Some_0),
{
    let nv = fill_core(v, f)->Some_0;
    let c = v.cash - v.starting_cash + v.fees;
    let notional = f.price * f.qty;
    lemma_position_update_keeps_identity(v.position, v.open_cost, v.realized, f.side, f.price, f.qty, c);
    assert(nv.cash - nv.starting_cash + nv.fees == c - side_sign(f.side) * notional);
    let ex = v.executions;
    let i = insertion_index(ex, f.key);
    lemma_insertion_index_bounds(ex, f.key);
    assert forall|j: int| i <= j < ex.len() implies key_order(f.key, #[trigger] ex[j].key) < 0 by {
        lemma_key_order_basics(ex[i].key, f.key);
        lemma_key_order_basics(ex[j].key, f.key);
        if ex[i].key == f.key {
            assert(find_execution(ex, f.key) is Some);
        }
        if j > i {
            lemma_key_order_transitive(f.key, ex[i].key, ex[j].key);
        }
    }
    lemma_insert_sorted(ex, f, i);
}

/// The insertion index lies within the sequence, after exactly the smaller
/// keys.
pub proof fn lemma_insertion_index_bounds(executions: Seq<FillView>, key: KeyView)
    ensures
        0 <= insertion_index(executions, key) <= executions.len(),
        forall|j: int| 0 <= j < insertion_index(executions, key) ==> key_order(#[trigger] executions[j].key, key) < 0,
        insertion_index(executions, key) < executions.len() ==> key_order(
            executions[insertion_index(executions, key)].key,
            key,
        ) >= 0,
    decreases executions.len(),
{
    if executions.len() > 0 && key_order(executions[0].key, key) < 0 {
        let rest = executions.drop_first();
        lemma_insertion_index_bounds(rest, key);
        assert forall|j: int| 0 <= j < insertion_index(executions, key) implies key_order(
            #[trigger] executions[j].key,
            key,
        ) < 0 by {
            if j > 0 {
                assert(executions[j] == rest[j - 1]);
            }
        }
    }
}

/// A newly applied execution is recorded, so any later fill with the same
/// key finds it.
pub proof fn law_applied_fill_is_recorded(v: LedgerView, f: FillView)
    requires
        ledger_inv(v),
        find_execution(v.executions, f.key) is None,
        fill_core(v, f) is Some,
    ensures
        find_execution(fill_core(v, f)->Some_0.executions, f.key) == Some(f),
{
    let ex = v.executions;
    let i = insertion_index(ex, f.key);
    lemma_insertion_index_bounds(ex, f.key);
    let nex = ex.insert(i, f);
    assert(nex[i].key == f.key);
    let k = choose|k: int| 0 <= k < nex.len() && nex[k].key == f.key;
    if k != i {
        if k < i {
            assert(nex[k] == ex[k]);
        } else {
            assert(nex[k] == ex[k - 1]);
        }
        assert(find_execution(ex, f.key) is Some);
    }
}

/// The checksum of a ledger state: FNV-1a over its canonical bytes. It is a
/// function of the view alone.
pub open spec fn ledger_checksum(v: LedgerView) -> u64 {
    fnv(FNV_OFFSET, checksum_bytes(v))
}

/// A fill's facts as any `Fill` value carries them: positive price and size.
pub open spec fn fill_ok(f: FillView) -> bool {
    f.price > 0 && f.qty > 0
}

/// The ledger state after one `apply_fill` call, whatever it answers: a
/// duplicate, a conflict, a negative fee and an overflow all leave the state
/// as it was.
pub open spec fn fill_effect(v: LedgerView, f: FillView) -> LedgerView {
    match find_execution(v.executions, f.key) {
        Some(_) => v,
        None => if f.fee < 0 {
            v
        } else {
            match fill_core(v, f) {
                Some(next) => next,
                None => v,
            }
        },
    }
}

/// The ledger state after a history of `apply_fill` calls, in order.
pub open spec fn fills_applied(v: LedgerView, history: Seq<FillView>) -> LedgerView
    decreases history.len(),
{
    if history.len() == 0 {
        v
    } else {
        fill_effect(fills_applied(v, history.drop_last()), history.last())
    }
}

/// Every call of `apply_fill` keeps the ledger invariant.
pub proof fn law_fill_effect_keeps_invariant(v: LedgerView, f: FillView)
    requires
        ledger_inv(v),
        fill_ok(f),
    ensures
        ledger_inv(fill_effect(v, f)),
{
    if find_execution(v.executions, f.key) is None && f.fee >= 0 && fill_core(v, f) is Some {
        law_fill_keeps_invariant(v, f);
    }
}

/// Sorted executions hold each key once: the execution found for a key is
/// the one at any index that carries it.
proof fn lemma_find_at(executions: Seq<FillView>, i: int)
    requires
        sorted_by_key(executions),
        0 <= i < executions.len(),
    ensures
        find_execution(executions, executions[i].key) == Some(executions[i]),
{
    let key = executions[i].key;
    let k = choose|k: int| 0 <= k < executions.len() && executions[k].key == key;
    lemma_key_order_basics(executions[k].key, key);
    if k < i {
        assert(key_order(executions[k].key, executions[i].key) < 0);
    } else if k > i {
        assert(key_order(executions[i].key, executions[k].key) < 0);
    }
}

/// An execution once recorded stays recorded, with the same facts, through
/// any later call of `apply_fill`.
pub proof fn law_recorded_fill_stays_recorded(v: LedgerView, f: FillView, g: FillView)
    requires
        ledger_inv(v),
        fill_ok(f),
        find_execution(v.executions, g.key) == Some(g),
    ensures
        find_execution(fill_effect(v, f).executions, g.key) == Some(g),
{
    let nv = fill_effect(v, f);
    if nv != v {
        law_fill_effect_keeps_invariant(v, f);
        let ex = v.executions;
        let m = choose|m: int| 0 <= m < ex.len() && ex[m].key == g.key;
        assert(ex[m] == g);
        let i = insertion_index(ex, f.key);
        lemma_insertion_index_bounds(ex, f.key);
        let nex = ex.insert(i, f);
        assert(nv.executions == nex);
        if m < i {
            assert(nex[m] == g);
            lemma_find_at(nex, m);
        } else {
            assert(nex[m + 1] == g);
            lemma_find_at(nex, m + 1);
        }
    }
}

/// Applying a fill a second time changes nothing: `apply_fill` is idempotent.
pub proof fn law_fill_is_idempotent(v: LedgerView, f: FillView)
    requires
        ledger_inv(v),
        fill_ok(f),
    ensures
        fill_effect(fill_effect(v, f), f) == fill_effect(v, f),
{
    if find_execution(v.executions, f.key) is None && f.fee >= 0 && fill_core(v, f) is Some {
        law_applied_fill_is_recorded(v, f);
    }
}

/// Every history of calls keeps the ledger invariant.
pub proof fn law_history_keeps_invariant(v: LedgerView, history: Seq<FillView>)
    requires
        ledger_inv(v),
        forall|i: int| 0 <= i < history.len() ==> fill_ok(#[trigger] history[i]),
    ensures
        ledger_inv(fills_applied(v, history)),
    decreases history.len(),
{
    if history.len() > 0 {
        let p = history.drop_last();
        assert forall|i: int| 0 <= i < p.len() implies fill_ok(#[trigger] p[i]) by {
            assert(p[i] == history[i]);
        }
        law_history_keeps_invariant(v, p);
        law_fill_effect_keeps_invariant(fills_applied(v, p), history.last());
    }
}

/// A history played in two parts ends where the whole history does.
proof fn lemma_history_concat(v: LedgerView, p: Seq<FillView>, q: Seq<FillView>)
    ensures
        fills_applied(v, p + q) == fills_applied(fills_applied(v, p), q),
    decreases q.len(),
{
    if q.len() == 0 {
        assert(p + q =~= p);
    } else {
        assert((p + q).drop_last() =~= p + q.drop_last());
        lemma_history_concat(v, p, q.drop_last());
    }
}

/// A call that changes nothing at its point in a history (a duplicate, a
/// conflict or a refusal) can be added to or removed from the history
/// without changing the final ledger, hence its checksum.
pub proof fn law_redundant_call_changes_nothing(v: LedgerView, history: Seq<FillView>, i: int, extra: FillView)
    requires
        0 <= i <= history.len(),
        fill_effect(fills_applied(v, history.take(i)), extra) == fills_applied(v, history.take(i)),
    ensures
        fills_applied(v, history.insert(i, extra)) == fills_applied(v, history),
        ledger_checksum(fills_applied(v, history.insert(i, extra))) == ledger_checksum(fills_applied(v, history)),
{
    let a = history.take(i);
    let b = history.skip(i);
    let e = seq![extra];
    let w = fills_applied(v, a);
    assert(history.insert(i, extra) =~= (a + e) + b);
    assert(history =~= a + b);
    lemma_history_concat(v, a + e, b);
    lemma_history_concat(v, a, e);
    lemma_history_single(w, extra);
    assert(fills_applied(v, a + e) == w);
    lemma_history_concat(v, a, b);
}

/// A history of one call is that call.
proof fn lemma_history_single(w: LedgerView, extra: FillView)
    ensures
        fills_applied(w, seq![extra]) == fill_effect(w, extra),
{
    assert(seq![extra].drop_last() =~= Seq::<FillView>::empty());
    assert(fills_applied(w, Seq::<FillView>::empty()) == w);
}

/// Re-applying a fill that an earlier call of the history recorded is a
/// duplicate wherever it comes later: the final ledger and its checksum are
/// those of the history without it.
pub proof fn law_reapplied_fill_changes_nothing(v: LedgerView, history: Seq<FillView>, j: int, i: int)
    requires
        ledger_inv(v),
        forall|k: int| 0 <= k < history.len() ==> fill_ok(#[trigger] history[k]),
        0 <= j < i <= history.len(),
        find_execution(fills_applied(v, history.take(j + 1)).executions, history[j].key) == Some(history[j]),
    ensures
        fills_applied(v, history.insert(i, history[j])) == fills_applied(v, history),
        ledger_checksum(fills_applied(v, history.insert(i, history[j]))) == ledger_checksum(fills_applied(v, history)),
{
    lemma_recorded_persists(v, history, j + 1, i, history[j]);
    law_redundant_call_changes_nothing(v, history, i, history[j]);
}

/// A recorded execution stays recorded along a history.
proof fn lemma_recorded_persists(v: LedgerView, history: Seq<FillView>, a: int, b: int, g: FillView)
    requires
        ledger_inv(v),
        forall|k: int| 0 <= k < history.len() ==> fill_ok(#[trigger] history[k]),
        0 <= a <= b <= history.len(),
        find_execution(fills_applied(v, history.take(a)).executions, g.key) == Some(g),
    ensures
        find_execution(fills_applied(v, history.take(b)).executions, g.key) == Some(g),
    decreases b - a,
{
    if b > a {
        lemma_recorded_persists(v, history, a, b - 1, g);
        let p = history.take(b - 1);
        assert(history.take(b).drop_last() =~= p);
        assert(history.take(b).last() == history[b - 1]);
        assert forall|k: int| 0 <= k < p.len() implies fill_ok(#[trigger] p[k]) by {
            assert(p[k] == history[k]);
        }
        law_history_keeps_invariant(v, p);
        law_recorded_fill_stays_recorded(fills_applied(v, p), history[b - 1], g);
    }
}

/// The calls of a history that changed the ledger, in order: what remains
/// once every duplicate, conflict and refusal is taken out.
pub open spec fn effective_calls(v: LedgerView, history: Seq<FillView>) -> Seq<FillView>
    decreases history.len(),
{
    if history.len() == 0 {
        Seq::empty()
    } else {
        let prev = effective_calls(v, history.drop_last());
        let state = fills_applied(v, history.drop_last());
        if fill_effect(state, history.last()) == state {
            prev
        } else {
            prev.push(history.last())
        }
    }
}

/// A history ends where its effective calls alone end.
pub proof fn law_history_is_its_effective_calls(v: LedgerView, history: Seq<FillView>)
    ensures
        fills_applied(v, history) == fills_applied(v, effective_calls(v, history)),
    decreases history.len(),
{
    if history.len() > 0 {
        let p = history.drop_last();
        law_history_is_its_effective_calls(v, p);
        let e = effective_calls(v, p);
        if fill_effect(fills_applied(v, p), history.last()) != fills_applied(v, p) {
            assert(e.push(history.last()).drop_last() =~= e);
        }
    }
}

/// Two histories with the same effective calls, whatever duplicates,
/// conflicts and refusals either adds, end in the same ledger and give the
/// same checksum.
pub proof fn law_same_effective_calls_same_checksum(v: LedgerView, h1: Seq<FillView>, h2: Seq<FillView>)
    requires
        effective_calls(v, h1) == effective_calls(v, h2),
    ensures
        fills_applied(v, h1) == fills_applied(v, h2),
        ledger_checksum(fills_applied(v, h1)) == ledger_checksum(fills_applied(v, h2)),
{
    law_history_is_its_effective_calls(v, h1);
    law_history_is_its_effective_calls(v, h2);
}

/// Inserting a call that changes nothing at its point leaves a history's
/// effective calls as they were; applied any number of times, this shows that
/// any number of duplicates, conflicts and refusals leave the final ledger
/// and its checksum unchanged.
pub proof fn law_redundant_call_keeps_effective_calls(v: LedgerView, history: Seq<FillView>, i: int, extra: FillView)
    requires
        0 <= i <= history.len(),
        fill_effect(fills_applied(v, history.take(i)), extra) == fills_applied(v, history.take(i)),
    ensures
        effective_calls(v, history.insert(i, extra)) == effective_calls(v, history),
    decreases history.len() - i,
{
    let h2 = history.insert(i, extra);
    if i == history.len() {
        assert(h2.drop_last() =~= history);
        assert(history.take(i) =~= history);
    } else {
        let p = history.drop_last();
        assert(p.take(i) =~= history.take(i));
        law_redundant_call_keeps_effective_calls(v, p, i, extra);
        assert(h2.drop_last() =~= p.insert(i, extra));
        assert(h2.last() == history.last());
        law_redundant_call_changes_nothing(v, p, i, extra);
    }
}

impl Ledger {
    /// Applies one execution report. A replay of an applied execution with
    /// the same facts is a duplicate and changes nothing; the same key with
    /// different facts is refused; a negative fee is refused; a fill whose
    /// accounting overflows is refused and changes nothing; otherwise cash,
    /// fees, position, open cost and realized profit are updated together
    /// and the execution is recorded.
    pub fn apply_fill(&mut self, fill: Fill) -> (result: Result<ApplyOutcome, LedgerError>)
        requires
            old(self).wf(),
        ensures
            final(self).wf(),
            match find_execution(old(self)@.executions, fill@.key) {
                Some(previous) => if previous == fill@ {
                    result == Ok::<ApplyOutcome, LedgerError>(ApplyOutcome::Duplicate) && final(self)@ == old(self)@
                } else {
                    result == Err::<ApplyOutcome, LedgerError>(LedgerError::ConflictingExecution(fill.key))
                        && final(self)@ == old(self)@
                },
                None => if fill.fee_quote < 0 {
                    result == Err::<ApplyOutcome, LedgerError>(LedgerError::NegativeFee) && final(self)@ == old(self)@
                } else {
                    match fill_core(old(self)@, fill@) {
                        None => result == Err::<ApplyOutcome, LedgerError>(LedgerError::ArithmeticOverflow)
                            && final(self)@ == old(self)@,
                        Some(next) => result == Ok::<ApplyOutcome, LedgerError>(ApplyOutcome::Applied)
                            && final(self)@ == next,
                    }
                },
            },
            final(self)@ == fill_effect(old(self)@, fill@),
    {
        let (found, idx) = self.locate(&fill.key);
        if found {
            if self.executions[idx].same_facts(&fill) {
                return Ok(ApplyOutcome::Duplicate);
            } else {
                return Err(LedgerError::ConflictingExecution(fill.key));
            }
        }
        if fill.fee_quote < 0 {
            return Err(LedgerError::NegativeFee);
        }
        let p = fill.price.get();
        let q = fill.qty.get();
        proof {
            lemma_i64_product_fits(p as int, q as int);
        }
        let notional: i128 = p as i128 * q as i128;
        let signed_qty: i64 = match fill.side {
            Side::Buy => q,
            Side::Sell => -q,
        };
        let cash_change: i128 = match fill.side {
            Side::Buy => match notional.checked_add(fill.fee_quote) {
                Some(total) => -total,
                None => return Err(LedgerError::ArithmeticOverflow),
            },
            Side::Sell => notional - fill.fee_quote,
        };
        let cash = match self.cash_quote.checked_add(cash_change) {
            Some(x) => x,
            None => return Err(LedgerError::ArithmeticOverflow),
        };
        let fees = match self.fees_quote.checked_add(fill.fee_quote) {
            Some(x) => x,
            None => return Err(LedgerError::ArithmeticOverflow),
        };
        let (open_cost, realized) = match position_step(
            self.position_lots,
            self.open_cost_quote,
            self.realized_price_pnl_quote,
            fill.side,
            fill.price,
            fill.qty,
        ) {
            Ok(pair) => pair,
            Err(e) => return Err(e),
        };
        let position = match self.position_lots.checked_add(signed_qty) {
            Some(x) => x,
            None => return Err(LedgerError::ArithmeticOverflow),
        };
        proof {
            use_type_invariant(&open_cost);
            use_type_invariant(&realized);
            law_fill_keeps_invariant(self@, fill@);
            lemma_insertion_index_bounds(self@.executions, fill@.key);
        }
        let ghost old_fills = self.executions@;
        self.cash_quote = cash;
        self.fees_quote = fees;
        self.open_cost_quote = open_cost;
        self.realized_price_pnl_quote = realized;
        self.position_lots = position;
        self.executions.insert(idx, fill);
        proof {
            assert(self.executions@.map_values(|f: Fill| f@) =~= old_fills.map_values(|f: Fill| f@).insert(
                idx as int,
                fill@,
            ));
        }
        Ok(ApplyOutcome::Applied)
    }
}

/// The bytes an execution key contributes to the checksum: each part's
/// UTF-8 bytes followed by a 0xff separator.
pub open spec fn key_bytes(k: KeyView) -> Seq<u8> {
    encode_utf8(k.0) + seq![0xffu8] + encode_utf8(k.1) + seq![0xffu8] + encode_utf8(k.2) + seq![0xffu8]
        + encode_utf8(k.3) + seq![0xffu8]
}

/// The key bytes of the executions, in order.
pub open spec fn executions_bytes(executions: Seq<FillView>) -> Seq<u8>
    decreases executions.len(),
{
    if executions.len() == 0 {
        Seq::empty()
    } else {
        executions_bytes(executions.drop_last()) + key_bytes(executions.last().key)
    }
}

/// The canonical byte image of a ledger: position, cash, open cost,
/// realized profit and fees as little-endian `i128`s, then every execution
/// key in key order.
pub open spec fn checksum_bytes(v: LedgerView) -> Seq<u8> {
    le_bytes(v.position as i128) + le_bytes(v.cash as i128) + le_bytes(v.open_cost.0 as i128) + le_bytes(
        v.open_cost.1 as i128,
    ) + le_bytes(v.realized.0 as i128) + le_bytes(v.realized.1 as i128) + le_bytes(v.fees as i128)
        + executions_bytes(v.executions)
}

/// Feeds the bytes of one text and a separator into the hash.
fn feed_part(hash: u64, part: &String, Ghost(acc): Ghost<Seq<u8>>) -> (r: u64)
    requires
        hash == fnv(FNV_OFFSET, acc),
    ensures
        r == fnv(FNV_OFFSET, acc + encode_utf8(part@) + seq![0xffu8]),
{
    let bytes = part.as_str().as_bytes();
    let h1 = fnv_feed_bytes(hash, bytes);
    proof {
        lemma_fnv_concat(FNV_OFFSET, acc, bytes@);
    }
    let h2 = fnv_feed_byte(h1, 0xff);
    proof {
        let t = seq![0xffu8];
        lemma_fnv_concat(FNV_OFFSET, acc + bytes@, t);
        assert(t.drop_last() =~= Seq::<u8>::empty());
        assert(fnv(h1, t) == fnv_step(fnv(h1, Seq::<u8>::empty()), 0xff));
    }
    h2
}

impl Ledger {
    /// A stable FNV-1a checksum over the ledger's canonical state and the
    /// identities of its executions.
    pub fn state_checksum(&self) -> (h: u64)
        ensures
            h == fnv(FNV_OFFSET, checksum_bytes(self@)),
            h == ledger_checksum(self@),
    {
        let ghost v = self@;
        let mut hash = FNV_OFFSET;
        let ghost mut acc: Seq<u8> = Seq::empty();
        let values: [i128; 7] = [
            self.position_lots as i128,
            self.cash_quote,
            self.open_cost_quote.numerator(),
            self.open_cost_quote.denominator(),
            self.realized_price_pnl_quote.numerator(),
            self.realized_price_pnl_quote.denominator(),
            self.fees_quote,
        ];
        let mut i: usize = 0;
        while i < 7
            invariant
                0 <= i <= 7,
                hash == fnv(FNV_OFFSET, acc),
                acc == (if i == 0 { Seq::<u8>::empty() } else { le_bytes(values@[0]) }) + (if i <= 1 {
                    Seq::<u8>::empty()
                } else {
                    le_bytes(values@[1])
                }) + (if i <= 2 { Seq::<u8>::empty() } else { le_bytes(values@[2]) }) + (if i <= 3 {
                    Seq::<u8>::empty()
                } else {
                    le_bytes(values@[3])
                }) + (if i <= 4 { Seq::<u8>::empty() } else { le_bytes(values@[4]) }) + (if i <= 5 {
                    Seq::<u8>::empty()
                } else {
                    le_bytes(values@[5])
                }) + (if i <= 6 { Seq::<u8>::empty() } else { le_bytes(values@[6]) }),
            decreases 7 - i,
        {
            let next = fnv_feed_i128(hash, values[i]);
            proof {
                lemma_fnv_concat(FNV_OFFSET, acc, le_bytes(values@[i as int]));
                acc = acc + le_bytes(values@[i as int]);
            }
            hash = next;
            i = i + 1;
            proof {
                assert(acc =~= (if i == 0 { Seq::<u8>::empty() } else { le_bytes(values@[0]) }) + (if i <= 1 {
                    Seq::<u8>::empty()
                } else {
                    le_bytes(values@[1])
                }) + (if i <= 2 { Seq::<u8>::empty() } else { le_bytes(values@[2]) }) + (if i <= 3 {
                    Seq::<u8>::empty()
                } else {
                    le_bytes(values@[3])
                }) + (if i <= 4 { Seq::<u8>::empty() } else { le_bytes(values@[4]) }) + (if i <= 5 {
                    Seq::<u8>::empty()
                } else {
                    le_bytes(values@[5])
                }) + (if i <= 6 { Seq::<u8>::empty() } else { le_bytes(values@[6]) }));
            }
        }
        let ghost head = acc;
        let mut j: usize = 0;
        while j < self.executions.len()
            invariant
                0 <= j <= self.executions.len(),
                v == self@,
                hash == fnv(FNV_OFFSET, acc),
                acc == head + executions_bytes(v.executions.take(j as int)),
            decreases self.executions.len() - j,
        {
            let key = &self.executions[j].key;
            let ghost before = acc;
            hash = feed_part(hash, &key.venue, Ghost(acc));
            proof {
                acc = acc + encode_utf8(key.venue@) + seq![0xffu8];
            }
            hash = feed_part(hash, &key.account, Ghost(acc));
            proof {
                acc = acc + encode_utf8(key.account@) + seq![0xffu8];
            }
            hash = feed_part(hash, &key.instrument, Ghost(acc));
            proof {
                acc = acc + encode_utf8(key.instrument@) + seq![0xffu8];
            }
            hash = feed_part(hash, &key.execution_id, Ghost(acc));
            proof {
                acc = acc + encode_utf8(key.execution_id@) + seq![0xffu8];
                let ex = v.executions;
                assert(ex.take(j + 1).drop_last() =~= ex.take(j as int));
                assert(ex.take(j + 1).last() == ex[j as int]);
                assert(ex[j as int].key == key@);
                assert(acc =~= before + key_bytes(key@));
            }
            j = j + 1;
        }
        proof {
            assert(v.executions.take(j as int) =~= v.executions);
            assert(values@[0] == v.position as i128);
            assert(head =~= le_bytes(values@[0]) + le_bytes(values@[1]) + le_bytes(values@[2]) + le_bytes(values@[3])
                + le_bytes(values@[4]) + le_bytes(values@[5]) + le_bytes(values@[6]));
            assert(acc =~= checksum_bytes(v));
        }
        hash
    }
}

impl Ledger {
    /// Where an execution key stands: `(true, i)` when the `i`th execution
    /// has it, `(false, i)` when it is absent and belongs at index `i`.
    fn locate(&self, key: &ExecutionKey) -> (r: (bool, usize))
        requires
            sorted_by_key(self@.executions),
        ensures
            r.0 ==> r.1 < self@.executions.len() && self@.executions[r.1 as int].key == key@,
            !r.0 ==> r.1 == insertion_index(self@.executions, key@),
            !r.0 ==> forall|j: int| 0 <= j < r.1 ==> key_order(#[trigger] self@.executions[j].key, key@) < 0,
            !r.0 ==> forall|j: int| r.1 <= j < self@.executions.len() ==> key_order(key@, #[trigger] self@.executions[j].key) < 0,
            r.0 <==> find_execution(self@.executions, key@) is Some,
            r.0 ==> find_execution(self@.executions, key@) == Some(self@.executions[r.1 as int]),
    {
        let ghost ex = self@.executions;
        let mut i: usize = 0;
        while i < self.executions.len()
            invariant
                0 <= i <= self.executions.len(),
                ex == self@.executions,
                ex.len() == self.executions.len(),
                forall|j: int| 0 <= j < i ==> key_order(#[trigger] ex[j].key, key@) < 0,
            ensures
                0 <= i <= self.executions.len(),
                ex == self@.executions,
                forall|j: int| 0 <= j < i ==> key_order(#[trigger] ex[j].key, key@) < 0,
                i < ex.len() ==> key_order(ex[i as int].key, key@) >= 0,
            decreases self.executions.len() - i,
        {
            let c = self.executions[i].key.compare(key);
            if c >= 0 {
                break;
            }
            i = i + 1;
        }
        proof {
            assert forall|j: int| 0 <= j < i implies ex[j].key != key@ by {
                lemma_key_order_basics(ex[j].key, key@);
            }
        }
        if i < self.executions.len() && self.executions[i].key.compare(key) == 0 {
            proof {
                lemma_key_order_basics(ex[i as int].key, key@);
                let k = choose|k: int| 0 <= k < ex.len() && ex[k].key == key@;
                if k != i {
                    if k < i {
                    } else {
                        assert(key_order(ex[i as int].key, ex[k].key) < 0);
                        lemma_key_order_basics(ex[i as int].key, ex[k].key);
                    }
                }
            }
            (true, i)
        } else {
            proof {
                lemma_insertion_index(ex, key@, i as int);
                if i < ex.len() {
                    lemma_key_order_basics(ex[i as int].key, key@);
                }
                assert forall|j: int| i <= j < ex.len() implies key_order(key@, #[trigger] ex[j].key) < 0 by {
                    lemma_key_order_basics(ex[i as int].key, key@);
                    if j > i {
                        lemma_key_order_transitive(key@, ex[i as int].key, ex[j].key);
                    }
                }
                assert forall|j: int| 0 <= j < ex.len() implies ex[j].key != key@ by {
                    lemma_key_order_basics(ex[j].key, key@);
                }
            }
            (false, i)
        }
    }
}

impl Ledger {
    /// The ledger's invariant holds.
    pub closed spec fn wf(&self) -> bool {
        &&& ledger_inv(self@)
        &&& self.open_cost_quote.in_lowest_terms()
        &&& self.realized_price_pnl_quote.in_lowest_terms()
    }

    /// A well-formed ledger's view keeps the ledger invariant.
    pub proof fn lemma_inv(&self)
        requires
            self.wf(),
        ensures
            ledger_inv(self@),
    {
    }

    /// An empty, flat ledger holding `starting_cash_quote`.
    pub fn new(starting_cash_quote: i128) -> (ledger: Self)
        ensures
            ledger.wf(),
            ledger@.starting_cash == starting_cash_quote,
            ledger@.cash == starting_cash_quote,
            ledger@.position == 0,
            ledger@.open_cost == qint(0),
            ledger@.realized == qint(0),
            ledger@.fees == 0,
            ledger@.executions.len() == 0,
    {
        let zero = Rational::zero();
        let ledger = Ledger {
            starting_cash_quote,
            position_lots: 0,
            cash_quote: starting_cash_quote,
            open_cost_quote: zero,
            realized_price_pnl_quote: zero,
            fees_quote: 0,
            executions: Vec::new(),
        };
        proof {
            use_type_invariant(&zero);
            lemma_qneg_reduced(qint(0));
            lemma_qadd_neg(qint(0));
            assert(qneg(qint(0)) == qint(0));
            lemma_qadd_zero(qint(0));
        }
        ledger
    }

    /// The current position, cash, costs, fees and execution count.
    pub fn snapshot(&self) -> (s: LedgerSnapshot)
        ensures
            s.position_lots == self@.position,
            s.cash_quote == self@.cash,
            s.open_cost_quote@ == self@.open_cost,
            s.realized_price_pnl_quote@ == self@.realized,
            s.fees_quote == self@.fees,
            s.execution_count == self@.executions.len(),
    {
        LedgerSnapshot {
            position_lots: self.position_lots,
            cash_quote: self.cash_quote,
            open_cost_quote: self.open_cost_quote,
            realized_price_pnl_quote: self.realized_price_pnl_quote,
            fees_quote: self.fees_quote,
            execution_count: self.executions.len(),
        }
    }

    /// Cash plus the position valued at `mark`.
    pub fn equity_quote(&self, mark: PriceTicks) -> (result: Result<i128, LedgerError>)
        ensures
            result is Err <==> !fits_i128(equity_of(self@, mark@)),
            result matches Err(e) ==> e == LedgerError::ArithmeticOverflow,
            result matches Ok(e) ==> e == equity_of(self@, mark@),
    {
        let m = mark.get();
        proof {
            lemma_i64_product_fits(self.position_lots as int, m as int);
        }
        let value: i128 = self.position_lots as i128 * m as i128;
        match self.cash_quote.checked_add(value) {
            Some(e) => Ok(e),
            None => Err(LedgerError::ArithmeticOverflow),
        }
    }

    /// The price profit of the open position if it were closed at `mark`.
    pub fn unrealized_price_pnl_quote(&self, mark: PriceTicks) -> (result: Result<Rational, LedgerError>)
        ensures
            result is Err <==> unrealized_of(self@, mark@) is None,
            result matches Err(e) ==> e == LedgerError::ArithmeticOverflow,
            result matches Ok(u) ==> unrealized_of(self@, mark@) == Some(u@),
    {
        let m = mark.get();
        let abs_pos: i128 = if self.position_lots < 0 { -(self.position_lots as i128) } else { self.position_lots as i128 };
        proof {
            assert(abs_pos <= 0x8000_0000_0000_0000);
            if abs_pos < 0x8000_0000_0000_0000 {
                lemma_i64_product_fits(abs_pos as int, m as int);
            } else {
                assert(abs_pos * m <= 0x8000_0000_0000_0000 * 0x7fff_ffff_ffff_ffff) by (nonlinear_arith)
                    requires
                        abs_pos == 0x8000_0000_0000_0000,
                        0 < m <= 0x7fff_ffff_ffff_ffff,
                ;
            }
        }
        let marked_value: i128 = abs_pos * m as i128;
        let marked = Rational::from_integer(marked_value);
        if self.position_lots >= 0 {
            marked.checked_sub(self.open_cost_quote)
        } else {
            self.open_cost_quote.checked_sub(marked)
        }
    }
}

} // verus!
