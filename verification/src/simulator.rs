//! A deterministic simulated venue: orders arrive after a send latency, are
//! acknowledged later, fill by one of three fill models, and report fills,
//! acknowledgements and cancel confirmations with their own latencies, so that
//! a fill may be reported before the acknowledgement of its order.

use vstd::prelude::*;

use crate::domain::{ClientOrderId, ExecutionKey, PriceTicks, QtyLots, Side};
use crate::ledger::{Fill, FillView};
use crate::oms::OrderEvent;
use crate::render::{decimal, push_decimal, push_signed_decimal, push_text, signed_decimal};
use crate::text::{compare_text, lemma_text_order_basics, lemma_text_order_transitive, text_order};

verus! {

/// When a resting order is considered filled by market data.
#[derive(Debug, Clone, Copy, PartialEq, Eq, Structural)]
pub enum FillModel {
    /// The opposite best price reaches the order's price.
    Touch,
    /// An opposing trade prints strictly through the order's price.
    TradeThrough,
    /// Opposing trades at the order's price first consume the queue ahead.
    L2Queue,
}

/// Latencies in nanoseconds, the maker fee in basis points and the fill model.
#[derive(Debug, Clone, Copy, PartialEq, Eq, Structural)]
pub struct SimulatorConfig {
    pub send_latency_ns: u64,
    pub new_ack_latency_ns: u64,
    pub cancel_latency_ns: u64,
    pub cancel_ack_latency_ns: u64,
    pub fill_report_latency_ns: u64,
    pub maker_fee_bps: u32,
    pub fill_model: FillModel,
}

/// A new limit order sent to the simulated venue.
#[derive(Debug, Clone, PartialEq, Eq)]
pub struct SimOrderRequest {
    pub client_order_id: ClientOrderId,
    pub side: Side,
    pub price: PriceTicks,
    pub qty: QtyLots,
    pub queue_ahead_lots: i64,
}

/// The content of an order request.
pub struct RequestView {
    pub client: Seq<char>,
    pub side: Side,
    pub price: int,
    pub qty: int,
    pub queue_ahead: int,
}

impl View for SimOrderRequest {
    type V = RequestView;

    open spec fn view(&self) -> RequestView {
        RequestView {
            client: self.client_order_id@,
            side: self.side,
            price: self.price@,
            qty: self.qty@,
            queue_ahead: self.queue_ahead_lots as int,
        }
    }
}

/// A trade printed by the market.
#[derive(Debug, Clone, Copy, PartialEq, Eq)]
pub struct MarketTrade {
    pub aggressor: Side,
    pub price: PriceTicks,
    pub qty: QtyLots,
}

/// The content of a market trade.
pub struct TradeView {
    pub aggressor: Side,
    pub price: int,
    pub qty: int,
}

impl View for MarketTrade {
    type V = TradeView;

    open spec fn view(&self) -> TradeView {
        TradeView { aggressor: self.aggressor, price: self.price@, qty: self.qty@ }
    }
}

/// One market-data observation: top of book and an optional trade.
#[derive(Debug, Clone, Copy, PartialEq, Eq)]
pub struct MarketObservation {
    pub at_ns: u64,
    pub best_bid: PriceTicks,
    pub best_ask: PriceTicks,
    pub trade: Option<MarketTrade>,
}

/// The content of a market observation.
pub struct ObservationView {
    pub at_ns: u64,
    pub bid: int,
    pub ask: int,
    pub trade: Option<TradeView>,
}

impl View for MarketObservation {
    type V = ObservationView;

    open spec fn view(&self) -> ObservationView {
        ObservationView {
            at_ns: self.at_ns,
            bid: self.best_bid@,
            ask: self.best_ask@,
            trade: match self.trade {
                Some(t) => Some(t@),
                None => None,
            },
        }
    }
}

/// What the venue tells the client about an order.
#[derive(Debug, Clone, PartialEq, Eq)]
pub enum VenueReport {
    NewAck,
    Fill(Fill),
    CancelAck,
}

/// The content of a venue report.
pub enum ReportView {
    NewAck,
    Fill(FillView),
    CancelAck,
}

impl View for VenueReport {
    type V = ReportView;

    open spec fn view(&self) -> ReportView {
        match self {
            VenueReport::NewAck => ReportView::NewAck,
            VenueReport::Fill(f) => ReportView::Fill(f@),
            VenueReport::CancelAck => ReportView::CancelAck,
        }
    }
}

impl VenueReport {
    /// The order-state event that this report stands for.
    pub fn to_order_event(&self) -> (e: OrderEvent)
        ensures
            self@ is NewAck ==> e is NewAck,
            self@ is CancelAck ==> e is CancelAck,
            self@ matches ReportView::Fill(f) ==> (e matches OrderEvent::Fill { key, qty } && key@ == f.key
                && qty@ == f.qty),
    {
        match self {
            VenueReport::NewAck => OrderEvent::NewAck,
            VenueReport::Fill(fill) => OrderEvent::Fill { key: fill.key.duplicate(), qty: fill.qty },
            VenueReport::CancelAck => OrderEvent::CancelAck,
        }
    }
}

/// A report together with the time at which the client receives it.
#[derive(Debug, Clone, PartialEq, Eq)]
pub struct TimedVenueReport {
    pub at_ns: u64,
    pub client_order_id: ClientOrderId,
    pub report: VenueReport,
    sequence: u64,
}

/// The content of a timed report; `sequence` orders reports due at the same
/// time in the order they were scheduled.
pub struct TimedReportView {
    pub at_ns: u64,
    pub client: Seq<char>,
    pub report: ReportView,
    pub sequence: u64,
}

impl View for TimedVenueReport {
    type V = TimedReportView;

    closed spec fn view(&self) -> TimedReportView {
        TimedReportView {
            at_ns: self.at_ns,
            client: self.client_order_id@,
            report: self.report@,
            sequence: self.sequence,
        }
    }
}

/// Where an order stands at the venue.
#[derive(Debug, Clone, Copy, PartialEq, Eq, Structural)]
pub enum VenueOrderStatus {
    PendingArrival,
    Working,
    PendingCancel,
    Filled,
    Cancelled,
}

/// The venue's own record of an order, for reconciliation.
#[derive(Debug, Clone, Copy, PartialEq, Eq, Structural)]
pub struct VenueOrderTruth {
    pub status: VenueOrderStatus,
    pub filled_lots: i64,
    pub remaining_lots: i64,
}

/// Why the simulated venue refused a request.
#[derive(Debug, Clone, PartialEq, Eq)]
pub enum SimulatorError {
    DuplicateClientOrderId(ClientOrderId),
    UnknownOrder(ClientOrderId),
    InvalidQueueAhead(i64),
    InvalidMarketTime { previous_ns: u64, received_ns: u64 },
    CrossedMarket { best_bid: i64, best_ask: i64 },
    OrderAlreadyTerminal(ClientOrderId),
    ArithmeticOverflow,
}

impl SimulatorError {
    /// The human-readable message for this error.
    pub fn message(&self) -> (s: String)
        ensures
            s@ == match self {
                SimulatorError::DuplicateClientOrderId(id) => "duplicate client order id: "@ + id@,
                SimulatorError::UnknownOrder(id) => "unknown order: "@ + id@,
                SimulatorError::InvalidQueueAhead(qty) => "queue ahead cannot be negative: "@ + signed_decimal(
                    *qty as int,
                ),
                SimulatorError::InvalidMarketTime { previous_ns, received_ns } =>
                    "market time moved backwards: previous="@ + decimal(*previous_ns as nat) + ", received="@
                    + decimal(*received_ns as nat),
                SimulatorError::CrossedMarket { best_bid, best_ask } => "crossed market: best bid "@
                    + signed_decimal(*best_bid as int) + ", best ask "@ + signed_decimal(*best_ask as int),
                SimulatorError::OrderAlreadyTerminal(id) => "order is already terminal: "@ + id@,
                SimulatorError::ArithmeticOverflow => "simulator arithmetic overflow"@,
            },
    {
        match self {
            SimulatorError::DuplicateClientOrderId(id) => {
                let mut s = "duplicate client order id: ".to_owned();
                push_text(&mut s, id.as_str());
                s
            },
            SimulatorError::UnknownOrder(id) => {
                let mut s = "unknown order: ".to_owned();
                push_text(&mut s, id.as_str());
                s
            },
            SimulatorError::InvalidQueueAhead(qty) => {
                let mut s = "queue ahead cannot be negative: ".to_owned();
                push_signed_decimal(&mut s, *qty as i128);
                s
            },
            SimulatorError::InvalidMarketTime { previous_ns, received_ns } => {
                let mut s = "market time moved backwards: previous=".to_owned();
                push_decimal(&mut s, *previous_ns as u128);
                push_text(&mut s, ", received=");
                push_decimal(&mut s, *received_ns as u128);
                s
            },
            SimulatorError::CrossedMarket { best_bid, best_ask } => {
                let mut s = "crossed market: best bid ".to_owned();
                push_signed_decimal(&mut s, *best_bid as i128);
                push_text(&mut s, ", best ask ");
                push_signed_decimal(&mut s, *best_ask as i128);
                s
            },
            SimulatorError::OrderAlreadyTerminal(id) => {
                let mut s = "order is already terminal: ".to_owned();
                push_text(&mut s, id.as_str());
                s
            },
            SimulatorError::ArithmeticOverflow => "simulator arithmetic overflow".to_owned(),
        }
    }
}

/// The content of a simulator error.
pub enum SimErrorView {
    DuplicateClientOrderId(Seq<char>),
    UnknownOrder(Seq<char>),
    InvalidQueueAhead(i64),
    InvalidMarketTime { previous_ns: u64, received_ns: u64 },
    CrossedMarket { best_bid: i64, best_ask: i64 },
    OrderAlreadyTerminal(Seq<char>),
    ArithmeticOverflow,
}

impl View for SimulatorError {
    type V = SimErrorView;

    open spec fn view(&self) -> SimErrorView {
        match self {
            SimulatorError::DuplicateClientOrderId(id) => SimErrorView::DuplicateClientOrderId(id@),
            SimulatorError::UnknownOrder(id) => SimErrorView::UnknownOrder(id@),
            SimulatorError::InvalidQueueAhead(q) => SimErrorView::InvalidQueueAhead(*q),
            SimulatorError::InvalidMarketTime { previous_ns, received_ns } => SimErrorView::InvalidMarketTime {
                previous_ns: *previous_ns,
                received_ns: *received_ns,
            },
            SimulatorError::CrossedMarket { best_bid, best_ask } => SimErrorView::CrossedMarket {
                best_bid: *best_bid,
                best_ask: *best_ask,
            },
            SimulatorError::OrderAlreadyTerminal(id) => SimErrorView::OrderAlreadyTerminal(id@),
            SimulatorError::ArithmeticOverflow => SimErrorView::ArithmeticOverflow,
        }
    }
}

/// A result with its error taken by its view.
pub open spec fn outcome<T>(r: Result<T, SimulatorError>) -> Result<T, SimErrorView> {
    match r {
        Ok(t) => Ok(t),
        Err(e) => Err(e@),
    }
}

/// An order resting at the venue.
#[derive(Debug)]
struct WorkingOrder {
    request: SimOrderRequest,
    accepted_at_ns: u64,
    remaining_lots: i64,
    cancel_effective_at_ns: Option<u64>,
}

/// The content of a resting order.
pub struct WorkingView {
    pub request: RequestView,
    pub accepted_at_ns: u64,
    pub remaining: int,
    pub cancel_at: Option<u64>,
}

impl View for WorkingOrder {
    type V = WorkingView;

    closed spec fn view(&self) -> WorkingView {
        WorkingView {
            request: self.request@,
            accepted_at_ns: self.accepted_at_ns,
            remaining: self.remaining_lots as int,
            cancel_at: self.cancel_effective_at_ns,
        }
    }
}

/// The content of a simulated venue: its configuration and names, its resting
/// orders in ascending order of client id, the reports not yet delivered, and
/// its counters.
pub struct SimView {
    pub config: SimulatorConfig,
    pub venue: Seq<char>,
    pub account: Seq<char>,
    pub instrument: Seq<char>,
    pub orders: Seq<WorkingView>,
    pub reports: Seq<TimedReportView>,
    pub next_sequence: u64,
    pub next_execution: u64,
    pub last_market_ns: u64,
}

/// A resting order is well formed: positive price and size, remaining size
/// within the order size, and no negative queue ahead.
pub open spec fn working_ok(w: WorkingView) -> bool {
    &&& 0 < w.request.price <= i64::MAX
    &&& 0 < w.request.qty <= i64::MAX
    &&& 0 <= w.remaining <= w.request.qty
    &&& 0 <= w.request.queue_ahead <= i64::MAX
}

/// Orders are held in strictly ascending order of client id.
pub open spec fn ids_ascending(orders: Seq<WorkingView>) -> bool {
    forall|i: int, j: int|
        0 <= i < j < orders.len() ==> text_order(
            #[trigger] orders[i].request.client,
            #[trigger] orders[j].request.client,
        ) < 0
}

/// Undelivered reports are held in strictly ascending order of sequence, each
/// below the next sequence to assign.
pub open spec fn sequences_ascending(reports: Seq<TimedReportView>, next: u64) -> bool {
    &&& forall|i: int, j: int| 0 <= i < j < reports.len() ==> (#[trigger] reports[i]).sequence < (#[trigger] reports[j]).sequence
    &&& forall|i: int| 0 <= i < reports.len() ==> (#[trigger] reports[i]).sequence < next
}

/// What every simulated venue keeps.
pub open spec fn sim_inv(v: SimView) -> bool {
    &&& ids_ascending(v.orders)
    &&& forall|i: int| 0 <= i < v.orders.len() ==> working_ok(#[trigger] v.orders[i])
    &&& sequences_ascending(v.reports, v.next_sequence)
}

/// Whether an order with this client id rests at the venue.
pub open spec fn has_order(orders: Seq<WorkingView>, id: Seq<char>) -> bool {
    exists|i: int| 0 <= i < orders.len() && (#[trigger] orders[i]).request.client == id
}

/// The position of the order with this client id.
pub open spec fn order_at(orders: Seq<WorkingView>, id: Seq<char>) -> int {
    choose|i: int| 0 <= i < orders.len() && (#[trigger] orders[i]).request.client == id
}

/// Where an order with this client id goes: after every order whose id sorts
/// before it.
pub open spec fn insert_index(orders: Seq<WorkingView>, id: Seq<char>) -> int
    decreases orders.len(),
{
    if orders.len() == 0 {
        0
    } else if text_order(orders[0].request.client, id) < 0 {
        1 + insert_index(orders.drop_first(), id)
    } else {
        0
    }
}

/// The report scheduled next.
pub open spec fn next_report(v: SimView, at_ns: u64, client: Seq<char>, report: ReportView) -> TimedReportView {
    TimedReportView { at_ns, client, report, sequence: v.next_sequence }
}

/// `v` with one more report scheduled.
pub open spec fn with_report(v: SimView, at_ns: u64, client: Seq<char>, report: ReportView) -> SimView {
    SimView {
        reports: v.reports.push(next_report(v, at_ns, client, report)),
        next_sequence: (v.next_sequence + 1) as u64,
        ..v
    }
}

/// What `submit` does.
pub open spec fn submit_spec(v: SimView, req: RequestView, now_ns: u64) -> Result<SimView, SimErrorView> {
    let accepted = now_ns + v.config.send_latency_ns;
    let ack = accepted + v.config.new_ack_latency_ns;
    if req.queue_ahead < 0 {
        Err(SimErrorView::InvalidQueueAhead(req.queue_ahead as i64))
    } else if has_order(v.orders, req.client) {
        Err(SimErrorView::DuplicateClientOrderId(req.client))
    } else if accepted > u64::MAX || ack > u64::MAX {
        Err(SimErrorView::ArithmeticOverflow)
    } else {
        let w = WorkingView { request: req, accepted_at_ns: accepted as u64, remaining: req.qty, cancel_at: None };
        let v1 = SimView { orders: v.orders.insert(insert_index(v.orders, req.client), w), ..v };
        Ok(with_report(v1, ack as u64, req.client, ReportView::NewAck))
    }
}

/// Whether an order is filled or its cancel has taken effect at `now_ns`.
pub open spec fn is_done(w: WorkingView, now_ns: u64) -> bool {
    w.remaining == 0 || (w.cancel_at matches Some(e) && e <= now_ns)
}

/// What `cancel` does.
pub open spec fn cancel_spec(v: SimView, id: Seq<char>, now_ns: u64) -> Result<SimView, SimErrorView> {
    if !has_order(v.orders, id) {
        Err(SimErrorView::UnknownOrder(id))
    } else {
        let i = order_at(v.orders, id);
        let w = v.orders[i];
        let start = if now_ns >= w.accepted_at_ns {
            now_ns
        } else {
            w.accepted_at_ns
        };
        let effective = start + v.config.cancel_latency_ns;
        let report_at = effective + v.config.cancel_ack_latency_ns;
        if is_done(w, now_ns) {
            Err(SimErrorView::OrderAlreadyTerminal(id))
        } else if w.cancel_at is Some {
            Ok(v)
        } else if effective > u64::MAX || report_at > u64::MAX {
            Err(SimErrorView::ArithmeticOverflow)
        } else {
            let w2 = WorkingView { cancel_at: Some(effective as u64), ..w };
            let v1 = SimView { orders: v.orders.update(i, w2), ..v };
            Ok(with_report(v1, report_at as u64, id, ReportView::CancelAck))
        }
    }
}

/// What `reconcile` answers.
pub open spec fn reconcile_spec(v: SimView, id: Seq<char>, at_ns: u64) -> Result<VenueOrderTruth, SimErrorView> {
    if !has_order(v.orders, id) {
        Err(SimErrorView::UnknownOrder(id))
    } else {
        let w = v.orders[order_at(v.orders, id)];
        let status = if w.remaining == 0 {
            VenueOrderStatus::Filled
        } else if at_ns < w.accepted_at_ns {
            VenueOrderStatus::PendingArrival
        } else if w.cancel_at matches Some(e) && e <= at_ns {
            VenueOrderStatus::Cancelled
        } else if w.cancel_at is Some {
            VenueOrderStatus::PendingCancel
        } else {
            VenueOrderStatus::Working
        };
        Ok(
            VenueOrderTruth {
                status,
                filled_lots: (w.request.qty - w.remaining) as i64,
                remaining_lots: w.remaining as i64,
            },
        )
    }
}

/// Whether an order on `side` at `price` is reached by a trade: the trade's
/// aggressor is on the other side.
pub open spec fn opposing(side: Side, t: TradeView) -> bool {
    match side {
        Side::Buy => t.aggressor == Side::Sell,
        Side::Sell => t.aggressor == Side::Buy,
    }
}

/// Whether a trade price is strictly better for the aggressor than the
/// order's price, that is, through it.
pub open spec fn through(side: Side, price: int, t: TradeView) -> bool {
    match side {
        Side::Buy => t.price < price,
        Side::Sell => t.price > price,
    }
}

/// What a fill model fills of a resting order on one observation, and the
/// order as the model leaves it (the queue model consumes queue ahead).
pub open spec fn fill_step(model: FillModel, w: WorkingView, obs: ObservationView) -> (WorkingView, int) {
    let r = w.request;
    match model {
        FillModel::Touch => {
            let touched = match r.side {
                Side::Buy => obs.ask <= r.price,
                Side::Sell => obs.bid >= r.price,
            };
            (w, if touched { w.remaining } else { 0 })
        },
        FillModel::TradeThrough => match obs.trade {
            None => (w, 0),
            Some(t) => (w, if opposing(r.side, t) && through(r.side, r.price, t) { w.remaining } else { 0 }),
        },
        FillModel::L2Queue => match obs.trade {
            None => (w, 0),
            Some(t) => if !opposing(r.side, t) {
                (w, 0)
            } else if through(r.side, r.price, t) {
                (w, w.remaining)
            } else if t.price != r.price {
                (w, 0)
            } else {
                let consumed = if r.queue_ahead <= t.qty { r.queue_ahead } else { t.qty };
                let left = t.qty - consumed;
                let w2 = WorkingView {
                    request: RequestView { queue_ahead: r.queue_ahead - consumed, ..r },
                    ..w
                };
                (w2, if left <= w.remaining { left } else { w.remaining })
            },
        },
    }
}

/// A fill found on one observation, before it is reported.
pub struct PendingFill {
    pub client: Seq<char>,
    pub side: Side,
    pub price: int,
    pub qty: int,
}

/// An observation that market data can carry: positive prices and a positive
/// trade size.
pub open spec fn observation_ok(obs: ObservationView) -> bool {
    &&& obs.bid > 0
    &&& obs.ask > 0
    &&& (obs.trade matches Some(t) ==> t.price > 0 && 0 < t.qty <= i64::MAX)
}

/// What one observation does to one resting order: the order afterwards and
/// the lots it fills. Filled and cancelled orders, and orders that have not
/// arrived yet, are left alone.
pub open spec fn market_step(model: FillModel, w: WorkingView, obs: ObservationView) -> (WorkingView, int) {
    if w.remaining == 0 || obs.at_ns < w.accepted_at_ns {
        (w, 0)
    } else if w.cancel_at matches Some(e) && obs.at_ns >= e {
        (w, 0)
    } else {
        let (w2, f) = fill_step(model, w, obs);
        if f == 0 {
            (w2, 0)
        } else {
            (WorkingView { remaining: w2.remaining - f, ..w2 }, f)
        }
    }
}

/// The first `k` resting orders after one observation, and the fills they
/// produce, in order of client id.
pub open spec fn scan_orders(model: FillModel, orders: Seq<WorkingView>, obs: ObservationView, k: int) -> (
    Seq<WorkingView>,
    Seq<PendingFill>,
)
    decreases k,
{
    if k <= 0 {
        (Seq::empty(), Seq::empty())
    } else {
        let prev = scan_orders(model, orders, obs, k - 1);
        let (w, f) = market_step(model, orders[k - 1], obs);
        (
            prev.0.push(w),
            if f > 0 {
                prev.1.push(PendingFill { client: w.request.client, side: w.request.side, price: w.request.price, qty: f })
            } else {
                prev.1
            },
        )
    }
}

/// The execution id of the `n`-th simulated execution.
pub open spec fn sim_execution_id(n: u64) -> Seq<char> {
    "sim-"@ + decimal(n as nat)
}

/// Reporting one fill: it takes the next execution id, pays the maker fee
/// (rounded toward zero) and is due one fill-report latency after the
/// observation. On an overflow the venue stops there, with the execution
/// counter already advanced when the overflow came after it.
pub open spec fn emit_one(v: SimView, f: PendingFill, obs: ObservationView) -> (SimView, Option<SimErrorView>) {
    let n = v.next_execution;
    if n + 1 > u64::MAX {
        (v, Some(SimErrorView::ArithmeticOverflow))
    } else {
        let v1 = SimView { next_execution: (n + 1) as u64, ..v };
        let base = f.price * f.qty;
        let gross = base * v.config.maker_fee_bps;
        let report_at = obs.at_ns + v.config.fill_report_latency_ns;
        if base > i128::MAX || gross > i128::MAX || report_at > u64::MAX {
            (v1, Some(SimErrorView::ArithmeticOverflow))
        } else {
            let fill = FillView {
                key: (v.venue, v.account, v.instrument, sim_execution_id(n)),
                side: f.side,
                price: f.price,
                qty: f.qty,
                fee: gross / 10000,
            };
            (with_report(v1, report_at as u64, f.client, ReportView::Fill(fill)), None)
        }
    }
}

/// Reporting the first `k` fills, stopping at the first error.
pub open spec fn emit_prefix(v: SimView, fills: Seq<PendingFill>, obs: ObservationView, k: int) -> (
    SimView,
    Option<SimErrorView>,
)
    decreases k,
{
    if k <= 0 {
        (v, None)
    } else {
        let prev = emit_prefix(v, fills, obs, k - 1);
        if prev.1 is Some {
            prev
        } else {
            emit_one(prev.0, fills[k - 1], obs)
        }
    }
}

/// What `on_market` does: the venue afterwards and the error, if any.
pub open spec fn on_market_spec(v: SimView, obs: ObservationView) -> (SimView, Option<SimErrorView>) {
    if obs.at_ns < v.last_market_ns {
        (v, Some(SimErrorView::InvalidMarketTime { previous_ns: v.last_market_ns, received_ns: obs.at_ns }))
    } else if obs.bid >= obs.ask {
        (v, Some(SimErrorView::CrossedMarket { best_bid: obs.bid as i64, best_ask: obs.ask as i64 }))
    } else {
        let scanned = scan_orders(v.config.fill_model, v.orders, obs, v.orders.len() as int);
        let v1 = SimView { last_market_ns: obs.at_ns, orders: scanned.0, ..v };
        emit_prefix(v1, scanned.1, obs, scanned.1.len() as int)
    }
}

/// Delivery order: by due time, then by the order of scheduling.
pub open spec fn delivered_before(a: TimedReportView, b: TimedReportView) -> bool {
    a.at_ns < b.at_ns || (a.at_ns == b.at_ns && a.sequence < b.sequence)
}

/// Reports in strictly ascending delivery order.
pub open spec fn delivery_ordered(s: Seq<TimedReportView>) -> bool {
    forall|i: int, j: int| 0 <= i < j < s.len() ==> delivered_before(#[trigger] s[i], #[trigger] s[j])
}

/// Whether a report is due by `through_ns`.
pub open spec fn due_by(through_ns: u64) -> spec_fn(TimedReportView) -> bool {
    |r: TimedReportView| r.at_ns <= through_ns
}

/// Whether a report is due only after `through_ns`.
pub open spec fn due_after(through_ns: u64) -> spec_fn(TimedReportView) -> bool {
    |r: TimedReportView| r.at_ns > through_ns
}

/// The views of a list of reports.
pub open spec fn report_views(s: Seq<TimedVenueReport>) -> Seq<TimedReportView> {
    s.map_values(|r: TimedVenueReport| r@)
}

/// A fill found on an observation, held until it is reported.
struct FoundFill {
    client_order_id: ClientOrderId,
    side: Side,
    price: PriceTicks,
    qty: QtyLots,
}

impl View for FoundFill {
    type V = PendingFill;

    closed spec fn view(&self) -> PendingFill {
        PendingFill { client: self.client_order_id@, side: self.side, price: self.price@, qty: self.qty@ }
    }
}

/// An order cannot fill on market data observed before it reaches the venue.
pub proof fn law_no_fill_before_arrival(model: FillModel, w: WorkingView, obs: ObservationView)
    requires
        obs.at_ns < w.accepted_at_ns,
    ensures
        market_step(model, w, obs) == (w, 0int),
{
}

/// Once a cancel has taken effect, an order fills no more.
pub proof fn law_no_fill_after_cancel_effective(model: FillModel, w: WorkingView, obs: ObservationView, effective: u64)
    requires
        w.cancel_at == Some(effective),
        obs.at_ns >= effective,
    ensures
        market_step(model, w, obs) == (w, 0int),
{
}

/// Each simulated fill is positive and at most what remains, the remaining
/// size drops by exactly the fill, and the order's identity, side, price and
/// size stay as they were.
pub proof fn law_fill_conservation(model: FillModel, w: WorkingView, obs: ObservationView)
    requires
        working_ok(w),
        observation_ok(obs),
    ensures
        ({
            let (w2, f) = market_step(model, w, obs);
            &&& 0 <= f <= w.remaining
            &&& w2.remaining == w.remaining - f
            &&& w2.request.client == w.request.client
            &&& w2.request.side == w.request.side
            &&& w2.request.price == w.request.price
            &&& w2.request.qty == w.request.qty
            &&& w2.accepted_at_ns == w.accepted_at_ns
            &&& w2.cancel_at == w.cancel_at
            &&& working_ok(w2)
        }),
{
}

/// Scanning the orders steps each of them once, in order, and collects only
/// positive fills.
proof fn lemma_scan(model: FillModel, orders: Seq<WorkingView>, obs: ObservationView, k: int)
    requires
        0 <= k <= orders.len(),
    ensures
        scan_orders(model, orders, obs, k).0.len() == k,
        forall|j: int| 0 <= j < k ==> (#[trigger] scan_orders(model, orders, obs, k).0[j]) == market_step(
            model,
            orders[j],
            obs,
        ).0,
        forall|j: int|
            0 <= j < scan_orders(model, orders, obs, k).1.len() ==> (#[trigger] scan_orders(model, orders, obs, k).1[j]).qty
                > 0,
        scan_orders(model, orders, obs, k).1.len() <= k,
    decreases k,
{
    if k > 0 {
        lemma_scan(model, orders, obs, k - 1);
    }
}

/// Reporting fills leaves the resting orders alone.
proof fn lemma_emit_keeps_orders(v: SimView, fills: Seq<PendingFill>, obs: ObservationView, k: int)
    ensures
        emit_prefix(v, fills, obs, k).0.orders == v.orders,
        emit_prefix(v, fills, obs, k).0.last_market_ns == v.last_market_ns,
        emit_prefix(v, fills, obs, k).0.next_execution >= v.next_execution,
    decreases k,
{
    if k > 0 {
        lemma_emit_keeps_orders(v, fills, obs, k - 1);
    }
}

/// An observation never grows an order's remaining size, never changes which
/// orders rest at the venue, and moves the market clock to its own time when
/// it is accepted; a refused observation changes nothing.
pub proof fn law_market_never_unfills(v: SimView, obs: ObservationView)
    requires
        sim_inv(v),
        observation_ok(obs),
    ensures
        ({
            let after = on_market_spec(v, obs).0;
            &&& after.orders.len() == v.orders.len()
            &&& forall|j: int|
                0 <= j < v.orders.len() ==> (#[trigger] after.orders[j]).request.client == v.orders[j].request.client
                    && after.orders[j].remaining <= v.orders[j].remaining
            &&& (obs.at_ns < v.last_market_ns || obs.bid >= obs.ask) ==> after == v
            &&& !(obs.at_ns < v.last_market_ns || obs.bid >= obs.ask) ==> after.last_market_ns == obs.at_ns
        }),
{
    if !(obs.at_ns < v.last_market_ns || obs.bid >= obs.ask) {
        let scanned = scan_orders(v.config.fill_model, v.orders, obs, v.orders.len() as int);
        lemma_scan(v.config.fill_model, v.orders, obs, v.orders.len() as int);
        let v1 = SimView { last_market_ns: obs.at_ns, orders: scanned.0, ..v };
        lemma_emit_keeps_orders(v1, scanned.1, obs, scanned.1.len() as int);
        assert forall|j: int| 0 <= j < v.orders.len() implies (#[trigger] scanned.0[j]).request.client
            == v.orders[j].request.client && scanned.0[j].remaining <= v.orders[j].remaining by {
            law_fill_conservation(v.config.fill_model, v.orders[j], obs);
        }
    }
}

/// The report that the `k`th fill of one observation is given: the next
/// execution id counted from `v`, the fill's side, price and size, the maker
/// fee rounded toward zero, due one fill-report latency after the
/// observation, with the next sequence counted from `v`.
pub open spec fn fill_report(v: SimView, obs: ObservationView, f: PendingFill, k: int) -> TimedReportView {
    TimedReportView {
        at_ns: (obs.at_ns + v.config.fill_report_latency_ns) as u64,
        client: f.client,
        report: ReportView::Fill(
            FillView {
                key: (v.venue, v.account, v.instrument, sim_execution_id((v.next_execution + k) as u64)),
                side: f.side,
                price: f.price,
                qty: f.qty,
                fee: f.price * f.qty * v.config.maker_fee_bps / 10000,
            },
        ),
        sequence: (v.next_sequence + k) as u64,
    }
}

/// How many of the first `j` resting orders fill on one observation: the
/// place of the `j`th order's fill among the fills reported.
pub open spec fn fill_rank(model: FillModel, orders: Seq<WorkingView>, obs: ObservationView, j: int) -> int {
    scan_orders(model, orders, obs, j).1.len() as int
}

/// The resting order whose fill has rank `k` among the fills of one
/// observation.
pub open spec fn fill_owner(model: FillModel, orders: Seq<WorkingView>, obs: ObservationView, k: int) -> int {
    choose|j: int|
        0 <= j < orders.len() && market_step(model, orders[j], obs).1 > 0 && fill_rank(model, orders, obs, j) == k
}

/// One resting order before and after an accepted observation: it keeps its
/// identity, side, price, size, arrival and cancel time; its remaining size
/// never grows; and it drops only if the order had arrived, its cancel had
/// not taken effect, and something remained.
pub open spec fn order_after_market(w: WorkingView, w2: WorkingView, obs: ObservationView) -> bool {
    &&& w2.request.client == w.request.client
    &&& w2.request.side == w.request.side
    &&& w2.request.price == w.request.price
    &&& w2.request.qty == w.request.qty
    &&& w2.accepted_at_ns == w.accepted_at_ns
    &&& w2.cancel_at == w.cancel_at
    &&& 0 <= w2.remaining <= w.remaining
    &&& w2.remaining < w.remaining ==> {
        &&& w.accepted_at_ns <= obs.at_ns
        &&& !(w.cancel_at matches Some(e) && obs.at_ns >= e)
        &&& w.remaining > 0
    }
}

/// The fill of a resting order as it is reported.
pub open spec fn order_fill(w: WorkingView, w2: WorkingView) -> PendingFill {
    PendingFill {
        client: w.request.client,
        side: w.request.side,
        price: w.request.price,
        qty: w.remaining - w2.remaining,
    }
}

/// Reporting fills without an error appends one report per fill, in order,
/// and advances both counters by the number of fills.
proof fn lemma_emit_success(v: SimView, fills: Seq<PendingFill>, obs: ObservationView, m: int)
    requires
        0 <= m <= fills.len(),
        v.next_sequence + m <= u64::MAX,
        emit_prefix(v, fills, obs, m).1 is None,
    ensures
        ({
            let s = emit_prefix(v, fills, obs, m).0;
            &&& s.reports.len() == v.reports.len() + m
            &&& forall|k: int| 0 <= k < v.reports.len() ==> #[trigger] s.reports[k] == v.reports[k]
            &&& forall|k: int|
                v.reports.len() <= k < v.reports.len() + m ==> #[trigger] s.reports[k] == fill_report(
                    v,
                    obs,
                    fills[k - v.reports.len()],
                    k - v.reports.len(),
                )
            &&& s.next_execution == v.next_execution + m
            &&& s.next_sequence == v.next_sequence + m
            &&& s.orders == v.orders
            &&& s.last_market_ns == v.last_market_ns
        }),
    decreases m,
{
    if m > 0 {
        let prev = emit_prefix(v, fills, obs, m - 1);
        if prev.1 is Some {
            assert(emit_prefix(v, fills, obs, m) == prev);
        }
        lemma_emit_success(v, fills, obs, m - 1);
        lemma_emit_keeps_fields(v, fills, obs, m - 1);
        let p = prev.0;
        let f = fills[m - 1];
        let s = emit_prefix(v, fills, obs, m).0;
        assert(emit_prefix(v, fills, obs, m) == emit_one(p, f, obs));
        assert(s.reports == p.reports.push(fill_report(v, obs, f, m - 1)));
        assert forall|k: int| 0 <= k < v.reports.len() implies #[trigger] s.reports[k] == v.reports[k] by {
            assert(s.reports[k] == p.reports[k]);
        }
        assert forall|k: int| v.reports.len() <= k < v.reports.len() + m implies #[trigger] s.reports[k] == fill_report(
            v,
            obs,
            fills[k - v.reports.len()],
            k - v.reports.len(),
        ) by {
            if k < v.reports.len() + m - 1 {
                assert(s.reports[k] == p.reports[k]);
            }
        }
    }
}

/// Reporting fills keeps the venue's configuration and names.
proof fn lemma_emit_keeps_fields(v: SimView, fills: Seq<PendingFill>, obs: ObservationView, m: int)
    ensures
        emit_prefix(v, fills, obs, m).0.config == v.config,
        emit_prefix(v, fills, obs, m).0.venue == v.venue,
        emit_prefix(v, fills, obs, m).0.account == v.account,
        emit_prefix(v, fills, obs, m).0.instrument == v.instrument,
    decreases m,
{
    if m > 0 {
        lemma_emit_keeps_fields(v, fills, obs, m - 1);
    }
}

/// The fill of the `j`th order, when positive, sits at its rank among the
/// fills of the first `m` orders.
proof fn lemma_scan_at(model: FillModel, orders: Seq<WorkingView>, obs: ObservationView, j: int, m: int)
    requires
        0 <= j < m <= orders.len(),
        market_step(model, orders[j], obs).1 > 0,
    ensures
        fill_rank(model, orders, obs, j) < fill_rank(model, orders, obs, m),
        scan_orders(model, orders, obs, m).1[fill_rank(model, orders, obs, j)] == (PendingFill {
            client: orders[j].request.client,
            side: orders[j].request.side,
            price: orders[j].request.price,
            qty: market_step(model, orders[j], obs).1,
        }),
    decreases m,
{
    if m > j + 1 {
        lemma_scan_at(model, orders, obs, j, m - 1);
    }
}

/// Every fill among the first `m` orders comes from one of them.
proof fn lemma_scan_source(model: FillModel, orders: Seq<WorkingView>, obs: ObservationView, m: int, k: int) -> (j: int)
    requires
        0 <= m <= orders.len(),
        0 <= k < fill_rank(model, orders, obs, m),
    ensures
        0 <= j < m,
        market_step(model, orders[j], obs).1 > 0,
        fill_rank(model, orders, obs, j) == k,
    decreases m,
{
    if m == 0 {
        0
    } else if k < fill_rank(model, orders, obs, m - 1) {
        lemma_scan_source(model, orders, obs, m - 1, k)
    } else {
        m - 1
    }
}

/// Fill ranks never decrease along the orders.
proof fn lemma_rank_monotone(model: FillModel, orders: Seq<WorkingView>, obs: ObservationView, a: int, b: int)
    requires
        0 <= a <= b <= orders.len(),
    ensures
        fill_rank(model, orders, obs, a) <= fill_rank(model, orders, obs, b),
    decreases b - a,
{
    if b > a {
        lemma_rank_monotone(model, orders, obs, a, b - 1);
    }
}

/// What an accepted observation does to the whole venue. Each resting order
/// keeps its identity and terms, its remaining size never grows, and it
/// drops only if it had arrived, its cancel had not taken effect and
/// something remained. Each order whose remaining size drops gets exactly
/// one new fill report, at its rank among the orders that fill (in order of
/// client id): the next execution id, its side and price, the size it
/// dropped by, the maker fee and the due time one fill-report latency after
/// the observation; no other report is added and the earlier ones stay.
pub proof fn law_on_market_fills_and_reports(v: SimView, obs: ObservationView)
    requires
        sim_inv(v),
        observation_ok(obs),
        v.next_sequence + v.orders.len() <= u64::MAX,
        obs.at_ns >= v.last_market_ns,
        obs.bid < obs.ask,
        on_market_spec(v, obs).1 is None,
    ensures
        ({
            let after = on_market_spec(v, obs).0;
            let model = v.config.fill_model;
            let n = v.orders.len() as int;
            let count = fill_rank(model, v.orders, obs, n);
            &&& after.orders.len() == n
            &&& after.last_market_ns == obs.at_ns
            &&& after.next_execution == v.next_execution + count
            &&& after.next_sequence == v.next_sequence + count
            &&& after.reports.len() == v.reports.len() + count
            &&& forall|k: int| 0 <= k < v.reports.len() ==> #[trigger] after.reports[k] == v.reports[k]
            &&& forall|j: int| 0 <= j < n ==> order_after_market(v.orders[j], #[trigger] after.orders[j], obs)
            &&& forall|j: int|
                0 <= j < n && after.orders[j].remaining < v.orders[j].remaining ==> #[trigger] fill_rank(
                    model,
                    v.orders,
                    obs,
                    j,
                ) < count && after.reports[v.reports.len() + fill_rank(model, v.orders, obs, j)] == fill_report(
                    v,
                    obs,
                    order_fill(v.orders[j], after.orders[j]),
                    fill_rank(model, v.orders, obs, j),
                )
            &&& forall|k: int|
                0 <= k < count ==> {
                    let j = #[trigger] fill_owner(model, v.orders, obs, k);
                    &&& 0 <= j < n
                    &&& after.orders[j].remaining < v.orders[j].remaining
                    &&& fill_rank(model, v.orders, obs, j) == k
                }
            &&& forall|j1: int, j2: int|
                0 <= j1 < j2 < n && after.orders[j1].remaining < v.orders[j1].remaining
                    && after.orders[j2].remaining < v.orders[j2].remaining ==> #[trigger] fill_rank(
                    model,
                    v.orders,
                    obs,
                    j1,
                ) < #[trigger] fill_rank(model, v.orders, obs, j2)
        }),
{
    let model = v.config.fill_model;
    let n = v.orders.len() as int;
    let scanned = scan_orders(model, v.orders, obs, n);
    let fills = scanned.1;
    let v1 = SimView { last_market_ns: obs.at_ns, orders: scanned.0, ..v };
    let after = on_market_spec(v, obs).0;
    assert(on_market_spec(v, obs) == emit_prefix(v1, fills, obs, fills.len() as int));
    lemma_scan(model, v.orders, obs, n);
    lemma_emit_success(v1, fills, obs, fills.len() as int);
    lemma_emit_keeps_orders(v1, fills, obs, fills.len() as int);
    assert(after.orders == scanned.0);
    assert forall|j: int| 0 <= j < n implies order_after_market(v.orders[j], #[trigger] after.orders[j], obs)
        && (after.orders[j].remaining < v.orders[j].remaining <==> market_step(model, v.orders[j], obs).1 > 0)
        && market_step(model, v.orders[j], obs).1 == v.orders[j].remaining - after.orders[j].remaining by {
        law_fill_conservation(model, v.orders[j], obs);
        assert(after.orders[j] == market_step(model, v.orders[j], obs).0);
    }
    assert forall|j: int|
        0 <= j < n && after.orders[j].remaining < v.orders[j].remaining implies #[trigger] fill_rank(
        model,
        v.orders,
        obs,
        j,
    ) < fill_rank(model, v.orders, obs, n) && after.reports[v.reports.len() + fill_rank(model, v.orders, obs, j)]
        == fill_report(v, obs, order_fill(v.orders[j], after.orders[j]), fill_rank(model, v.orders, obs, j)) by {
        lemma_scan_at(model, v.orders, obs, j, n);
        let k = fill_rank(model, v.orders, obs, j);
        assert(after.reports[v1.reports.len() + k] == fill_report(v1, obs, fills[k], k));
        assert(fills[k] == order_fill(v.orders[j], after.orders[j]));
    }
    assert forall|k: int| 0 <= k < fill_rank(model, v.orders, obs, n) implies {
        let j = #[trigger] fill_owner(model, v.orders, obs, k);
        &&& 0 <= j < n
        &&& after.orders[j].remaining < v.orders[j].remaining
        &&& fill_rank(model, v.orders, obs, j) == k
    } by {
        let w = lemma_scan_source(model, v.orders, obs, n, k);
        let j = fill_owner(model, v.orders, obs, k);
        assert(0 <= j < n && market_step(model, v.orders[j], obs).1 > 0 && fill_rank(model, v.orders, obs, j) == k);
        assert(after.orders[j].remaining < v.orders[j].remaining);
    }
    assert forall|j1: int, j2: int|
        0 <= j1 < j2 < n && after.orders[j1].remaining < v.orders[j1].remaining
            && after.orders[j2].remaining < v.orders[j2].remaining implies #[trigger] fill_rank(
        model,
        v.orders,
        obs,
        j1,
    ) < #[trigger] fill_rank(model, v.orders, obs, j2) by {
        lemma_scan_at(model, v.orders, obs, j1, j2);
    }
}

/// An observation behind the last accepted one is refused as a backwards
/// market time, and a crossed or locked top of book as a crossed market;
/// either refusal leaves the venue exactly as it was.
pub proof fn law_on_market_refusals(v: SimView, obs: ObservationView)
    ensures
        obs.at_ns < v.last_market_ns ==> on_market_spec(v, obs) == (
            v,
            Some(SimErrorView::InvalidMarketTime { previous_ns: v.last_market_ns, received_ns: obs.at_ns }),
        ),
        obs.at_ns >= v.last_market_ns && obs.bid >= obs.ask ==> on_market_spec(v, obs) == (
            v,
            Some(SimErrorView::CrossedMarket { best_bid: obs.bid as i64, best_ask: obs.ask as i64 }),
        ),
{
}

/// Whether a trade's aggressor sells into a resting buy or buys into a
/// resting sell.
pub open spec fn aggressor_opposes(side: Side, t: TradeView) -> bool {
    (side == Side::Buy && t.aggressor == Side::Sell) || (side == Side::Sell && t.aggressor == Side::Buy)
}

/// What each fill model fills of a resting order on one observation:
/// - touch fills everything remaining once the opposite best price reaches
///   the order's price (the ask at or below a buy, the bid at or above a
///   sell), and nothing otherwise;
/// - trade-through fills everything remaining on an opposing trade strictly
///   through the order's price (below a buy, above a sell), and nothing
///   otherwise;
/// - the queue model fills everything remaining on an opposing trade strictly
///   through the price; on an opposing trade at the order's price the trade
///   first consumes the queue ahead and the order fills what is left of the
///   trade, up to its remaining size; any other observation fills nothing.
/// Only the queue model changes the order, and only its queue ahead.
pub proof fn law_fill_models(model: FillModel, w: WorkingView, obs: ObservationView)
    requires
        working_ok(w),
        observation_ok(obs),
    ensures
        ({
            let (w2, f) = fill_step(model, w, obs);
            let r = w.request;
            &&& w2 == (WorkingView { request: RequestView { queue_ahead: w2.request.queue_ahead, ..r }, ..w })
            &&& model == FillModel::Touch ==> w2 == w && f == (if (r.side == Side::Buy && obs.ask <= r.price) || (
                r.side == Side::Sell && obs.bid >= r.price) {
                w.remaining
            } else {
                0
            })
            &&& model == FillModel::TradeThrough ==> w2 == w && f == (if obs.trade matches Some(t) && aggressor_opposes(
                r.side,
                t,
            ) && ((r.side == Side::Buy && t.price < r.price) || (r.side == Side::Sell && t.price > r.price)) {
                w.remaining
            } else {
                0
            })
            &&& model == FillModel::L2Queue ==> match obs.trade {
                None => w2 == w && f == 0,
                Some(t) => if !aggressor_opposes(r.side, t) {
                    w2 == w && f == 0
                } else if (r.side == Side::Buy && t.price < r.price) || (r.side == Side::Sell && t.price > r.price) {
                    w2 == w && f == w.remaining
                } else if t.price == r.price {
                    &&& w2.request.queue_ahead == (if r.queue_ahead > t.qty { r.queue_ahead - t.qty } else { 0 })
                    &&& f == (if t.qty <= r.queue_ahead {
                        0
                    } else if t.qty - r.queue_ahead <= w.remaining {
                        t.qty - r.queue_ahead
                    } else {
                        w.remaining
                    })
                } else {
                    w2 == w && f == 0
                },
            }
        }),
{
}

/// On the queue model, an opposing trade strictly through the price of an
/// order that has arrived, is not cancelled and has something left fills all
/// that is left.
pub proof fn law_queue_model_trade_through_fills_all(w: WorkingView, obs: ObservationView, t: TradeView)
    requires
        working_ok(w),
        observation_ok(obs),
        obs.trade == Some(t),
        aggressor_opposes(w.request.side, t),
        (w.request.side == Side::Buy && t.price < w.request.price) || (w.request.side == Side::Sell && t.price
            > w.request.price),
        w.remaining > 0,
        w.accepted_at_ns <= obs.at_ns,
        !(w.cancel_at matches Some(e) && obs.at_ns >= e),
    ensures
        market_step(FillModel::L2Queue, w, obs).1 == w.remaining,
        market_step(FillModel::L2Queue, w, obs).0.remaining == 0,
{
    law_fill_models(FillModel::L2Queue, w, obs);
}

/// A new order is refused for a negative queue ahead, a client id already in
/// use, or a time overflow, in that order, and changes nothing then.
/// Otherwise it rests at the venue from `now_ns` plus the send latency with
/// all its quantity remaining and no cancel, every order already there stays,
/// and exactly one acknowledgement is queued, due one acknowledgement
/// latency after arrival, with the next sequence.
pub proof fn law_submit(v: SimView, req: RequestView, now_ns: u64)
    requires
        sim_inv(v),
    ensures
        req.queue_ahead < 0 ==> submit_spec(v, req, now_ns) == Err::<SimView, SimErrorView>(
            SimErrorView::InvalidQueueAhead(req.queue_ahead as i64),
        ),
        req.queue_ahead >= 0 && (exists|i: int| 0 <= i < v.orders.len() && #[trigger] v.orders[i].request.client
            == req.client) ==> submit_spec(v, req, now_ns) == Err::<SimView, SimErrorView>(
            SimErrorView::DuplicateClientOrderId(req.client),
        ),
        submit_spec(v, req, now_ns) is Ok ==> ({
            let n = submit_spec(v, req, now_ns)->Ok_0;
            let arrival = now_ns + v.config.send_latency_ns;
            &&& n.orders.len() == v.orders.len() + 1
            &&& n.orders.contains(
                WorkingView { request: req, accepted_at_ns: arrival as u64, remaining: req.qty, cancel_at: None },
            )
            &&& forall|w: WorkingView| v.orders.contains(w) ==> #[trigger] n.orders.contains(w)
            &&& n.reports == v.reports.push(
                TimedReportView {
                    at_ns: (arrival + v.config.new_ack_latency_ns) as u64,
                    client: req.client,
                    report: ReportView::NewAck,
                    sequence: v.next_sequence,
                },
            )
            &&& n.next_sequence == (v.next_sequence + 1) as u64
            &&& n.next_execution == v.next_execution
            &&& n.last_market_ns == v.last_market_ns
        }),
{
    if let Ok(n) = submit_spec(v, req, now_ns) {
        let i = insert_index(v.orders, req.client);
        lemma_insert_index_bounds(v.orders, req.client);
        let w = WorkingView {
            request: req,
            accepted_at_ns: (now_ns + v.config.send_latency_ns) as u64,
            remaining: req.qty,
            cancel_at: None,
        };
        assert(n.orders[i] == w);
        assert forall|x: WorkingView| v.orders.contains(x) implies #[trigger] n.orders.contains(x) by {
            let j = choose|j: int| 0 <= j < v.orders.len() && v.orders[j] == x;
            if j < i {
                assert(n.orders[j] == x);
            } else {
                assert(n.orders[j + 1] == x);
            }
        }
    }
}

/// The insertion index lies within the orders.
proof fn lemma_insert_index_bounds(orders: Seq<WorkingView>, id: Seq<char>)
    ensures
        0 <= insert_index(orders, id) <= orders.len(),
    decreases orders.len(),
{
    if orders.len() > 0 && text_order(orders[0].request.client, id) < 0 {
        lemma_insert_index_bounds(orders.drop_first(), id);
    }
}

/// A cancel for an unknown id is refused as unknown; for a filled order, or
/// one whose cancel has already taken effect, as terminal; a second cancel
/// while one is in flight changes nothing. Otherwise only that order changes:
/// its cancel takes effect one cancel latency after the later of `now_ns` and
/// its arrival, and exactly one cancel confirmation is queued one
/// acknowledgement latency after that.
pub proof fn law_cancel(v: SimView, id: Seq<char>, now_ns: u64, i: int)
    requires
        sim_inv(v),
        0 <= i < v.orders.len(),
        v.orders[i].request.client == id,
    ensures
        ({
            let w = v.orders[i];
            let start = if now_ns >= w.accepted_at_ns { now_ns as int } else { w.accepted_at_ns as int };
            let effective = start + v.config.cancel_latency_ns;
            &&& (w.remaining == 0 || (w.cancel_at matches Some(e) && e <= now_ns)) ==> cancel_spec(v, id, now_ns)
                == Err::<SimView, SimErrorView>(SimErrorView::OrderAlreadyTerminal(id))
            &&& (w.remaining > 0 && (w.cancel_at matches Some(e) && e > now_ns)) ==> cancel_spec(v, id, now_ns)
                == Ok::<SimView, SimErrorView>(v)
            &&& (w.cancel_at is None && cancel_spec(v, id, now_ns) is Ok) ==> ({
                let n = cancel_spec(v, id, now_ns)->Ok_0;
                &&& n.orders == v.orders.update(i, WorkingView { cancel_at: Some(effective as u64), ..w })
                &&& n.reports == v.reports.push(
                    TimedReportView {
                        at_ns: (effective + v.config.cancel_ack_latency_ns) as u64,
                        client: id,
                        report: ReportView::CancelAck,
                        sequence: v.next_sequence,
                    },
                )
                &&& n.next_sequence == (v.next_sequence + 1) as u64
            })
        }),
        !has_order(v.orders, id) ==> cancel_spec(v, id, now_ns) == Err::<SimView, SimErrorView>(
            SimErrorView::UnknownOrder(id),
        ),
{
    let k = order_at(v.orders, id);
    lemma_ids_unique(v.orders, i, k);
}

/// What reconciliation reports of a resting order at `at_ns`: the filled and
/// remaining sizes, and the status: filled when nothing remains, otherwise
/// pending arrival before it reaches the venue, cancelled once its cancel has
/// taken effect, cancel-pending while a cancel is in flight, working
/// otherwise. An unknown id is refused.
pub proof fn law_reconcile(v: SimView, id: Seq<char>, at_ns: u64, i: int)
    requires
        sim_inv(v),
        0 <= i < v.orders.len(),
        v.orders[i].request.client == id,
    ensures
        ({
            let w = v.orders[i];
            &&& reconcile_spec(v, id, at_ns) matches Ok(t)
            &&& t.filled_lots == w.request.qty - w.remaining
            &&& t.remaining_lots == w.remaining
            &&& t.filled_lots + t.remaining_lots == w.request.qty
            &&& (w.remaining == 0 <==> t.status == VenueOrderStatus::Filled)
            &&& w.remaining > 0 && at_ns < w.accepted_at_ns ==> t.status == VenueOrderStatus::PendingArrival
            &&& w.remaining > 0 && at_ns >= w.accepted_at_ns && (w.cancel_at matches Some(e) && e <= at_ns)
                ==> t.status == VenueOrderStatus::Cancelled
            &&& w.remaining > 0 && at_ns >= w.accepted_at_ns && (w.cancel_at matches Some(e) && e > at_ns)
                ==> t.status == VenueOrderStatus::PendingCancel
            &&& w.remaining > 0 && at_ns >= w.accepted_at_ns && w.cancel_at is None ==> t.status
                == VenueOrderStatus::Working
        }),
        !has_order(v.orders, id) ==> reconcile_spec(v, id, at_ns) == Err::<VenueOrderTruth, SimErrorView>(
            SimErrorView::UnknownOrder(id),
        ),
{
    let k = order_at(v.orders, id);
    lemma_ids_unique(v.orders, i, k);
    assert(working_ok(v.orders[i]));
}

/// Once reporting has stopped on an error, reporting more fills changes nothing.
proof fn lemma_emit_stops(v: SimView, fills: Seq<PendingFill>, obs: ObservationView, k: int, m: int)
    requires
        0 <= k <= m,
        emit_prefix(v, fills, obs, k).1 is Some,
    ensures
        emit_prefix(v, fills, obs, m) == emit_prefix(v, fills, obs, k),
    decreases m - k,
{
    if m > k {
        lemma_emit_stops(v, fills, obs, k, m - 1);
    }
}

/// A venue whose orders rest in ascending order of client id, with reports
/// queued until they are drained.
#[derive(Debug)]
pub struct SimulatedVenue {
    config: SimulatorConfig,
    venue: String,
    account: String,
    instrument: String,
    orders: Vec<WorkingOrder>,
    reports: Vec<TimedVenueReport>,
    next_sequence: u64,
    next_execution: u64,
    last_market_ns: u64,
}

impl View for SimulatedVenue {
    type V = SimView;

    closed spec fn view(&self) -> SimView {
        SimView {
            config: self.config,
            venue: self.venue@,
            account: self.account@,
            instrument: self.instrument@,
            orders: self.orders@.map_values(|w: WorkingOrder| w@),
            reports: self.reports@.map_values(|r: TimedVenueReport| r@),
            next_sequence: self.next_sequence,
            next_execution: self.next_execution,
            last_market_ns: self.last_market_ns,
        }
    }
}

impl SimulatedVenue {
    /// The venue's invariant holds.
    pub open spec fn wf(&self) -> bool {
        sim_inv(self@)
    }

    /// A venue with no orders and no reports, at market time zero.
    pub fn new(config: SimulatorConfig, venue: &str, account: &str, instrument: &str) -> (s: Self)
        ensures
            s.wf(),
            s@ == (SimView {
                config,
                venue: venue@,
                account: account@,
                instrument: instrument@,
                orders: Seq::empty(),
                reports: Seq::empty(),
                next_sequence: 0,
                next_execution: 0,
                last_market_ns: 0,
            }),
    {
        let s = SimulatedVenue {
            config,
            venue: venue.to_owned(),
            account: account.to_owned(),
            instrument: instrument.to_owned(),
            orders: Vec::new(),
            reports: Vec::new(),
            next_sequence: 0,
            next_execution: 0,
            last_market_ns: 0,
        };
        proof {
            assert(s@.orders =~= Seq::<WorkingView>::empty());
            assert(s@.reports =~= Seq::<TimedReportView>::empty());
        }
        s
    }

    /// The position of the order with this id, or where it would go.
    fn find(&self, id: &ClientOrderId) -> (r: Result<usize, usize>)
        requires
            self.wf(),
        ensures
            r matches Ok(i) ==> i < self@.orders.len() && self@.orders[i as int].request.client == id@ && has_order(
                self@.orders,
                id@,
            ) && order_at(self@.orders, id@) == i,
            r matches Err(i) ==> !has_order(self@.orders, id@) && i == insert_index(self@.orders, id@) && i
                <= self@.orders.len() && (forall|j: int|
                0 <= j < i ==> text_order((#[trigger] self@.orders[j]).request.client, id@) < 0) && (i
                < self@.orders.len() ==> text_order(self@.orders[i as int].request.client, id@) > 0),
    {
        let ghost orders = self@.orders;
        let mut i: usize = 0;
        while i < self.orders.len()
            invariant
                0 <= i <= self.orders.len(),
                orders == self@.orders,
                orders.len() == self.orders.len(),
                ids_ascending(orders),
                forall|j: int| 0 <= j < i ==> text_order((#[trigger] orders[j]).request.client, id@) < 0,
            ensures
                0 <= i <= self.orders.len(),
                forall|j: int| 0 <= j < i ==> text_order((#[trigger] orders[j]).request.client, id@) < 0,
                i < orders.len() ==> text_order(orders[i as int].request.client, id@) > 0,
            decreases self.orders.len() - i,
        {
            assert(self.orders@[i as int]@ == orders[i as int]);
            let c = compare_text(self.orders[i].request.client_order_id.as_str(), id.as_str());
            if c == 0 {
                proof {
                    lemma_text_order_basics(orders[i as int].request.client, id@);
                    let k = order_at(orders, id@);
                    lemma_ids_unique(orders, i as int, k);
                }
                return Ok(i);
            }
            if c > 0 {
                break;
            }
            i = i + 1;
        }
        proof {
            assert forall|k: int| 0 <= k < orders.len() implies (#[trigger] orders[k]).request.client != id@ by {
                lemma_text_order_basics(orders[k].request.client, id@);
                if k > i {
                    assert(text_order(orders[i as int].request.client, orders[k].request.client) < 0);
                    if orders[k].request.client == id@ {
                        lemma_text_order_basics(orders[i as int].request.client, id@);
                    }
                }
            }
            if i < orders.len() {
                lemma_text_order_basics(orders[i as int].request.client, id@);
            }
            lemma_insert_index(orders, id@, i as int);
        }
        Err(i)
    }

    /// Queues a report with the next sequence.
    fn schedule_report(&mut self, at_ns: u64, client_order_id: ClientOrderId, report: VenueReport)
        requires
            old(self)@.next_sequence < u64::MAX,
            sequences_ascending(old(self)@.reports, old(self)@.next_sequence),
        ensures
            final(self)@ == with_report(old(self)@, at_ns, client_order_id@, report@),
            sequences_ascending(final(self)@.reports, final(self)@.next_sequence),
    {
        let ghost before = self@;
        let sequence = self.next_sequence;
        self.next_sequence = self.next_sequence + 1;
        let r = TimedVenueReport { at_ns, client_order_id, report, sequence };
        self.reports.push(r);
        proof {
            assert(self@.reports =~= before.reports.push(next_report(before, at_ns, client_order_id@, report@)));
        }
    }

    /// Sends a new order. It rests at the venue from `now_ns` plus the send
    /// latency; its acknowledgement is due one acknowledgement latency later.
    pub fn submit(&mut self, request: SimOrderRequest, now_ns: u64) -> (result: Result<(), SimulatorError>)
        requires
            old(self).wf(),
            submit_spec(old(self)@, request@, now_ns) is Ok ==> old(self)@.next_sequence < u64::MAX,
        ensures
            final(self).wf(),
            match submit_spec(old(self)@, request@, now_ns) {
                Ok(v) => result is Ok && final(self)@ == v,
                Err(e) => outcome(result) == Err::<(), SimErrorView>(e) && final(self)@ == old(self)@,
            },
    {
        let ghost before = self@;
        let ghost req = request@;
        if request.queue_ahead_lots < 0 {
            return Err(SimulatorError::InvalidQueueAhead(request.queue_ahead_lots));
        }
        let pos = match self.find(&request.client_order_id) {
            Ok(_) => return Err(SimulatorError::DuplicateClientOrderId(request.client_order_id)),
            Err(p) => p,
        };
        let accepted_at_ns = match now_ns.checked_add(self.config.send_latency_ns) {
            Some(t) => t,
            None => return Err(SimulatorError::ArithmeticOverflow),
        };
        let ack_at_ns = match accepted_at_ns.checked_add(self.config.new_ack_latency_ns) {
            Some(t) => t,
            None => return Err(SimulatorError::ArithmeticOverflow),
        };
        proof {
            use_type_invariant(&request.price);
            use_type_invariant(&request.qty);
        }
        let client_order_id = request.client_order_id.duplicate();
        let remaining_lots = request.qty.get();
        let order = WorkingOrder { request, accepted_at_ns, remaining_lots, cancel_effective_at_ns: None };
        let ghost w = order@;
        self.orders.insert(pos, order);
        proof {
            let o = self@.orders;
            assert(o =~= before.orders.insert(pos as int, w));
            assert forall|a: int, b: int| 0 <= a < b < o.len() implies text_order(
                #[trigger] o[a].request.client,
                #[trigger] o[b].request.client,
            ) < 0 by {
                let id = req.client;
                if a < pos && b == pos {
                } else if a < pos && b > pos {
                    assert(o[b] == before.orders[b - 1]);
                    lemma_text_order_basics(o[b].request.client, id);
                    if b - 1 > pos {
                        assert(text_order(before.orders[pos as int].request.client, before.orders[b - 1].request.client) < 0);
                        lemma_text_order_basics(before.orders[pos as int].request.client, id);
                        lemma_text_order_transitive(id, before.orders[pos as int].request.client, o[b].request.client);
                    }
                    lemma_text_order_transitive(o[a].request.client, id, o[b].request.client);
                } else if a == pos && b > pos {
                    assert(o[b] == before.orders[b - 1]);
                    lemma_text_order_basics(before.orders[pos as int].request.client, id);
                    if b - 1 > pos {
                        assert(text_order(before.orders[pos as int].request.client, before.orders[b - 1].request.client) < 0);
                        lemma_text_order_transitive(id, before.orders[pos as int].request.client, o[b].request.client);
                    } else {
                        lemma_text_order_basics(o[b].request.client, id);
                    }
                } else if a > pos {
                    assert(o[a] == before.orders[a - 1]);
                    assert(o[b] == before.orders[b - 1]);
                } else {
                    assert(o[a] == before.orders[a]);
                    assert(o[b] == before.orders[b]);
                }
            }
            assert forall|a: int| 0 <= a < o.len() implies working_ok(#[trigger] o[a]) by {
                if a > pos {
                    assert(o[a] == before.orders[a - 1]);
                } else if a < pos {
                    assert(o[a] == before.orders[a]);
                }
            }
        }
        self.schedule_report(ack_at_ns, client_order_id, VenueReport::NewAck);
        Ok(())
    }

    /// Requests a cancel. It takes effect one cancel latency after the later
    /// of `now_ns` and the order's arrival, and is confirmed one
    /// acknowledgement latency after that; until then the order can still
    /// fill. A second request while one is in flight changes nothing.
    pub fn cancel(&mut self, client_order_id: &ClientOrderId, now_ns: u64) -> (result: Result<(), SimulatorError>)
        requires
            old(self).wf(),
            (cancel_spec(old(self)@, client_order_id@, now_ns) matches Ok(v) && v != old(self)@) ==> old(
                self,
            )@.next_sequence < u64::MAX,
        ensures
            final(self).wf(),
            match cancel_spec(old(self)@, client_order_id@, now_ns) {
                Ok(v) => result is Ok && final(self)@ == v,
                Err(e) => outcome(result) == Err::<(), SimErrorView>(e) && final(self)@ == old(self)@,
            },
    {
        let ghost before = self@;
        let i = match self.find(client_order_id) {
            Ok(i) => i,
            Err(_) => return Err(SimulatorError::UnknownOrder(client_order_id.duplicate())),
        };
        assert(self.orders@[i as int]@ == before.orders[i as int]);
        let remaining = self.orders[i].remaining_lots;
        let cancel_at = self.orders[i].cancel_effective_at_ns;
        let accepted = self.orders[i].accepted_at_ns;
        let done = remaining == 0 || match cancel_at {
            Some(e) => e <= now_ns,
            None => false,
        };
        if done {
            return Err(SimulatorError::OrderAlreadyTerminal(client_order_id.duplicate()));
        }
        if cancel_at.is_some() {
            return Ok(());
        }
        let start = if now_ns >= accepted {
            now_ns
        } else {
            accepted
        };
        let effective_at_ns = match start.checked_add(self.config.cancel_latency_ns) {
            Some(t) => t,
            None => return Err(SimulatorError::ArithmeticOverflow),
        };
        let report_at_ns = match effective_at_ns.checked_add(self.config.cancel_ack_latency_ns) {
            Some(t) => t,
            None => return Err(SimulatorError::ArithmeticOverflow),
        };
        self.orders[i].cancel_effective_at_ns = Some(effective_at_ns);
        proof {
            let w2 = WorkingView { cancel_at: Some(effective_at_ns), ..before.orders[i as int] };
            assert(self@.orders =~= before.orders.update(i as int, w2));
            assert forall|a: int, b: int| 0 <= a < b < self@.orders.len() implies text_order(
                #[trigger] self@.orders[a].request.client,
                #[trigger] self@.orders[b].request.client,
            ) < 0 by {
                assert(self@.orders[a].request.client == before.orders[a].request.client);
                assert(self@.orders[b].request.client == before.orders[b].request.client);
            }
            assert forall|a: int| 0 <= a < self@.orders.len() implies working_ok(#[trigger] self@.orders[a]) by {
                assert(working_ok(before.orders[a]));
            }
        }
        self.schedule_report(report_at_ns, client_order_id.duplicate(), VenueReport::CancelAck);
        Ok(())
    }

    /// Applies one market observation: every resting order that has arrived
    /// and is not cancelled yet is offered to the fill model, in order of
    /// client id, and each fill is then reported with the next execution id.
    pub fn on_market(&mut self, observation: MarketObservation) -> (result: Result<(), SimulatorError>)
        requires
            old(self).wf(),
            !(observation@.at_ns < old(self)@.last_market_ns || observation@.bid >= observation@.ask) ==> old(
                self,
            )@.next_sequence + old(self)@.orders.len() <= u64::MAX,
        ensures
            final(self).wf(),
            final(self)@ == on_market_spec(old(self)@, observation@).0,
            match on_market_spec(old(self)@, observation@).1 {
                None => result is Ok,
                Some(e) => outcome(result) == Err::<(), SimErrorView>(e),
            },
    {
        let ghost before = self@;
        let ghost obs = observation@;
        if observation.at_ns < self.last_market_ns {
            return Err(
                SimulatorError::InvalidMarketTime { previous_ns: self.last_market_ns, received_ns: observation.at_ns },
            );
        }
        let best_bid = observation.best_bid.get();
        let best_ask = observation.best_ask.get();
        if best_bid >= best_ask {
            return Err(SimulatorError::CrossedMarket { best_bid, best_ask });
        }
        self.last_market_ns = observation.at_ns;
        let model = self.config.fill_model;
        let ghost orig = before.orders;
        let ghost n = orig.len();
        let mut fills: Vec<FoundFill> = Vec::new();
        let mut i: usize = 0;
        while i < self.orders.len()
            invariant
                0 <= i <= n,
                n == self.orders.len(),
                orig == before.orders,
                orig.len() == n,
                scan_orders(model, orig, obs, i as int).0.len() == i,
                sim_inv(before),
                model == before.config.fill_model,
                obs == observation@,
                self@ == (SimView { last_market_ns: observation.at_ns, orders: self@.orders, ..before }),
                self@.orders =~= scan_orders(model, orig, obs, i as int).0 + orig.subrange(i as int, n as int),
                fills@.map_values(|f: FoundFill| f@) =~= scan_orders(model, orig, obs, i as int).1,
                fills@.len() <= i,
                forall|j: int| 0 <= j < n ==> (#[trigger] self@.orders[j]).request.client == orig[j].request.client,
                forall|j: int| 0 <= j < n ==> working_ok(#[trigger] self@.orders[j]),
            decreases n - i,
        {
            let ghost prev = scan_orders(model, orig, obs, i as int);
            let ghost w0 = orig[i as int];
            assert(self@.orders[i as int] == w0);
            assert(self.orders@[i as int]@ == w0);
            let remaining = self.orders[i].remaining_lots;
            let accepted = self.orders[i].accepted_at_ns;
            let cancelled = match self.orders[i].cancel_effective_at_ns {
                Some(e) => observation.at_ns >= e,
                None => false,
            };
            if remaining == 0 || observation.at_ns < accepted || cancelled {
                proof {
                    assert(market_step(model, w0, obs) == (w0, 0int));
                    assert(self@.orders =~= prev.0.push(w0) + orig.subrange(i + 1, n as int));
                }
            } else {
                let ghost pre = self@.orders;
                let f = fill_quantity(model, &mut self.orders[i], observation);
                if f > 0 {
                    self.orders[i].remaining_lots = self.orders[i].remaining_lots - f;
                    let client_order_id = self.orders[i].request.client_order_id.duplicate();
                    let side = self.orders[i].request.side;
                    let price = self.orders[i].request.price;
                    if let Ok(qty) = QtyLots::new(f) {
                        let found = FoundFill { client_order_id, side, price, qty };
                        fills.push(found);
                    }
                }
                proof {
                    let (w1, g) = market_step(model, w0, obs);
                    assert(self.orders@[i as int]@ == w1);
                    assert(self@.orders =~= pre.update(i as int, w1));
                    assert(self@.orders =~= prev.0.push(w1) + orig.subrange(i + 1, n as int));
                }
            }
            i = i + 1;
        }
        let ghost scanned = scan_orders(model, orig, obs, n as int);
        let ghost mid = self@;
        let ghost fv = fills@.map_values(|f: FoundFill| f@);
        proof {
            assert(orig.subrange(n as int, n as int) =~= Seq::<WorkingView>::empty());
            assert(self@.orders =~= scanned.0);
            assert(mid == (SimView { last_market_ns: observation.at_ns, orders: scanned.0, ..before }));
            assert(fv =~= scanned.1);
            assert(on_market_spec(before, obs) == emit_prefix(mid, fv, obs, fv.len() as int));
            assert forall|a: int, b: int| 0 <= a < b < mid.orders.len() implies text_order(
                #[trigger] mid.orders[a].request.client,
                #[trigger] mid.orders[b].request.client,
            ) < 0 by {
                assert(text_order(orig[a].request.client, orig[b].request.client) < 0);
            }
        }
        let mut k: usize = 0;
        while k < fills.len()
            invariant
                0 <= k <= fills.len(),
                fv == fills@.map_values(|f: FoundFill| f@),
                fv.len() <= n,
                before == old(self)@,
                on_market_spec(before, obs) == emit_prefix(mid, fv, obs, fv.len() as int),
                sim_inv(self@),
                mid.next_sequence == before.next_sequence,
                before.next_sequence + n <= u64::MAX,
                obs == observation@,
                self@ == emit_prefix(mid, fv, obs, k as int).0,
                emit_prefix(mid, fv, obs, k as int).1 is None,
                self@.next_sequence == mid.next_sequence + k,
                self@.venue == mid.venue,
                self@.account == mid.account,
                self@.instrument == mid.instrument,
                self@.config == mid.config,
                self@.orders == mid.orders,
            decreases fills.len() - k,
        {
            let ghost cur = self@;
            let ghost f = fv[k as int];
            assert(fills@[k as int]@ == f);
            let n_exec = self.next_execution;
            let next = match n_exec.checked_add(1) {
                Some(x) => x,
                None => {
                    proof {
                        assert(emit_prefix(mid, fv, obs, k + 1) == (cur, Some(SimErrorView::ArithmeticOverflow)));
                        lemma_emit_stops(mid, fv, obs, k + 1, fv.len() as int);
                    }
                    return Err(SimulatorError::ArithmeticOverflow);
                },
            };
            self.next_execution = next;
            let price = fills[k].price;
            let qty = fills[k].qty;
            let p = price.get();
            let q = qty.get();
            let bps = self.config.maker_fee_bps;
            let ghost v1 = self@;
            let fee_quote = match (p as i128).checked_mul(q as i128) {
                Some(base) => match base.checked_mul(bps as i128) {
                    Some(gross) => {
                        assert(gross >= 0) by (nonlinear_arith)
                            requires
                                gross == base * bps,
                                base == p * q,
                                p > 0,
                                q > 0,
                                bps >= 0,
                        ;
                        gross / 10000
                    },
                    None => {
                        proof {
                            assert(emit_prefix(mid, fv, obs, k + 1) == (v1, Some(SimErrorView::ArithmeticOverflow)));
                            lemma_emit_stops(mid, fv, obs, k + 1, fv.len() as int);
                        }
                        return Err(SimulatorError::ArithmeticOverflow);
                    },
                },
                None => {
                    proof {
                        assert(emit_prefix(mid, fv, obs, k + 1) == (v1, Some(SimErrorView::ArithmeticOverflow)));
                        lemma_emit_stops(mid, fv, obs, k + 1, fv.len() as int);
                    }
                    return Err(SimulatorError::ArithmeticOverflow);
                },
            };
            let report_at_ns = match observation.at_ns.checked_add(self.config.fill_report_latency_ns) {
                Some(t) => t,
                None => {
                    proof {
                        assert(emit_prefix(mid, fv, obs, k + 1) == (v1, Some(SimErrorView::ArithmeticOverflow)));
                        lemma_emit_stops(mid, fv, obs, k + 1, fv.len() as int);
                    }
                    return Err(SimulatorError::ArithmeticOverflow);
                },
            };
            let mut execution_id = String::new();
            push_text(&mut execution_id, "sim-");
            push_decimal(&mut execution_id, n_exec as u128);
            proof {
                assert(execution_id@ =~= sim_execution_id(n_exec));
            }
            let key = ExecutionKey::new(
                self.venue.as_str(),
                self.account.as_str(),
                self.instrument.as_str(),
                execution_id.as_str(),
            );
            let fill = Fill { key, side: fills[k].side, price, qty, fee_quote };
            let client_order_id = fills[k].client_order_id.duplicate();
            self.schedule_report(report_at_ns, client_order_id, VenueReport::Fill(fill));
            proof {
                assert(self@ == emit_one(cur, f, obs).0);
                assert(emit_prefix(mid, fv, obs, k + 1) == emit_one(cur, f, obs));
            }
            k = k + 1;
        }
        Ok(())
    }

    /// Hands out every report due by `through_ns`, in delivery order, and
    /// keeps the others in the order they were scheduled.
    pub fn drain_reports(&mut self, through_ns: u64) -> (ready: Vec<TimedVenueReport>)
        requires
            old(self).wf(),
        ensures
            final(self).wf(),
            final(self)@ == (SimView { reports: old(self)@.reports.filter(due_after(through_ns)), ..old(self)@ }),
            delivery_ordered(report_views(ready@)),
            report_views(ready@).to_multiset() == old(self)@.reports.filter(due_by(through_ns)).to_multiset(),
    {
        let ghost before = self@;
        let ghost orig = self@.reports;
        let mut all: Vec<TimedVenueReport> = Vec::new();
        std::mem::swap(&mut all, &mut self.reports);
        let mut ready: Vec<TimedVenueReport> = Vec::new();
        let mut pending: Vec<TimedVenueReport> = Vec::new();
        let ghost n = orig.len();
        let ghost mut k: int = 0;
        proof {
            assert(report_views(all@) =~= orig.skip(0));
            assert(orig.take(0) =~= Seq::<TimedReportView>::empty());
            assert(report_views(ready@) =~= Seq::<TimedReportView>::empty());
            assert(report_views(pending@) =~= Seq::<TimedReportView>::empty());
            assert(report_views(ready@) =~= orig.take(0).filter(due_by(through_ns)));
            assert(report_views(pending@) =~= orig.take(0).filter(due_after(through_ns)));
        }
        while all.len() > 0
            invariant
                0 <= k <= n,
                n == orig.len(),
                orig == before.reports,
                sequences_ascending(orig, before.next_sequence),
                all@.len() == n - k,
                report_views(all@) =~= orig.skip(k),
                report_views(pending@) == orig.take(k).filter(due_after(through_ns)),
                report_views(ready@).to_multiset() == orig.take(k).filter(due_by(through_ns)).to_multiset(),
                delivery_ordered(report_views(ready@)),
                sequences_ascending(report_views(pending@), before.next_sequence),
                forall|i: int, j: int|
                    0 <= i < ready@.len() && k <= j < n ==> (#[trigger] ready@[i])@.sequence < (#[trigger] orig[j]).sequence,
                forall|i: int, j: int|
                    0 <= i < pending@.len() && k <= j < n ==> (#[trigger] pending@[i])@.sequence < (#[trigger] orig[j]).sequence,
                self@ == (SimView { reports: Seq::empty(), ..before }),
            decreases all@.len(),
        {
            let ghost rv = orig[k];
            assert(report_views(all@)[0] == rv);
            let ghost all_before = all@;
            let report = all.remove(0);
            proof {
                assert(report == all_before[0]);
                assert(report@ == rv);
                assert(orig.take(k + 1).drop_last() =~= orig.take(k));
                assert(orig.take(k + 1).last() == rv);
            }
            if report.at_ns <= through_ns {
                proof {
                    assert forall|i: int| 0 <= i < ready@.len() implies (#[trigger] ready@[i])@.sequence != report@.sequence by {
                        assert(ready@[i]@.sequence < orig[k].sequence);
                    }
                }
                let ghost old_ready = ready@;
                insert_in_delivery_order(&mut ready, report);
                proof {
                    lemma_filter_prefix_step(orig, k, due_by(through_ns));
                    lemma_filter_prefix_step(orig, k, due_after(through_ns));
                    broadcast use vstd::seq_lib::group_to_multiset_ensures;
                    assert forall|i: int, j: int| 0 <= i < ready@.len() && k + 1 <= j < n implies (#[trigger] ready@[i])@.sequence < (#[trigger] orig[j]).sequence by {
                        let x = report_views(ready@)[i];
                        assert(report_views(ready@).to_multiset().count(x) > 0);
                        assert(report_views(ready@).contains(x));
                        if x == rv {
                            assert(orig[k].sequence < orig[j].sequence);
                        } else {
                            assert(report_views(old_ready).to_multiset().count(x) > 0);
                            let m = choose|m: int| 0 <= m < old_ready.len() && report_views(old_ready)[m] == x;
                            assert(old_ready[m]@ == x);
                        }
                    }
                }
            } else {
                let ghost old_pending = report_views(pending@);
                pending.push(report);
                proof {
                    assert(report_views(pending@) =~= old_pending.push(rv));
                    lemma_filter_prefix_step(orig, k, due_by(through_ns));
                    lemma_filter_prefix_step(orig, k, due_after(through_ns));
                    assert forall|i: int| 0 <= i < pending@.len() - 1 implies (#[trigger] pending@[i])@.sequence < rv.sequence by {
                        assert(pending@[i]@ == old_pending[i]);
                    }
                }
            }
            proof {
                assert forall|j: int| 0 <= j < all@.len() implies report_views(all@)[j] == orig.skip(k + 1)[j] by {
                    assert(all@[j] == all_before[j + 1]);
                    assert(report_views(all_before)[j + 1] == orig.skip(k)[j + 1]);
                }
                assert(report_views(all@) =~= orig.skip(k + 1));
                k = k + 1;
            }
        }
        proof {
            assert(orig.take(n as int) =~= orig);
        }
        self.reports = pending;
        ready
    }

    /// How many reports have been scheduled so far; each takes the next
    /// sequence number.
    pub fn reports_scheduled(&self) -> (n: u64)
        ensures
            n == self@.next_sequence,
    {
        self.next_sequence
    }

    /// How many orders rest at the venue, filled and cancelled ones included.
    pub fn resting_orders(&self) -> (n: usize)
        ensures
            n == self@.orders.len(),
    {
        proof {
            assert(self.orders@.len() == self@.orders.len());
        }
        self.orders.len()
    }

    /// The venue's own record of an order at `at_ns`.
    pub fn reconcile(&self, client_order_id: &ClientOrderId, at_ns: u64) -> (result: Result<
        VenueOrderTruth,
        SimulatorError,
    >)
        requires
            self.wf(),
        ensures
            outcome(result) == reconcile_spec(self@, client_order_id@, at_ns),
    {
        let i = match self.find(client_order_id) {
            Ok(i) => i,
            Err(_) => return Err(SimulatorError::UnknownOrder(client_order_id.duplicate())),
        };
        assert(self.orders@[i as int]@ == self@.orders[i as int]);
        assert(working_ok(self@.orders[i as int]));
        let order = &self.orders[i];
        let filled_lots = order.request.qty.get() - order.remaining_lots;
        let status = if order.remaining_lots == 0 {
            VenueOrderStatus::Filled
        } else if at_ns < order.accepted_at_ns {
            VenueOrderStatus::PendingArrival
        } else if match order.cancel_effective_at_ns {
            Some(e) => e <= at_ns,
            None => false,
        } {
            VenueOrderStatus::Cancelled
        } else if order.cancel_effective_at_ns.is_some() {
            VenueOrderStatus::PendingCancel
        } else {
            VenueOrderStatus::Working
        };
        Ok(VenueOrderTruth { status, filled_lots, remaining_lots: order.remaining_lots })
    }
}

/// Filtering one more element of a prefix.
proof fn lemma_filter_prefix_step(s: Seq<TimedReportView>, k: int, p: spec_fn(TimedReportView) -> bool)
    requires
        0 <= k < s.len(),
    ensures
        s.take(k + 1).filter(p) == (if p(s[k]) {
            s.take(k).filter(p).push(s[k])
        } else {
            s.take(k).filter(p)
        }),
{
    reveal(Seq::filter);
    let t = s.take(k + 1);
    assert(t.drop_last() =~= s.take(k));
    assert(t.last() == s[k]);
    assert(t.len() > 0);
}

/// Inserts a report into a list in delivery order.
fn insert_in_delivery_order(ready: &mut Vec<TimedVenueReport>, report: TimedVenueReport)
    requires
        delivery_ordered(report_views(old(ready)@)),
        forall|i: int| 0 <= i < old(ready)@.len() ==> (#[trigger] old(ready)@[i])@.sequence != report@.sequence,
    ensures
        delivery_ordered(report_views(final(ready)@)),
        report_views(final(ready)@).to_multiset() == report_views(old(ready)@).to_multiset().insert(report@),
{
    let ghost before = report_views(ready@);
    let ghost r = report@;
    let mut pos: usize = 0;
    while pos < ready.len()
        invariant
            0 <= pos <= ready.len(),
            before == report_views(ready@),
            r == report@,
            forall|j: int| 0 <= j < pos ==> delivered_before(#[trigger] before[j], r),
        ensures
            0 <= pos <= ready.len(),
            forall|j: int| 0 <= j < pos ==> delivered_before(#[trigger] before[j], r),
            pos < ready.len() ==> !delivered_before(before[pos as int], r),
        decreases ready.len() - pos,
    {
        assert(ready@[pos as int]@ == before[pos as int]);
        let at = ready[pos].at_ns;
        let seq = ready[pos].sequence;
        if !(at < report.at_ns || (at == report.at_ns && seq < report.sequence)) {
            break;
        }
        pos = pos + 1;
    }
    ready.insert(pos, report);
    proof {
        let after = report_views(ready@);
        assert(after =~= before.insert(pos as int, r));
        assert forall|a: int, b: int| 0 <= a < b < after.len() implies delivered_before(
            #[trigger] after[a],
            #[trigger] after[b],
        ) by {
            if a < pos && b == pos {
            } else if a < pos && b > pos {
                assert(after[b] == before[b - 1]);
                assert(before[b - 1].sequence != r.sequence);
            } else if a == pos && b > pos {
                assert(after[b] == before[b - 1]);
                assert(before[b - 1].sequence != r.sequence);
                if b - 1 > pos {
                    assert(delivered_before(before[pos as int], before[b - 1]));
                }
            } else if a > pos {
                assert(after[a] == before[a - 1]);
                assert(after[b] == before[b - 1]);
            } else {
                assert(after[a] == before[a]);
                assert(after[b] == before[b]);
            }
        }
        assert(after.remove(pos as int) =~= before);
        broadcast use vstd::seq_lib::group_to_multiset_ensures;
        assert(after.to_multiset().remove(r) =~= before.to_multiset());
        assert(after.contains(after[pos as int]));
        assert(after.to_multiset() =~= before.to_multiset().insert(r));
    }
}

/// Applies the fill model to one resting order on one observation: returns
/// the lots filled and consumes queue ahead as the queue model says.
fn fill_quantity(model: FillModel, order: &mut WorkingOrder, observation: MarketObservation) -> (f: i64)
    requires
        working_ok(old(order)@),
    ensures
        (final(order)@, f as int) == fill_step(model, old(order)@, observation@),
        working_ok(final(order)@),
        0 <= f <= old(order)@.remaining,
{
    let price = order.request.price.get();
    match model {
        FillModel::Touch => {
            let touched = match order.request.side {
                Side::Buy => observation.best_ask.get() <= price,
                Side::Sell => observation.best_bid.get() >= price,
            };
            if touched {
                order.remaining_lots
            } else {
                0
            }
        },
        FillModel::TradeThrough => match observation.trade {
            None => 0,
            Some(trade) => {
                let through = match order.request.side {
                    Side::Buy => trade.aggressor == Side::Sell && trade.price.get() < price,
                    Side::Sell => trade.aggressor == Side::Buy && trade.price.get() > price,
                };
                if through {
                    order.remaining_lots
                } else {
                    0
                }
            },
        },
        FillModel::L2Queue => match observation.trade {
            None => 0,
            Some(trade) => {
                let opposing = match order.request.side {
                    Side::Buy => trade.aggressor == Side::Sell,
                    Side::Sell => trade.aggressor == Side::Buy,
                };
                if !opposing {
                    return 0;
                }
                let through = match order.request.side {
                    Side::Buy => trade.price.get() < price,
                    Side::Sell => trade.price.get() > price,
                };
                if through {
                    return order.remaining_lots;
                }
                if trade.price.get() != price {
                    return 0;
                }
                let traded = trade.qty.get();
                let queue_consumed = if order.request.queue_ahead_lots <= traded {
                    order.request.queue_ahead_lots
                } else {
                    traded
                };
                order.request.queue_ahead_lots = order.request.queue_ahead_lots - queue_consumed;
                let left = traded - queue_consumed;
                if left <= order.remaining_lots {
                    left
                } else {
                    order.remaining_lots
                }
            },
        },
    }
}

/// Orders in ascending id order with equal ids sit at the same position.
proof fn lemma_ids_unique(orders: Seq<WorkingView>, i: int, j: int)
    requires
        ids_ascending(orders),
        0 <= i < orders.len(),
        0 <= j < orders.len(),
        orders[i].request.client == orders[j].request.client,
    ensures
        i == j,
{
    lemma_text_order_basics(orders[i].request.client, orders[j].request.client);
    if i < j {
        assert(text_order(orders[i].request.client, orders[j].request.client) < 0);
    } else if j < i {
        assert(text_order(orders[j].request.client, orders[i].request.client) < 0);
    }
}

/// Where the insertion index lands.
proof fn lemma_insert_index(orders: Seq<WorkingView>, id: Seq<char>, i: int)
    requires
        0 <= i <= orders.len(),
        forall|j: int| 0 <= j < i ==> text_order((#[trigger] orders[j]).request.client, id) < 0,
        i < orders.len() ==> text_order(orders[i].request.client, id) >= 0,
    ensures
        insert_index(orders, id) == i,
    decreases orders.len(),
{
    if i > 0 {
        let rest = orders.drop_first();
        assert forall|j: int| 0 <= j < i - 1 implies text_order((#[trigger] rest[j]).request.client, id) < 0 by {
            assert(rest[j] == orders[j + 1]);
        }
        lemma_insert_index(rest, id, i - 1);
    }
}

} // verus!
