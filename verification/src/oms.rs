//! The order-state reducer: a pure function from an order and one venue or
//! local event to the next order, with duplicate executions absorbed,
//! overfills refused and terminal states never regressed.

use vstd::prelude::*;

use crate::domain::{ClientOrderId, ExecutionKey, QtyLots, key_order, lemma_key_order_basics, lemma_key_order_transitive};
use crate::render::{push_signed_decimal, push_text, signed_decimal};

verus! {

/// The lifecycle state of one order.
#[derive(Debug, Clone, Copy, PartialEq, Eq, Structural)]
pub enum OrderStatus {
    PendingNew,
    Open,
    PartiallyFilled,
    PendingCancel,
    Filled,
    Cancelled,
    Rejected,
    Uncertain,
}

/// Whether no further state change but a late fill can happen.
pub open spec fn status_is_terminal(s: OrderStatus) -> bool {
    s == OrderStatus::Filled || s == OrderStatus::Cancelled || s == OrderStatus::Rejected
}

impl OrderStatus {
    /// Filled, cancelled and rejected orders are terminal.
    pub fn is_terminal(self) -> (r: bool)
        ensures
            r == status_is_terminal(self),
    {
        match self {
            OrderStatus::Filled | OrderStatus::Cancelled | OrderStatus::Rejected => true,
            _ => false,
        }
    }
}

/// The mathematical content of an order.
pub struct OrderView {
    pub client_order_id: Seq<char>,
    pub total_qty: int,
    pub filled_qty: int,
    pub status: OrderStatus,
    pub executions: Set<(Seq<char>, Seq<char>, Seq<char>, Seq<char>)>,
}

impl OrderView {
    /// The bounds every order keeps: a positive total, a fill between zero
    /// and that total, and a filled status only when the fill is complete.
    pub open spec fn wf(self) -> bool {
        &&& 0 < self.total_qty <= i64::MAX
        &&& 0 <= self.filled_qty <= self.total_qty
        &&& self.status == OrderStatus::Filled ==> self.filled_qty == self.total_qty
    }
}

/// One order as the OMS sees it.
#[derive(Debug, PartialEq, Eq)]
pub struct Order {
    client_order_id: ClientOrderId,
    total_qty: QtyLots,
    filled_qty: i64,
    status: OrderStatus,
    executions: Vec<ExecutionKey>,
}

/// Execution keys held in strictly ascending key order, so that each is held
/// once and equal sets are held as equal lists.
pub open spec fn keys_ascending(keys: Seq<ExecutionKey>) -> bool {
    forall|i: int, j: int| 0 <= i < j < keys.len() ==> key_order(#[trigger] keys[i]@, #[trigger] keys[j]@) < 0
}

/// The set of execution keys held by a vector of keys.
pub open spec fn key_set(keys: Seq<ExecutionKey>) -> Set<(Seq<char>, Seq<char>, Seq<char>, Seq<char>)> {
    keys.map_values(|k: ExecutionKey| k@).to_set()
}

impl View for Order {
    type V = OrderView;

    closed spec fn view(&self) -> OrderView {
        OrderView {
            client_order_id: self.client_order_id@,
            total_qty: self.total_qty@,
            filled_qty: self.filled_qty as int,
            status: self.status,
            executions: key_set(self.executions@),
        }
    }
}

impl Order {
    #[verifier::type_invariant]
    spec fn inv(self) -> bool {
        &&& 0 <= self.filled_qty <= self.total_qty@
        &&& self.status == OrderStatus::Filled ==> self.filled_qty == self.total_qty@
        &&& keys_ascending(self.executions@)
    }

    /// Every order satisfies the view's bounds.
    pub fn lemma_wf(&self)
        ensures
            self@.wf(),
    {
        proof {
            use_type_invariant(self);
            use_type_invariant(&self.total_qty);
        }
    }

    /// A freshly sent order: nothing filled, awaiting the venue's answer.
    pub fn pending(client_order_id: ClientOrderId, total_qty: QtyLots) -> (order: Self)
        ensures
            order@.client_order_id == client_order_id@,
            order@.total_qty == total_qty@,
            order@.filled_qty == 0,
            order@.status == OrderStatus::PendingNew,
            order@.executions == Set::<(Seq<char>, Seq<char>, Seq<char>, Seq<char>)>::empty(),
            order@ == pending_view(client_order_id@, total_qty@),
    {
        proof {
            use_type_invariant(&total_qty);
        }
        let executions: Vec<ExecutionKey> = Vec::new();
        let order = Order { client_order_id, total_qty, filled_qty: 0, status: OrderStatus::PendingNew, executions };
        proof {
            assert(key_set(order.executions@) =~= Set::empty());
        }
        order
    }

    /// Whether an execution with this key was already applied.
    pub fn has_execution(&self, key: &ExecutionKey) -> (r: bool)
        ensures
            r == self@.executions.contains(key@),
    {
        proof {
            use_type_invariant(self);
        }
        locate_key(&self.executions, key).0
    }

    pub fn client_order_id(&self) -> (id: &ClientOrderId)
        ensures
            id@ == self@.client_order_id,
    {
        &self.client_order_id
    }

    pub fn total_qty(&self) -> (q: QtyLots)
        ensures
            q@ == self@.total_qty,
    {
        self.total_qty
    }

    pub fn filled_qty(&self) -> (q: i64)
        ensures
            q == self@.filled_qty,
    {
        self.filled_qty
    }

    pub fn status(&self) -> (s: OrderStatus)
        ensures
            s == self@.status,
    {
        self.status
    }
}

/// Something that happened to an order: a venue report or a local decision.
#[derive(Debug, Clone)]
pub enum OrderEvent {
    NewAck,
    Reject,
    CancelRequested,
    CancelAck,
    Fill { key: ExecutionKey, qty: QtyLots },
    Timeout,
}

/// Why the reducer refused an event.
#[derive(Debug, Clone, Copy, PartialEq, Eq, Structural)]
pub enum ReduceError {
    IllegalTransition,
    Overfill { total: i64, attempted: i128 },
}

impl ReduceError {
    /// The human-readable message for this error.
    pub fn message(&self) -> (s: String)
        ensures
            s@ == match self {
                ReduceError::IllegalTransition => "illegal order state transition"@,
                ReduceError::Overfill { total, attempted } => "fill exceeds order quantity: total "@ + signed_decimal(
                    *total as int,
                ) + ", attempted "@ + signed_decimal(*attempted as int),
            },
    {
        match self {
            ReduceError::IllegalTransition => "illegal order state transition".to_owned(),
            ReduceError::Overfill { total, attempted } => {
                let mut s = "fill exceeds order quantity: total ".to_owned();
                push_signed_decimal(&mut s, *total as i128);
                push_text(&mut s, ", attempted ");
                push_signed_decimal(&mut s, *attempted);
                s
            },
        }
    }
}

/// A copy of an order carries the same identity, quantities, status and
/// applied executions.
impl Clone for Order {
    fn clone(&self) -> (r: Self)
        ensures
            r@ == self@,
    {
        proof {
            use_type_invariant(self);
        }
        let mut executions: Vec<ExecutionKey> = Vec::new();
        let mut i: usize = 0;
        while i < self.executions.len()
            invariant
                0 <= i <= self.executions.len(),
                executions@.len() == i,
                forall|j: int| 0 <= j < i ==> (#[trigger] executions@[j])@ == self.executions@[j]@,
            decreases self.executions.len() - i,
        {
            executions.push(self.executions[i].duplicate());
            i = i + 1;
        }
        proof {
            assert(executions@.map_values(|k: ExecutionKey| k@) =~= self.executions@.map_values(|k: ExecutionKey| k@));
            assert forall|a: int, b: int| 0 <= a < b < executions@.len() implies key_order(
                #[trigger] executions@[a]@,
                #[trigger] executions@[b]@,
            ) < 0 by {
                assert(key_order(self.executions@[a]@, self.executions@[b]@) < 0);
            }
        }
        Order {
            client_order_id: self.client_order_id.duplicate(),
            total_qty: self.total_qty,
            filled_qty: self.filled_qty,
            status: self.status,
            executions,
        }
    }
}

/// Where a key stands in an ascending list of keys: `(true, i)` when the
/// `i`th key is it, `(false, i)` when it is absent and belongs at index `i`.
fn locate_key(keys: &Vec<ExecutionKey>, key: &ExecutionKey) -> (r: (bool, usize))
    requires
        keys_ascending(keys@),
    ensures
        r.1 <= keys@.len(),
        r.0 <==> key_set(keys@).contains(key@),
        r.0 ==> keys@[r.1 as int]@ == key@,
        !r.0 ==> forall|j: int| 0 <= j < r.1 ==> key_order((#[trigger] keys@[j])@, key@) < 0,
        !r.0 ==> forall|j: int| r.1 <= j < keys@.len() ==> key_order(key@, (#[trigger] keys@[j])@) < 0,
{
    let ghost ks = keys@;
    let ghost s = keys@.map_values(|k: ExecutionKey| k@);
    let mut i: usize = 0;
    while i < keys.len()
        invariant
            0 <= i <= keys.len(),
            ks == keys@,
            keys_ascending(ks),
            forall|j: int| 0 <= j < i ==> key_order((#[trigger] ks[j])@, key@) < 0,
        ensures
            0 <= i <= keys.len(),
            forall|j: int| 0 <= j < i ==> key_order((#[trigger] ks[j])@, key@) < 0,
            i < ks.len() ==> key_order(ks[i as int]@, key@) >= 0,
        decreases keys.len() - i,
    {
        let c = keys[i].compare(key);
        if c >= 0 {
            break;
        }
        i = i + 1;
    }
    if i < keys.len() && keys[i].compare(key) == 0 {
        proof {
            lemma_key_order_basics(ks[i as int]@, key@);
            assert(s[i as int] == key@);
        }
        return (true, i);
    }
    proof {
        if i < ks.len() {
            lemma_key_order_basics(ks[i as int]@, key@);
        }
        assert forall|j: int| i <= j < ks.len() implies key_order(key@, (#[trigger] ks[j])@) < 0 by {
            if j > i {
                lemma_key_order_transitive(key@, ks[i as int]@, ks[j]@);
            }
        }
        if s.to_set().contains(key@) {
            let j = choose|j: int| 0 <= j < s.len() && s[j] == key@;
            lemma_key_order_basics(ks[j]@, key@);
            assert(s[j] == ks[j]@);
        }
    }
    (false, i)
}

/// The order that results from `order` with its status replaced.
pub open spec fn with_status(order: OrderView, status: OrderStatus) -> OrderView {
    OrderView { status, ..order }
}

/// What the reducer does: the state-transition table of one order.
pub open spec fn reduce_spec(order: OrderView, event: OrderEvent) -> Result<OrderView, ReduceError> {
    match event {
        OrderEvent::Fill { key, qty } => {
            if order.executions.contains(key@) {
                Ok(order)
            } else if order.status == OrderStatus::Rejected {
                Err(ReduceError::IllegalTransition)
            } else {
                let attempted = order.filled_qty + qty@;
                if attempted > order.total_qty {
                    Err(ReduceError::Overfill { total: order.total_qty as i64, attempted: attempted as i128 })
                } else {
                    let status = if attempted == order.total_qty {
                        OrderStatus::Filled
                    } else if order.status == OrderStatus::Cancelled {
                        OrderStatus::Cancelled
                    } else if order.status == OrderStatus::PendingCancel {
                        OrderStatus::PendingCancel
                    } else {
                        OrderStatus::PartiallyFilled
                    };
                    Ok(OrderView {
                        filled_qty: attempted,
                        status,
                        executions: order.executions.insert(key@),
                        ..order
                    })
                }
            }
        },
        OrderEvent::NewAck => {
            if order.status == OrderStatus::PendingNew || order.status == OrderStatus::Uncertain {
                Ok(with_status(order, if order.filled_qty == 0 { OrderStatus::Open } else { OrderStatus::PartiallyFilled }))
            } else if order.status == OrderStatus::PartiallyFilled || order.status == OrderStatus::Filled
                || order.status == OrderStatus::Cancelled {
                Ok(order)
            } else {
                Err(ReduceError::IllegalTransition)
            }
        },
        OrderEvent::Reject => {
            if (order.status == OrderStatus::PendingNew || order.status == OrderStatus::Uncertain)
                && order.filled_qty == 0 {
                Ok(with_status(order, OrderStatus::Rejected))
            } else {
                Err(ReduceError::IllegalTransition)
            }
        },
        OrderEvent::CancelRequested => {
            if order.status == OrderStatus::Open || order.status == OrderStatus::PartiallyFilled {
                Ok(with_status(order, OrderStatus::PendingCancel))
            } else {
                Err(ReduceError::IllegalTransition)
            }
        },
        OrderEvent::CancelAck => {
            if order.status == OrderStatus::Open || order.status == OrderStatus::PartiallyFilled
                || order.status == OrderStatus::PendingCancel || order.status == OrderStatus::Uncertain {
                Ok(with_status(order, OrderStatus::Cancelled))
            } else if order.status == OrderStatus::Filled || order.status == OrderStatus::Cancelled {
                Ok(order)
            } else {
                Err(ReduceError::IllegalTransition)
            }
        },
        OrderEvent::Timeout => {
            if !status_is_terminal(order.status) {
                Ok(with_status(order, OrderStatus::Uncertain))
            } else {
                Ok(order)
            }
        },
    }
}

/// Applies one event to an order, returning the next order or why the event
/// cannot apply.
pub fn reduce(order: Order, event: OrderEvent) -> (result: Result<Order, ReduceError>)
    ensures
        match (result, reduce_spec(order@, event)) {
            (Ok(next), Ok(expected)) => next@ == expected,
            (Err(e), Err(expected)) => e == expected,
            _ => false,
        },
{
    proof {
        use_type_invariant(&order);
        use_type_invariant(&order.total_qty);
    }
    let status = order.status;
    match event {
        OrderEvent::Fill { key, qty } => {
            let (found, pos) = locate_key(&order.executions, &key);
            if found {
                return Ok(order);
            }
            if status == OrderStatus::Rejected {
                return Err(ReduceError::IllegalTransition);
            }
            let total = order.total_qty.get();
            let q = qty.get();
            let attempted: i128 = order.filled_qty as i128 + q as i128;
            if attempted > total as i128 {
                return Err(ReduceError::Overfill { total, attempted });
            }
            let next_status = if attempted == total as i128 {
                OrderStatus::Filled
            } else if status == OrderStatus::Cancelled {
                OrderStatus::Cancelled
            } else if status == OrderStatus::PendingCancel {
                OrderStatus::PendingCancel
            } else {
                OrderStatus::PartiallyFilled
            };
            let Order { client_order_id, total_qty, filled_qty: _, status: _, executions } = order;
            let mut executions = executions;
            let ghost old_keys = executions@;
            let ghost k = key@;
            executions.insert(pos, key);
            proof {
                let ks = executions@;
                assert(ks =~= old_keys.insert(pos as int, ks[pos as int]));
                assert forall|a: int, b: int| 0 <= a < b < ks.len() implies key_order(
                    #[trigger] ks[a]@,
                    #[trigger] ks[b]@,
                ) < 0 by {
                    if a < pos && b > pos {
                        assert(ks[b] == old_keys[b - 1]);
                        lemma_key_order_transitive(ks[a]@, k, ks[b]@);
                    } else if a == pos && b > pos {
                        assert(ks[b] == old_keys[b - 1]);
                    } else if a > pos {
                        assert(ks[a] == old_keys[a - 1]);
                        assert(ks[b] == old_keys[b - 1]);
                    } else if b < pos {
                        assert(ks[a] == old_keys[a]);
                        assert(ks[b] == old_keys[b]);
                    } else {
                        assert(ks[a] == old_keys[a]);
                    }
                }
                let before = old_keys.map_values(|x: ExecutionKey| x@);
                let after = ks.map_values(|x: ExecutionKey| x@);
                assert(after.to_set() =~= before.to_set().insert(k)) by {
                    assert forall|x| after.to_set().contains(x) implies before.to_set().insert(k).contains(x) by {
                        let j = choose|j: int| 0 <= j < after.len() && after[j] == x;
                        if j < pos {
                            assert(before[j] == x);
                        } else if j > pos {
                            assert(before[j - 1] == x);
                        }
                    }
                    assert forall|x| before.to_set().insert(k).contains(x) implies after.to_set().contains(x) by {
                        if x == k {
                            assert(after[pos as int] == x);
                        } else {
                            let j = choose|j: int| 0 <= j < before.len() && before[j] == x;
                            if j < pos {
                                assert(after[j] == x);
                            } else {
                                assert(after[j + 1] == x);
                            }
                        }
                    }
                }
            }
            Ok(Order { client_order_id, total_qty, filled_qty: attempted as i64, status: next_status, executions })
        },
        OrderEvent::NewAck => {
            if status == OrderStatus::PendingNew || status == OrderStatus::Uncertain {
                let next = if order.filled_qty == 0 { OrderStatus::Open } else { OrderStatus::PartiallyFilled };
                Ok(Order { status: next, ..order })
            } else if status == OrderStatus::PartiallyFilled || status == OrderStatus::Filled
                || status == OrderStatus::Cancelled {
                Ok(order)
            } else {
                Err(ReduceError::IllegalTransition)
            }
        },
        OrderEvent::Reject => {
            if (status == OrderStatus::PendingNew || status == OrderStatus::Uncertain) && order.filled_qty == 0 {
                Ok(Order { status: OrderStatus::Rejected, ..order })
            } else {
                Err(ReduceError::IllegalTransition)
            }
        },
        OrderEvent::CancelRequested => {
            if status == OrderStatus::Open || status == OrderStatus::PartiallyFilled {
                Ok(Order { status: OrderStatus::PendingCancel, ..order })
            } else {
                Err(ReduceError::IllegalTransition)
            }
        },
        OrderEvent::CancelAck => {
            if status == OrderStatus::Open || status == OrderStatus::PartiallyFilled
                || status == OrderStatus::PendingCancel || status == OrderStatus::Uncertain {
                Ok(Order { status: OrderStatus::Cancelled, ..order })
            } else if status == OrderStatus::Filled || status == OrderStatus::Cancelled {
                Ok(order)
            } else {
                Err(ReduceError::IllegalTransition)
            }
        },
        OrderEvent::Timeout => {
            if !status.is_terminal() {
                Ok(Order { status: OrderStatus::Uncertain, ..order })
            } else {
                Ok(order)
            }
        },
    }
}

/// Whether the event carries only values its types allow.
pub open spec fn event_wf(event: OrderEvent) -> bool {
    event matches OrderEvent::Fill { qty, .. } ==> qty.in_range()
}

/// The cumulative filled quantity never decreases and never exceeds the
/// order's total; the order's identity and total never change.
pub proof fn law_filled_qty_monotone_and_bounded(order: OrderView, event: OrderEvent)
    requires
        order.wf(),
        event_wf(event),
    ensures
        reduce_spec(order, event) matches Ok(next) ==> {
            &&& next.wf()
            &&& order.filled_qty <= next.filled_qty
            &&& next.total_qty == order.total_qty
            &&& next.client_order_id == order.client_order_id
            &&& order.executions.subset_of(next.executions)
        },
{
}

/// A fill whose execution key was already applied leaves the order exactly as
/// it is.
pub proof fn law_duplicate_fill_is_absorbed(order: OrderView, key: ExecutionKey, qty: QtyLots)
    requires
        order.executions.contains(key@),
    ensures
        reduce_spec(order, OrderEvent::Fill { key, qty }) == Ok::<OrderView, ReduceError>(order),
{
}

/// One execution changes the filled quantity at most once: once a fill is
/// applied, any later report of the same execution key is a no-op.
pub proof fn law_fill_applies_once(order: OrderView, key: ExecutionKey, qty: QtyLots, again: QtyLots)
    requires
        reduce_spec(order, OrderEvent::Fill { key, qty }) is Ok,
    ensures
        ({
            let next = reduce_spec(order, OrderEvent::Fill { key, qty })->Ok_0;
            &&& next.executions.contains(key@)
            &&& reduce_spec(next, OrderEvent::Fill { key, qty: again }) == Ok::<OrderView, ReduceError>(next)
        }),
{
}

/// A terminal order (filled, cancelled or rejected) is never moved back to a
/// live state by any event, however late it arrives.
pub proof fn law_terminal_state_not_regressed(order: OrderView, event: OrderEvent)
    requires
        order.wf(),
        event_wf(event),
        status_is_terminal(order.status),
    ensures
        reduce_spec(order, event) matches Ok(next) ==> status_is_terminal(next.status),
{
}

/// A cancel request is not terminal: fills are still accepted while it is in
/// flight, and a fill that completes the order makes it filled.
pub proof fn law_fill_during_pending_cancel(order: OrderView, key: ExecutionKey, qty: QtyLots)
    requires
        order.wf(),
        qty.in_range(),
        order.status == OrderStatus::PendingCancel,
        !order.executions.contains(key@),
        order.filled_qty + qty@ <= order.total_qty,
    ensures
        reduce_spec(order, OrderEvent::Fill { key, qty }) matches Ok(next) && next.filled_qty == order.filled_qty + qty@
            && next.status == (if next.filled_qty == order.total_qty { OrderStatus::Filled } else { OrderStatus::PendingCancel }),
{
}

/// A fill that arrives before the order's acknowledgement is accepted, and
/// the late acknowledgement then changes nothing: the fill is neither lost
/// nor undone.
pub proof fn law_fill_before_ack_absorbed(order: OrderView, key: ExecutionKey, qty: QtyLots)
    requires
        order.wf(),
        qty.in_range(),
        order.status == OrderStatus::PendingNew,
        !order.executions.contains(key@),
        order.filled_qty + qty@ <= order.total_qty,
    ensures
        reduce_spec(order, OrderEvent::Fill { key, qty }) matches Ok(next) && next.filled_qty == order.filled_qty + qty@
            && next.executions.contains(key@) && reduce_spec(next, OrderEvent::NewAck) == Ok::<
            OrderView,
            ReduceError,
        >(next),
{
}

/// What holds of every order reachable from a freshly sent one: the view's
/// bounds, the filled status exactly when the fill is complete, and a
/// rejection only when nothing was filled.
pub open spec fn order_consistent(o: OrderView) -> bool {
    &&& o.wf()
    &&& (o.status == OrderStatus::Filled <==> o.filled_qty == o.total_qty)
    &&& (o.status == OrderStatus::Rejected ==> o.filled_qty == 0)
}

/// A freshly sent order, as `Order::pending` makes it.
pub open spec fn pending_view(client_order_id: Seq<char>, total_qty: int) -> OrderView {
    OrderView {
        client_order_id,
        total_qty,
        filled_qty: 0,
        status: OrderStatus::PendingNew,
        executions: Set::empty(),
    }
}

/// The order after a sequence of events, stopping at the first refusal.
pub open spec fn reduce_all(order: OrderView, events: Seq<OrderEvent>) -> Result<OrderView, ReduceError>
    decreases events.len(),
{
    if events.len() == 0 {
        Ok(order)
    } else {
        match reduce_all(order, events.drop_last()) {
            Ok(prev) => reduce_spec(prev, events.last()),
            Err(e) => Err(e),
        }
    }
}

/// Every accepted event keeps an order consistent, never lowers its fill,
/// never changes its identity or total, and never leaves a terminal state.
pub proof fn law_reduce_keeps_consistent(order: OrderView, event: OrderEvent)
    requires
        order_consistent(order),
        event_wf(event),
    ensures
        reduce_spec(order, event) matches Ok(next) ==> {
            &&& order_consistent(next)
            &&& order.filled_qty <= next.filled_qty
            &&& next.total_qty == order.total_qty
            &&& next.client_order_id == order.client_order_id
            &&& (status_is_terminal(order.status) ==> status_is_terminal(next.status))
        },
{
}

/// Every order reached from a freshly sent one through accepted events is
/// filled exactly when complete and rejected only with nothing filled, and
/// keeps its identity and total.
pub proof fn law_reachable_orders_are_consistent(client_order_id: Seq<char>, total_qty: int, events: Seq<OrderEvent>)
    requires
        0 < total_qty <= i64::MAX,
        forall|i: int| 0 <= i < events.len() ==> event_wf(#[trigger] events[i]),
    ensures
        reduce_all(pending_view(client_order_id, total_qty), events) matches Ok(o) ==> {
            &&& order_consistent(o)
            &&& o.total_qty == total_qty
            &&& o.client_order_id == client_order_id
        },
    decreases events.len(),
{
    if events.len() > 0 {
        let p = events.drop_last();
        assert forall|i: int| 0 <= i < p.len() implies event_wf(#[trigger] p[i]) by {
            assert(p[i] == events[i]);
        }
        law_reachable_orders_are_consistent(client_order_id, total_qty, p);
        if let Ok(prev) = reduce_all(pending_view(client_order_id, total_qty), p) {
            law_reduce_keeps_consistent(prev, events.last());
        }
    }
}

/// A new fill that is accepted and does not complete the order leaves it
/// partially filled, unless a cancel is pending or confirmed: never open,
/// pending or uncertain. A fill that completes the order makes it filled,
/// and an accepted new fill adds exactly its quantity and records its key.
pub proof fn law_new_fill_status(order: OrderView, key: ExecutionKey, qty: QtyLots)
    requires
        order.wf(),
        qty.in_range(),
        !order.executions.contains(key@),
    ensures
        reduce_spec(order, OrderEvent::Fill { key, qty }) matches Ok(next) ==> {
            &&& next.filled_qty == order.filled_qty + qty@
            &&& next.executions == order.executions.insert(key@)
            &&& next.total_qty == order.total_qty
            &&& (next.filled_qty == next.total_qty ==> next.status == OrderStatus::Filled)
            &&& (next.filled_qty < next.total_qty ==> next.status == (if order.status == OrderStatus::Cancelled {
                OrderStatus::Cancelled
            } else if order.status == OrderStatus::PendingCancel {
                OrderStatus::PendingCancel
            } else {
                OrderStatus::PartiallyFilled
            }))
            &&& next.status != OrderStatus::Open
            &&& next.status != OrderStatus::PendingNew
            &&& next.status != OrderStatus::Uncertain
        },
        order.status == OrderStatus::Rejected ==> reduce_spec(order, OrderEvent::Fill { key, qty })
            == Err::<OrderView, ReduceError>(ReduceError::IllegalTransition),
        order.status != OrderStatus::Rejected && order.filled_qty + qty@ > order.total_qty ==> reduce_spec(
            order,
            OrderEvent::Fill { key, qty },
        ) == Err::<OrderView, ReduceError>(
            ReduceError::Overfill { total: order.total_qty as i64, attempted: (order.filled_qty + qty@) as i128 },
        ),
        order.status != OrderStatus::Rejected && order.filled_qty + qty@ <= order.total_qty ==> reduce_spec(
            order,
            OrderEvent::Fill { key, qty },
        ) is Ok,
{
}

/// How every other event moves an order: an acknowledgement opens a pending
/// or uncertain order (partially filled if something already filled) and is
/// absorbed by a partially filled, filled or cancelled one; a reject ends a
/// pending or uncertain order with nothing filled; a cancel request applies
/// to an open or partially filled order; a cancel confirmation cancels any
/// live order and is absorbed by a filled or cancelled one; a timeout makes a
/// live order uncertain and leaves a terminal one alone. Any other
/// combination is an illegal transition, and only the status ever changes.
pub proof fn law_status_transitions(order: OrderView, event: OrderEvent)
    requires
        !(event is Fill),
    ensures
        reduce_spec(order, event) matches Ok(next) ==> next.filled_qty == order.filled_qty && next.total_qty
            == order.total_qty && next.executions == order.executions && next.client_order_id
            == order.client_order_id,
        event is NewAck ==> reduce_spec(order, event) == (if order.status == OrderStatus::PendingNew || order.status
            == OrderStatus::Uncertain {
            Ok::<OrderView, ReduceError>(
                OrderView {
                    status: if order.filled_qty == 0 {
                        OrderStatus::Open
                    } else {
                        OrderStatus::PartiallyFilled
                    },
                    ..order
                },
            )
        } else if order.status == OrderStatus::PartiallyFilled || order.status == OrderStatus::Filled || order.status
            == OrderStatus::Cancelled {
            Ok::<OrderView, ReduceError>(order)
        } else {
            Err::<OrderView, ReduceError>(ReduceError::IllegalTransition)
        }),
        event is Reject ==> reduce_spec(order, event) == (if (order.status == OrderStatus::PendingNew || order.status
            == OrderStatus::Uncertain) && order.filled_qty == 0 {
            Ok::<OrderView, ReduceError>(OrderView { status: OrderStatus::Rejected, ..order })
        } else {
            Err::<OrderView, ReduceError>(ReduceError::IllegalTransition)
        }),
        event is CancelRequested ==> reduce_spec(order, event) == (if order.status == OrderStatus::Open
            || order.status == OrderStatus::PartiallyFilled {
            Ok::<OrderView, ReduceError>(OrderView { status: OrderStatus::PendingCancel, ..order })
        } else {
            Err::<OrderView, ReduceError>(ReduceError::IllegalTransition)
        }),
        event is CancelAck ==> reduce_spec(order, event) == (if order.status == OrderStatus::Open || order.status
            == OrderStatus::PartiallyFilled || order.status == OrderStatus::PendingCancel || order.status
            == OrderStatus::Uncertain {
            Ok::<OrderView, ReduceError>(OrderView { status: OrderStatus::Cancelled, ..order })
        } else if order.status == OrderStatus::Filled || order.status == OrderStatus::Cancelled {
            Ok::<OrderView, ReduceError>(order)
        } else {
            Err::<OrderView, ReduceError>(ReduceError::IllegalTransition)
        }),
        event is Timeout ==> reduce_spec(order, event) == (if order.status == OrderStatus::Filled || order.status
            == OrderStatus::Cancelled || order.status == OrderStatus::Rejected {
            Ok::<OrderView, ReduceError>(order)
        } else {
            Ok::<OrderView, ReduceError>(OrderView { status: OrderStatus::Uncertain, ..order })
        }),
{
}

} // verus!
