//! Parent-order execution accounting: child orders draw on the parent's
//! target, and a child whose cancel is still in flight keeps consuming
//! capacity because it can still fill.

use vstd::prelude::*;

use crate::domain::{ClientOrderId, QtyLots, Side};
use crate::render::{push_signed_decimal, push_text, signed_decimal};

verus! {

/// The lifecycle of one child order.
#[derive(Debug, Clone, Copy, PartialEq, Eq, Structural)]
pub enum ChildState {
    Working,
    PendingCancel,
    Filled,
    Cancelled,
}

/// One child order of a parent execution.
#[derive(Debug, Clone, PartialEq, Eq)]
pub struct ChildOrder {
    pub client_order_id: ClientOrderId,
    pub original_lots: i64,
    pub filled_lots: i64,
    pub state: ChildState,
}

/// The facts of one child order.
pub struct ChildView {
    pub id: Seq<char>,
    pub original: int,
    pub filled: int,
    pub state: ChildState,
}

impl View for ChildOrder {
    type V = ChildView;

    open spec fn view(&self) -> ChildView {
        ChildView {
            id: self.client_order_id@,
            original: self.original_lots as int,
            filled: self.filled_lots as int,
            state: self.state,
        }
    }
}

/// What a child can still add to the parent's fills: its remainder while it
/// is working or its cancel is in flight, nothing once filled or cancelled.
pub open spec fn potential_fill(c: ChildView) -> int {
    match c.state {
        ChildState::Working | ChildState::PendingCancel => c.original - c.filled,
        ChildState::Filled | ChildState::Cancelled => 0,
    }
}

impl ChildOrder {
    /// The quantity not yet filled.
    pub fn remaining_lots(&self) -> (r: i64)
        requires
            i64::MIN <= self.original_lots - self.filled_lots <= i64::MAX,
        ensures
            r == self.original_lots - self.filled_lots,
    {
        self.original_lots - self.filled_lots
    }

    fn potential_fill_lots(&self) -> (r: i64)
        requires
            i64::MIN <= self.original_lots - self.filled_lots <= i64::MAX,
        ensures
            r == potential_fill(self@),
    {
        match self.state {
            ChildState::Working | ChildState::PendingCancel => self.remaining_lots(),
            ChildState::Filled | ChildState::Cancelled => 0,
        }
    }
}

/// Why the parent refused a child operation.
#[derive(Debug, Clone, PartialEq, Eq)]
pub enum ExecutionError {
    DuplicateChild(ClientOrderId),
    UnknownChild(ClientOrderId),
    ChildNotActive(ClientOrderId),
    ChildExceedsRemaining { requested: i64, available: i64 },
    ChildOverfill { original: i64, attempted: i128 },
    ParentOverfill { target: i64, attempted: i128 },
}

impl ExecutionError {
    /// The human-readable message for this error.
    pub fn message(&self) -> (s: String)
        ensures
            s@ == match self {
                ExecutionError::DuplicateChild(id) => "duplicate child order: "@ + id@,
                ExecutionError::UnknownChild(id) => "unknown child order: "@ + id@,
                ExecutionError::ChildNotActive(id) => "child order is not active: "@ + id@,
                ExecutionError::ChildExceedsRemaining { requested, available } =>
                    "child quantity exceeds parent capacity: requested="@ + signed_decimal(*requested as int)
                    + ", available="@ + signed_decimal(*available as int),
                ExecutionError::ChildOverfill { original, attempted } =>
                    "child fill exceeds order quantity: original="@ + signed_decimal(*original as int)
                    + ", attempted="@ + signed_decimal(*attempted as int),
                ExecutionError::ParentOverfill { target, attempted } =>
                    "confirmed fills exceed parent target: target="@ + signed_decimal(*target as int)
                    + ", attempted="@ + signed_decimal(*attempted as int),
            },
    {
        match self {
            ExecutionError::DuplicateChild(id) => {
                let mut s = "duplicate child order: ".to_owned();
                push_text(&mut s, id.as_str());
                s
            },
            ExecutionError::UnknownChild(id) => {
                let mut s = "unknown child order: ".to_owned();
                push_text(&mut s, id.as_str());
                s
            },
            ExecutionError::ChildNotActive(id) => {
                let mut s = "child order is not active: ".to_owned();
                push_text(&mut s, id.as_str());
                s
            },
            ExecutionError::ChildExceedsRemaining { requested, available } => {
                let mut s = "child quantity exceeds parent capacity: requested=".to_owned();
                push_signed_decimal(&mut s, *requested as i128);
                push_text(&mut s, ", available=");
                push_signed_decimal(&mut s, *available as i128);
                s
            },
            ExecutionError::ChildOverfill { original, attempted } => {
                let mut s = "child fill exceeds order quantity: original=".to_owned();
                push_signed_decimal(&mut s, *original as i128);
                push_text(&mut s, ", attempted=");
                push_signed_decimal(&mut s, *attempted);
                s
            },
            ExecutionError::ParentOverfill { target, attempted } => {
                let mut s = "confirmed fills exceed parent target: target=".to_owned();
                push_signed_decimal(&mut s, *target as i128);
                push_text(&mut s, ", attempted=");
                push_signed_decimal(&mut s, *attempted);
                s
            },
        }
    }
}

/// The sum of the children's potential fills.
pub open spec fn open_risk(children: Seq<ChildView>) -> int
    decreases children.len(),
{
    if children.len() == 0 {
        0
    } else {
        open_risk(children.drop_last()) + potential_fill(children.last())
    }
}

/// The sum of the children's fills.
pub open spec fn filled_total(children: Seq<ChildView>) -> int
    decreases children.len(),
{
    if children.len() == 0 {
        0
    } else {
        filled_total(children.drop_last()) + children.last().filled
    }
}

/// The mathematical content of a parent execution.
pub struct ParentView {
    pub side: Side,
    pub target: int,
    pub confirmed: int,
    pub children: Seq<ChildView>,
}

/// Each child: a positive original quantity, a fill within it, filled state
/// exactly when complete.
pub open spec fn child_wf(c: ChildView) -> bool {
    &&& 0 < c.original <= i64::MAX
    &&& 0 <= c.filled <= c.original
    &&& (c.state == ChildState::Filled <==> c.filled == c.original)
}

/// What every parent keeps: distinct well-formed children whose fills add up
/// to the confirmed fills, and confirmed fills plus open risk within the
/// target.
pub open spec fn parent_inv(v: ParentView) -> bool {
    &&& 0 < v.target <= i64::MAX
    &&& forall|i: int| 0 <= i < v.children.len() ==> child_wf(#[trigger] v.children[i])
    &&& forall|i: int, j: int| 0 <= i < j < v.children.len() ==> v.children[i].id != v.children[j].id
    &&& v.confirmed == filled_total(v.children)
    &&& v.confirmed + open_risk(v.children) <= v.target
}

/// The capacity a new child may take: the target minus confirmed fills and
/// open risk, clamped to `0..=i64::MAX`.
pub open spec fn capacity(v: ParentView) -> int {
    let raw = v.target - v.confirmed - open_risk(v.children);
    if raw < 0 {
        0
    } else {
        raw
    }
}

/// The index of the child with this id, if any.
pub open spec fn child_index(children: Seq<ChildView>, id: Seq<char>) -> Option<int> {
    if exists|i: int| 0 <= i < children.len() && children[i].id == id {
        Some(choose|i: int| 0 <= i < children.len() && children[i].id == id)
    } else {
        None
    }
}

/// A parent order that is worked through child orders.
#[derive(Debug, Clone)]
pub struct ParentExecution {
    pub side: Side,
    target_lots: i64,
    confirmed_filled_lots: i64,
    children: Vec<ChildOrder>,
}

impl View for ParentExecution {
    type V = ParentView;

    closed spec fn view(&self) -> ParentView {
        ParentView {
            side: self.side,
            target: self.target_lots as int,
            confirmed: self.confirmed_filled_lots as int,
            children: self.children@.map_values(|c: ChildOrder| c@),
        }
    }
}

/// Both sums over children are non-negative and bounded by the positive
/// original quantities.
proof fn lemma_sums_nonneg(children: Seq<ChildView>)
    requires
        forall|i: int| 0 <= i < children.len() ==> child_wf(#[trigger] children[i]),
    ensures
        open_risk(children) >= 0,
        filled_total(children) >= 0,
    decreases children.len(),
{
    if children.len() > 0 {
        let p = children.drop_last();
        assert forall|i: int| 0 <= i < p.len() implies child_wf(#[trigger] p[i]) by {
            assert(p[i] == children[i]);
        }
        lemma_sums_nonneg(p);
        assert(child_wf(children[children.len() - 1]));
    }
}

/// Replacing one child changes both sums by the differences at that child.
proof fn lemma_sums_update(children: Seq<ChildView>, k: int, c: ChildView)
    requires
        0 <= k < children.len(),
    ensures
        open_risk(children.update(k, c)) == open_risk(children) - potential_fill(children[k]) + potential_fill(c),
        filled_total(children.update(k, c)) == filled_total(children) - children[k].filled + c.filled,
    decreases children.len(),
{
    let u = children.update(k, c);
    if k == children.len() - 1 {
        assert(u.drop_last() =~= children.drop_last());
    } else {
        assert(u.drop_last() =~= children.drop_last().update(k, c));
        lemma_sums_update(children.drop_last(), k, c);
    }
}

impl ParentExecution {
    /// The parent's invariant holds.
    pub open spec fn wf(&self) -> bool {
        parent_inv(self@)
    }

    /// The side the parent works.
    pub fn side(&self) -> (s: Side)
        ensures
            s == self@.side,
    {
        self.side
    }

    /// A parent with no children and nothing filled.
    pub fn new(side: Side, target: QtyLots) -> (p: Self)
        ensures
            p.wf(),
            p@.side == side,
            p@.target == target@,
            p@.confirmed == 0,
            p@.children.len() == 0,
    {
        let t = target.get();
        let p = ParentExecution { side, target_lots: t, confirmed_filled_lots: 0, children: Vec::new() };
        proof {
            assert(p@.children =~= Seq::<ChildView>::empty());
        }
        p
    }

    pub fn target_lots(&self) -> (r: i64)
        ensures
            r == self@.target,
    {
        self.target_lots
    }

    pub fn confirmed_filled_lots(&self) -> (r: i64)
        ensures
            r == self@.confirmed,
    {
        self.confirmed_filled_lots
    }

    /// The lots that live and cancel-pending children can still fill.
    pub fn open_risk_lots(&self) -> (r: i64)
        requires
            self.wf(),
        ensures
            r == open_risk(self@.children),
    {
        let ghost cs = self@.children;
        let mut total: i128 = 0;
        let mut i: usize = 0;
        while i < self.children.len()
            invariant
                0 <= i <= self.children.len(),
                cs == self@.children,
                parent_inv(self@),
                total == open_risk(cs.take(i as int)),
            decreases self.children.len() - i,
        {
            proof {
                assert(cs.take(i + 1).drop_last() =~= cs.take(i as int));
                assert(cs[i as int] == self.children@[i as int]@);
                assert(child_wf(cs[i as int]));
                lemma_open_risk_prefix(cs, i + 1);
                lemma_open_risk_prefix_bound(cs, i + 1);
                lemma_sums_nonneg(cs);
            }
            total = total + self.children[i].potential_fill_lots() as i128;
            i = i + 1;
        }
        proof {
            assert(cs.take(i as int) =~= cs);
            lemma_sums_nonneg(cs);
        }
        if total > 0x7fff_ffff_ffff_ffff {
            0x7fff_ffff_ffff_ffff
        } else {
            total as i64
        }
    }

    /// The lots a new child may take.
    pub fn new_child_capacity_lots(&self) -> (r: i64)
        requires
            self.wf(),
        ensures
            r == capacity(self@),
    {
        let available: i128 = self.target_lots as i128 - self.confirmed_filled_lots as i128
            - self.open_risk_lots() as i128;
        proof {
            lemma_sums_nonneg(self@.children);
        }
        if available < 0 {
            0
        } else {
            available as i64
        }
    }

    /// Finds the child with this id.
    fn find(&self, id: &ClientOrderId) -> (r: Option<usize>)
        requires
            self.wf(),
        ensures
            r matches Some(i) ==> i < self@.children.len() && self@.children[i as int].id == id@ && child_index(
                self@.children,
                id@,
            ) == Some(i as int),
            r is None ==> child_index(self@.children, id@) is None,
    {
        let ghost cs = self@.children;
        let mut i: usize = 0;
        while i < self.children.len()
            invariant
                0 <= i <= self.children.len(),
                cs == self@.children,
                parent_inv(self@),
                forall|j: int| 0 <= j < i ==> (#[trigger] cs[j]).id != id@,
            decreases self.children.len() - i,
        {
            if self.children[i].client_order_id.same_as(id) {
                proof {
                    assert(cs[i as int].id == id@);
                    let k = choose|k: int| 0 <= k < cs.len() && cs[k].id == id@;
                    if k != i {
                        assert(cs[k].id != cs[i as int].id);
                    }
                }
                return Some(i);
            }
            i = i + 1;
        }
        None
    }
}

/// The open risk of a prefix is between zero and the whole open risk.
proof fn lemma_open_risk_prefix_bound(children: Seq<ChildView>, k: int)
    requires
        0 <= k <= children.len(),
        forall|i: int| 0 <= i < children.len() ==> child_wf(#[trigger] children[i]),
    ensures
        0 <= open_risk(children.take(k)) <= open_risk(children),
    decreases children.len() - k,
{
    let t = children.take(k);
    assert forall|i: int| 0 <= i < t.len() implies child_wf(#[trigger] t[i]) by {
        assert(t[i] == children[i]);
    }
    lemma_sums_nonneg(t);
    if k < children.len() {
        lemma_open_risk_prefix_bound(children, k + 1);
        lemma_open_risk_prefix(children, k + 1);
        assert(child_wf(children[k]));
    } else {
        assert(t =~= children);
    }
}

/// The child after a confirmed fill of `qty`: filled grows, and it is filled
/// once complete.
pub open spec fn child_after_fill(c: ChildView, qty: int) -> ChildView {
    ChildView {
        filled: c.filled + qty,
        state: if c.filled + qty == c.original { ChildState::Filled } else { c.state },
        ..c
    }
}

/// The child with its state replaced.
pub open spec fn child_with_state(c: ChildView, state: ChildState) -> ChildView {
    ChildView { state, ..c }
}

impl ParentExecution {
    /// Registers a new working child of `qty` lots, if its id is new and the
    /// quantity fits the parent's remaining capacity.
    pub fn register_child(&mut self, client_order_id: ClientOrderId, qty: QtyLots) -> (result: Result<
        (),
        ExecutionError,
    >)
        requires
            old(self).wf(),
        ensures
            final(self).wf(),
            match child_index(old(self)@.children, client_order_id@) {
                Some(_) => result matches Err(ExecutionError::DuplicateChild(x)) && x@ == client_order_id@
                    && final(self)@ == old(self)@,
                None => if qty@ > capacity(old(self)@) {
                    result == Err::<(), ExecutionError>(
                        ExecutionError::ChildExceedsRemaining {
                            requested: qty@ as i64,
                            available: capacity(old(self)@) as i64,
                        },
                    ) && final(self)@ == old(self)@
                } else {
                    result is Ok && final(self)@ == ParentView {
                        children: old(self)@.children.push(
                            ChildView {
                                id: client_order_id@,
                                original: qty@,
                                filled: 0,
                                state: ChildState::Working,
                            },
                        ),
                        ..old(self)@
                    }
                },
            },
    {
        if let Some(_) = self.find(&client_order_id) {
            return Err(ExecutionError::DuplicateChild(client_order_id));
        }
        let available = self.new_child_capacity_lots();
        let q = qty.get();
        if q > available {
            return Err(ExecutionError::ChildExceedsRemaining { requested: q, available });
        }
        let ghost old_view = self@;
        let child = ChildOrder {
            client_order_id,
            original_lots: q,
            filled_lots: 0,
            state: ChildState::Working,
        };
        self.children.push(child);
        proof {
            let cs = old_view.children;
            let ncs = self@.children;
            assert(ncs =~= cs.push(child@));
            assert(ncs.drop_last() =~= cs);
            lemma_sums_nonneg(cs);
            assert forall|i: int, j: int| 0 <= i < j < ncs.len() implies ncs[i].id != ncs[j].id by {
                if j == cs.len() {
                    assert(ncs[i] == cs[i]);
                }
            }
        }
        Ok(())
    }

    /// Applies a confirmed fill of `qty` lots to a live child, refusing
    /// unknown or inactive children and fills beyond the child's quantity or
    /// the parent's target.
    pub fn apply_confirmed_fill(&mut self, client_order_id: &ClientOrderId, qty: QtyLots) -> (result: Result<
        (),
        ExecutionError,
    >)
        requires
            old(self).wf(),
        ensures
            final(self).wf(),
            match child_index(old(self)@.children, client_order_id@) {
                None => result matches Err(ExecutionError::UnknownChild(x)) && x@ == client_order_id@
                    && final(self)@ == old(self)@,
                Some(k) => {
                    let c = old(self)@.children[k];
                    if c.state == ChildState::Filled || c.state == ChildState::Cancelled {
                        result matches Err(ExecutionError::ChildNotActive(x)) && x@ == client_order_id@
                            && final(self)@ == old(self)@
                    } else if c.filled + qty@ > c.original {
                        result == Err::<(), ExecutionError>(
                            ExecutionError::ChildOverfill {
                                original: c.original as i64,
                                attempted: (c.filled + qty@) as i128,
                            },
                        ) && final(self)@ == old(self)@
                    } else if old(self)@.confirmed + qty@ > old(self)@.target {
                        result == Err::<(), ExecutionError>(
                            ExecutionError::ParentOverfill {
                                target: old(self)@.target as i64,
                                attempted: (old(self)@.confirmed + qty@) as i128,
                            },
                        ) && final(self)@ == old(self)@
                    } else {
                        result is Ok && final(self)@ == ParentView {
                            confirmed: old(self)@.confirmed + qty@,
                            children: old(self)@.children.update(k, child_after_fill(c, qty@)),
                            ..old(self)@
                        }
                    }
                },
            },
    {
        let k = match self.find(client_order_id) {
            Some(k) => k,
            None => return Err(ExecutionError::UnknownChild(client_order_id.duplicate())),
        };
        let ghost old_view = self@;
        proof {
            assert(child_wf(old_view.children[k as int]));
        }
        let state = self.children[k].state;
        if state == ChildState::Filled || state == ChildState::Cancelled {
            return Err(ExecutionError::ChildNotActive(client_order_id.duplicate()));
        }
        let q = qty.get();
        let original = self.children[k].original_lots;
        let child_attempted: i128 = self.children[k].filled_lots as i128 + q as i128;
        if child_attempted > original as i128 {
            return Err(ExecutionError::ChildOverfill { original, attempted: child_attempted });
        }
        let parent_attempted: i128 = self.confirmed_filled_lots as i128 + q as i128;
        if parent_attempted > self.target_lots as i128 {
            return Err(ExecutionError::ParentOverfill { target: self.target_lots, attempted: parent_attempted });
        }
        let filled = child_attempted as i64;
        let next_state = if filled == original { ChildState::Filled } else { state };
        let id = self.children[k].client_order_id.duplicate();
        let child = ChildOrder { client_order_id: id, original_lots: original, filled_lots: filled, state: next_state };
        self.children.set(k, child);
        self.confirmed_filled_lots = parent_attempted as i64;
        proof {
            let cs = old_view.children;
            let nc = child_after_fill(cs[k as int], q as int);
            assert(self@.children =~= cs.update(k as int, nc));
            lemma_sums_update(cs, k as int, nc);
            let ncs = self@.children;
            assert forall|i: int| 0 <= i < ncs.len() implies child_wf(#[trigger] ncs[i]) by {
                if i != k {
                    assert(ncs[i] == cs[i]);
                }
            }
            assert forall|i: int, j: int| 0 <= i < j < ncs.len() implies ncs[i].id != ncs[j].id by {
                assert(ncs[i].id == cs[i].id);
                assert(ncs[j].id == cs[j].id);
            }
        }
        Ok(())
    }

    /// Marks a working child's cancel as requested; it keeps its remaining
    /// quantity at risk until the cancel is confirmed.
    pub fn request_cancel(&mut self, client_order_id: &ClientOrderId) -> (result: Result<(), ExecutionError>)
        requires
            old(self).wf(),
        ensures
            final(self).wf(),
            match child_index(old(self)@.children, client_order_id@) {
                None => result matches Err(ExecutionError::UnknownChild(x)) && x@ == client_order_id@
                    && final(self)@ == old(self)@,
                Some(k) => if old(self)@.children[k].state != ChildState::Working {
                    result matches Err(ExecutionError::ChildNotActive(x)) && x@ == client_order_id@ && final(self)@
                        == old(self)@
                } else {
                    result is Ok && final(self)@ == ParentView {
                        children: old(self)@.children.update(
                            k,
                            child_with_state(old(self)@.children[k], ChildState::PendingCancel),
                        ),
                        ..old(self)@
                    }
                },
            },
    {
        self.set_state(client_order_id, ChildState::Working, ChildState::PendingCancel)
    }

    /// Applies an authoritative cancel result after the OMS has incorporated
    /// the venue's final cumulative fill quantity.
    pub fn confirm_cancel(&mut self, client_order_id: &ClientOrderId) -> (result: Result<(), ExecutionError>)
        requires
            old(self).wf(),
        ensures
            final(self).wf(),
            match child_index(old(self)@.children, client_order_id@) {
                None => result matches Err(ExecutionError::UnknownChild(x)) && x@ == client_order_id@
                    && final(self)@ == old(self)@,
                Some(k) => if old(self)@.children[k].state != ChildState::PendingCancel {
                    result matches Err(ExecutionError::ChildNotActive(x)) && x@ == client_order_id@ && final(self)@
                        == old(self)@
                } else {
                    result is Ok && final(self)@ == ParentView {
                        children: old(self)@.children.update(
                            k,
                            child_with_state(old(self)@.children[k], ChildState::Cancelled),
                        ),
                        ..old(self)@
                    }
                },
            },
    {
        self.set_state(client_order_id, ChildState::PendingCancel, ChildState::Cancelled)
    }

    /// Moves a child from state `from` to state `to`.
    fn set_state(&mut self, client_order_id: &ClientOrderId, from: ChildState, to: ChildState) -> (result: Result<
        (),
        ExecutionError,
    >)
        requires
            old(self).wf(),
            (from == ChildState::Working && to == ChildState::PendingCancel) || (from == ChildState::PendingCancel
                && to == ChildState::Cancelled),
        ensures
            final(self).wf(),
            match child_index(old(self)@.children, client_order_id@) {
                None => result matches Err(ExecutionError::UnknownChild(x)) && x@ == client_order_id@
                    && final(self)@ == old(self)@,
                Some(k) => if old(self)@.children[k].state != from {
                    result matches Err(ExecutionError::ChildNotActive(x)) && x@ == client_order_id@ && final(self)@
                        == old(self)@
                } else {
                    result is Ok && final(self)@ == ParentView {
                        children: old(self)@.children.update(k, child_with_state(old(self)@.children[k], to)),
                        ..old(self)@
                    }
                },
            },
    {
        let k = match self.find(client_order_id) {
            Some(k) => k,
            None => return Err(ExecutionError::UnknownChild(client_order_id.duplicate())),
        };
        let ghost old_view = self@;
        if self.children[k].state != from {
            return Err(ExecutionError::ChildNotActive(client_order_id.duplicate()));
        }
        let id = self.children[k].client_order_id.duplicate();
        let child = ChildOrder {
            client_order_id: id,
            original_lots: self.children[k].original_lots,
            filled_lots: self.children[k].filled_lots,
            state: to,
        };
        self.children.set(k, child);
        proof {
            let cs = old_view.children;
            let nc = child_with_state(cs[k as int], to);
            assert(child_wf(cs[k as int]));
            assert(self@.children =~= cs.update(k as int, nc));
            lemma_sums_update(cs, k as int, nc);
            let ncs = self@.children;
            assert forall|i: int| 0 <= i < ncs.len() implies child_wf(#[trigger] ncs[i]) by {
                if i != k {
                    assert(ncs[i] == cs[i]);
                }
            }
            assert forall|i: int, j: int| 0 <= i < j < ncs.len() implies ncs[i].id != ncs[j].id by {
                assert(ncs[i].id == cs[i].id);
                assert(ncs[j].id == cs[j].id);
            }
        }
        Ok(())
    }
}

/// Confirmed fills plus everything live or cancel-pending children can still
/// fill never exceed the parent's target: no combination of child fills can
/// overfill the parent.
pub proof fn law_no_parent_overfill(v: ParentView)
    requires
        parent_inv(v),
    ensures
        0 <= v.confirmed,
        0 <= open_risk(v.children),
        v.confirmed + open_risk(v.children) <= v.target,
{
    lemma_sums_nonneg(v.children);
}

/// Confirmed fills, open risk and the capacity left for new children are
/// each non-negative and add up to the parent's target.
pub proof fn law_parent_quantities_add_up(v: ParentView)
    requires
        parent_inv(v),
    ensures
        0 <= v.confirmed,
        0 <= open_risk(v.children),
        0 <= capacity(v),
        v.confirmed + open_risk(v.children) + capacity(v) == v.target,
{
    lemma_sums_nonneg(v.children);
}

/// Confirming a child's cancel frees exactly its unfilled lots: open risk
/// falls and the capacity for new children rises by the child's original
/// size minus its fill, and confirmed fills stay as they were.
pub proof fn law_confirm_cancel_frees_remainder(v: ParentView, k: int)
    requires
        parent_inv(v),
        0 <= k < v.children.len(),
        v.children[k].state == ChildState::PendingCancel,
    ensures
        ({
            let c = v.children[k];
            let after = ParentView {
                children: v.children.update(k, child_with_state(c, ChildState::Cancelled)),
                ..v
            };
            &&& open_risk(after.children) == open_risk(v.children) - (c.original - c.filled)
            &&& capacity(after) == capacity(v) + (c.original - c.filled)
            &&& after.confirmed == v.confirmed
        }),
{
    let c = v.children[k];
    lemma_sums_update(v.children, k, child_with_state(c, ChildState::Cancelled));
    lemma_sums_nonneg(v.children);
}

/// A child whose cancel is only requested still counts in full toward open
/// risk: requesting a cancel frees no capacity.
pub proof fn law_pending_cancel_keeps_capacity(v: ParentView, k: int)
    requires
        0 <= k < v.children.len(),
        v.children[k].state == ChildState::Working,
    ensures
        open_risk(v.children.update(k, child_with_state(v.children[k], ChildState::PendingCancel))) == open_risk(
            v.children,
        ),
{
    lemma_sums_update(v.children, k, child_with_state(v.children[k], ChildState::PendingCancel));
}

/// A prefix of the children carries a prefix of the open-risk sum.
proof fn lemma_open_risk_prefix(children: Seq<ChildView>, k: int)
    requires
        0 < k <= children.len(),
    ensures
        open_risk(children.take(k)) == open_risk(children.take(k - 1)) + potential_fill(children[k - 1]),
{
    assert(children.take(k).drop_last() =~= children.take(k - 1));
}

} // verus!
