//! Hard pre-trade risk: an order is allowed, resized or rejected so that the
//! worst-case position, counting live and uncertain orders, stays within the
//! configured limits.

use vstd::prelude::*;

use crate::domain::{PriceTicks, QtyLots, Side};

verus! {

/// An order the strategy would like to send.
#[derive(Debug, Clone, Copy, PartialEq, Eq)]
pub struct OrderIntent {
    pub side: Side,
    pub price: PriceTicks,
    pub qty: QtyLots,
}

/// The state and limits the risk check decides on.
#[derive(Debug, Clone, Copy, PartialEq, Eq, Structural)]
pub struct RiskSnapshot {
    pub enabled: bool,
    pub book_fresh: bool,
    pub book_tradable: bool,
    pub position_lots: i64,
    pub active_buy_lots: i64,
    pub uncertain_buy_lots: i64,
    pub active_sell_lots: i64,
    pub uncertain_sell_lots: i64,
    pub max_abs_position_lots: i64,
    pub max_order_lots: i64,
}

/// Why a risk snapshot cannot be trusted.
#[derive(Debug, Clone, Copy, PartialEq, Eq, Structural)]
pub enum RiskSnapshotError {
    NegativeOpenExposure,
    InvalidLimits,
}

impl RiskSnapshotError {
    /// The human-readable message for this error.
    pub fn message(&self) -> (s: &'static str)
        ensures
            s@ == match self {
                RiskSnapshotError::NegativeOpenExposure => "active and uncertain exposure cannot be negative"@,
                RiskSnapshotError::InvalidLimits => "position limit must be non-negative and order limit positive"@,
            },
    {
        match self {
            RiskSnapshotError::NegativeOpenExposure => "active and uncertain exposure cannot be negative",
            RiskSnapshotError::InvalidLimits => "position limit must be non-negative and order limit positive",
        }
    }
}

/// What `validate` answers for a snapshot.
pub open spec fn validate_spec(s: RiskSnapshot) -> Result<(), RiskSnapshotError> {
    if s.active_buy_lots < 0 || s.uncertain_buy_lots < 0 || s.active_sell_lots < 0 || s.uncertain_sell_lots < 0 {
        Err(RiskSnapshotError::NegativeOpenExposure)
    } else if s.max_abs_position_lots < 0 || s.max_order_lots <= 0 {
        Err(RiskSnapshotError::InvalidLimits)
    } else {
        Ok(())
    }
}

impl RiskSnapshot {
    /// Refuses negative open exposure, then a negative position limit or a
    /// non-positive order limit.
    pub fn validate(self) -> (result: Result<(), RiskSnapshotError>)
        ensures
            result == validate_spec(self),
    {
        if self.active_buy_lots < 0 || self.uncertain_buy_lots < 0 || self.active_sell_lots < 0
            || self.uncertain_sell_lots < 0 {
            return Err(RiskSnapshotError::NegativeOpenExposure);
        }
        if self.max_abs_position_lots < 0 || self.max_order_lots <= 0 {
            return Err(RiskSnapshotError::InvalidLimits);
        }
        Ok(())
    }
}

/// Why the risk check rejected an order.
#[derive(Debug, Clone, Copy, PartialEq, Eq, Structural)]
pub enum RiskRejectReason {
    InvalidExposure,
    InvalidLimits,
    TradingDisabled,
    StaleMarketData,
    UntradableBook,
    PositionLimit,
}

impl RiskRejectReason {
    /// The stable machine-readable name of the reason.
    pub fn as_str(self) -> (s: &'static str)
        ensures
            s@ == match self {
                RiskRejectReason::InvalidExposure => "invalid_exposure"@,
                RiskRejectReason::InvalidLimits => "invalid_limits"@,
                RiskRejectReason::TradingDisabled => "trading_disabled"@,
                RiskRejectReason::StaleMarketData => "stale_market_data"@,
                RiskRejectReason::UntradableBook => "untradable_book"@,
                RiskRejectReason::PositionLimit => "position_limit"@,
            },
    {
        match self {
            RiskRejectReason::InvalidExposure => "invalid_exposure",
            RiskRejectReason::InvalidLimits => "invalid_limits",
            RiskRejectReason::TradingDisabled => "trading_disabled",
            RiskRejectReason::StaleMarketData => "stale_market_data",
            RiskRejectReason::UntradableBook => "untradable_book",
            RiskRejectReason::PositionLimit => "position_limit",
        }
    }
}

/// The risk check's answer.
#[derive(Debug, Clone, Copy, PartialEq, Eq, Structural)]
pub enum RiskDecision {
    Allow,
    Resize { max_qty_lots: i64 },
    Reject(RiskRejectReason),
}

/// The position if every live and uncertain buy filled.
pub open spec fn worst_long_spec(s: RiskSnapshot) -> int {
    s.position_lots + s.active_buy_lots + s.uncertain_buy_lots
}

/// The position if every live and uncertain sell filled.
pub open spec fn worst_short_spec(s: RiskSnapshot) -> int {
    s.position_lots - s.active_sell_lots - s.uncertain_sell_lots
}

/// The position if every live and uncertain buy filled.
pub fn worst_long(snapshot: RiskSnapshot) -> (r: i128)
    ensures
        r == worst_long_spec(snapshot),
{
    snapshot.position_lots as i128 + snapshot.active_buy_lots as i128 + snapshot.uncertain_buy_lots as i128
}

/// The position if every live and uncertain sell filled.
pub fn worst_short(snapshot: RiskSnapshot) -> (r: i128)
    ensures
        r == worst_short_spec(snapshot),
{
    snapshot.position_lots as i128 - snapshot.active_sell_lots as i128 - snapshot.uncertain_sell_lots as i128
}

/// The room left on the intent's side before the worst case hits the limit.
pub open spec fn position_room(side: Side, s: RiskSnapshot) -> int {
    match side {
        Side::Buy => s.max_abs_position_lots - worst_long_spec(s),
        Side::Sell => worst_short_spec(s) + s.max_abs_position_lots,
    }
}

/// `x` limited to `0..=i64::MAX`.
pub open spec fn clamp_lots(x: int) -> int {
    if x < 0 {
        0
    } else if x > i64::MAX {
        i64::MAX as int
    } else {
        x
    }
}

/// The most lots the check lets through for an intent of `qty` lots.
pub open spec fn allowed_lots(side: Side, qty: int, s: RiskSnapshot) -> int {
    let order_cap = if qty < s.max_order_lots { qty } else { s.max_order_lots as int };
    let position_cap = clamp_lots(position_room(side, s));
    if order_cap < position_cap {
        order_cap
    } else {
        position_cap
    }
}

/// What the risk check decides: reject an untrustworthy snapshot, disabled
/// trading, stale data or an untradable book, then allow, resize or reject
/// by the order cap and the worst-case position room.
pub open spec fn check_spec(side: Side, qty: int, s: RiskSnapshot) -> RiskDecision {
    if validate_spec(s) == Err::<(), RiskSnapshotError>(RiskSnapshotError::NegativeOpenExposure) {
        RiskDecision::Reject(RiskRejectReason::InvalidExposure)
    } else if validate_spec(s) == Err::<(), RiskSnapshotError>(RiskSnapshotError::InvalidLimits) {
        RiskDecision::Reject(RiskRejectReason::InvalidLimits)
    } else if !s.enabled {
        RiskDecision::Reject(RiskRejectReason::TradingDisabled)
    } else if !s.book_fresh {
        RiskDecision::Reject(RiskRejectReason::StaleMarketData)
    } else if !s.book_tradable {
        RiskDecision::Reject(RiskRejectReason::UntradableBook)
    } else {
        let allowed = allowed_lots(side, qty, s);
        if allowed <= 0 {
            RiskDecision::Reject(RiskRejectReason::PositionLimit)
        } else if allowed < qty {
            RiskDecision::Resize { max_qty_lots: allowed as i64 }
        } else {
            RiskDecision::Allow
        }
    }
}

/// Decides whether an order may go out, and how large.
pub fn check(intent: OrderIntent, snapshot: RiskSnapshot) -> (decision: RiskDecision)
    ensures
        decision == check_spec(intent.side, intent.qty@, snapshot),
{
    if let Err(error) = snapshot.validate() {
        return RiskDecision::Reject(
            match error {
                RiskSnapshotError::NegativeOpenExposure => RiskRejectReason::InvalidExposure,
                RiskSnapshotError::InvalidLimits => RiskRejectReason::InvalidLimits,
            },
        );
    }
    if !snapshot.enabled {
        return RiskDecision::Reject(RiskRejectReason::TradingDisabled);
    }
    if !snapshot.book_fresh {
        return RiskDecision::Reject(RiskRejectReason::StaleMarketData);
    }
    if !snapshot.book_tradable {
        return RiskDecision::Reject(RiskRejectReason::UntradableBook);
    }
    let qty = intent.qty.get();
    let order_cap = if qty < snapshot.max_order_lots { qty } else { snapshot.max_order_lots };
    let room: i128 = match intent.side {
        Side::Buy => snapshot.max_abs_position_lots as i128 - worst_long(snapshot),
        Side::Sell => worst_short(snapshot) + snapshot.max_abs_position_lots as i128,
    };
    let position_cap: i64 = if room < 0 {
        0
    } else if room > 0x7fff_ffff_ffff_ffff {
        0x7fff_ffff_ffff_ffff
    } else {
        room as i64
    };
    let allowed = if order_cap < position_cap { order_cap } else { position_cap };
    if allowed <= 0 {
        RiskDecision::Reject(RiskRejectReason::PositionLimit)
    } else if allowed < qty {
        RiskDecision::Resize { max_qty_lots: allowed }
    } else {
        RiskDecision::Allow
    }
}

/// Hard limit: whatever the check lets through (the whole intent or the
/// resized quantity) keeps the worst-case position within the position
/// limit and the order within the order limit.
pub proof fn law_allowed_orders_respect_limits(side: Side, qty: int, s: RiskSnapshot)
    requires
        qty > 0,
    ensures
        ({
            let granted = match check_spec(side, qty, s) {
                RiskDecision::Allow => qty,
                RiskDecision::Resize { max_qty_lots } => max_qty_lots as int,
                RiskDecision::Reject(_) => 0,
            };
            &&& 0 <= granted <= qty
            &&& granted > 0 ==> granted <= s.max_order_lots
            &&& granted > 0 ==> match side {
                Side::Buy => worst_long_spec(s) + granted <= s.max_abs_position_lots,
                Side::Sell => worst_short_spec(s) - granted >= -s.max_abs_position_lots,
            }
            &&& check_spec(side, qty, s) matches RiskDecision::Resize { max_qty_lots } ==> 0 < max_qty_lots < qty
        }),
{
}

/// A larger worst-case long position never lets more buying through.
pub proof fn law_more_exposure_never_allows_more(qty: int, s: RiskSnapshot, t: RiskSnapshot)
    requires
        s.max_abs_position_lots == t.max_abs_position_lots,
        s.max_order_lots == t.max_order_lots,
        worst_long_spec(s) <= worst_long_spec(t),
    ensures
        allowed_lots(Side::Buy, qty, t) <= allowed_lots(Side::Buy, qty, s),
{
}

/// Whether adding `x` lots on `side` keeps the worst-case position (every
/// live and uncertain order filled) within the position limit.
pub open spec fn keeps_within_limit(side: Side, s: RiskSnapshot, x: int) -> bool {
    match side {
        Side::Buy => s.position_lots + s.active_buy_lots + s.uncertain_buy_lots + x <= s.max_abs_position_lots,
        Side::Sell => s.position_lots - s.active_sell_lots - s.uncertain_sell_lots - x >= -s.max_abs_position_lots,
    }
}

/// The lots a decision lets through for an intent of `qty` lots.
pub open spec fn granted_lots(d: RiskDecision, qty: int) -> int {
    match d {
        RiskDecision::Allow => qty,
        RiskDecision::Resize { max_qty_lots } => max_qty_lots as int,
        RiskDecision::Reject(_) => 0,
    }
}

/// On a trustworthy, enabled, fresh and tradable snapshot the check grants
/// the largest size that fits: at most the intent and the order limit, with
/// the worst-case position within the limit, and any larger size up to the
/// intent and the order limit would break the position limit. It allows the
/// whole intent when that fits, resizes to a smaller positive size, and
/// rejects only when nothing fits.
pub proof fn law_check_grants_all_room(side: Side, qty: int, s: RiskSnapshot)
    requires
        0 < qty <= i64::MAX,
        s.active_buy_lots >= 0,
        s.uncertain_buy_lots >= 0,
        s.active_sell_lots >= 0,
        s.uncertain_sell_lots >= 0,
        s.max_abs_position_lots >= 0,
        s.max_order_lots > 0,
        s.enabled,
        s.book_fresh,
        s.book_tradable,
    ensures
        ({
            let d = check_spec(side, qty, s);
            let g = granted_lots(d, qty);
            &&& (d is Allow || d is Resize || d == RiskDecision::Reject(RiskRejectReason::PositionLimit))
            &&& d is Allow <==> (qty <= s.max_order_lots && keeps_within_limit(side, s, qty))
            &&& d is Resize ==> 0 < g < qty
            &&& 0 <= g <= qty
            &&& g <= s.max_order_lots
            &&& (g > 0 ==> keeps_within_limit(side, s, g))
            &&& forall|x: int| g < x <= qty && x <= s.max_order_lots ==> !#[trigger] keeps_within_limit(side, s, x)
        }),
{
}

/// The check's gates, in order: negative live or uncertain exposure, then
/// a negative position limit or non-positive order limit, then disabled
/// trading, then stale market data, then an untradable book each reject with
/// their own reason before any size is considered.
pub proof fn law_check_gates(side: Side, qty: int, s: RiskSnapshot)
    ensures
        (s.active_buy_lots < 0 || s.uncertain_buy_lots < 0 || s.active_sell_lots < 0 || s.uncertain_sell_lots < 0)
            ==> check_spec(side, qty, s) == RiskDecision::Reject(RiskRejectReason::InvalidExposure),
        (s.active_buy_lots >= 0 && s.uncertain_buy_lots >= 0 && s.active_sell_lots >= 0 && s.uncertain_sell_lots >= 0
            && (s.max_abs_position_lots < 0 || s.max_order_lots <= 0)) ==> check_spec(side, qty, s)
            == RiskDecision::Reject(RiskRejectReason::InvalidLimits),
        (s.active_buy_lots >= 0 && s.uncertain_buy_lots >= 0 && s.active_sell_lots >= 0 && s.uncertain_sell_lots >= 0
            && s.max_abs_position_lots >= 0 && s.max_order_lots > 0) ==> {
            &&& !s.enabled ==> check_spec(side, qty, s) == RiskDecision::Reject(RiskRejectReason::TradingDisabled)
            &&& s.enabled && !s.book_fresh ==> check_spec(side, qty, s) == RiskDecision::Reject(
                RiskRejectReason::StaleMarketData,
            )
            &&& s.enabled && s.book_fresh && !s.book_tradable ==> check_spec(side, qty, s) == RiskDecision::Reject(
                RiskRejectReason::UntradableBook,
            )
        },
{
}

} // verus!
