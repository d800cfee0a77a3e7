//! Units and identifiers shared by every other module.

use vstd::prelude::*;

use crate::text::{compare_text, lemma_text_order_basics, lemma_text_order_transitive, text_order};

verus! {

/// Why a unit value was refused.
#[derive(Debug, Clone, Copy, PartialEq, Eq, Structural)]
pub enum DomainError {
    NonPositivePrice,
    NonPositiveQuantity,
}

impl DomainError {
    /// The human-readable message for this error.
    pub fn message(&self) -> (s: &'static str)
        ensures
            s@ == match self {
                DomainError::NonPositivePrice => "price ticks must be positive"@,
                DomainError::NonPositiveQuantity => "quantity lots must be positive"@,
            },
    {
        match self {
            DomainError::NonPositivePrice => "price ticks must be positive",
            DomainError::NonPositiveQuantity => "quantity lots must be positive",
        }
    }
}

/// A strictly positive price, counted in venue ticks.
#[derive(Debug, Clone, Copy, PartialEq, Eq, PartialOrd, Ord, Hash)]
pub struct PriceTicks(i64);

impl View for PriceTicks {
    type V = int;

    closed spec fn view(&self) -> int {
        self.0 as int
    }
}

impl PriceTicks {
    /// Every value of this type is positive and fits in an `i64`.
    #[verifier::type_invariant]
    pub open spec fn in_range(self) -> bool {
        0 < self@ <= i64::MAX
    }

    /// Accepts `value` exactly when it is positive.
    pub fn new(value: i64) -> (result: Result<Self, DomainError>)
        ensures
            value > 0 <==> result is Ok,
            result matches Ok(p) ==> p@ == value,
            result matches Err(e) ==> e == DomainError::NonPositivePrice,
    {
        if value > 0 {
            Ok(PriceTicks(value))
        } else {
            Err(DomainError::NonPositivePrice)
        }
    }

    /// The tick count, which is always positive.
    pub fn get(self) -> (r: i64)
        ensures
            r == self@,
            r > 0,
    {
        proof {
            use_type_invariant(&self);
        }
        self.0
    }

    /// Two prices are the same value exactly when they count the same ticks.
    pub proof fn lemma_view_injective(a: PriceTicks, b: PriceTicks)
        ensures
            (a@ == b@) <==> (a == b),
    {
    }
}

/// A strictly positive quantity, counted in lots.
#[derive(Debug, Clone, Copy, PartialEq, Eq, PartialOrd, Ord, Hash)]
pub struct QtyLots(i64);

impl View for QtyLots {
    type V = int;

    closed spec fn view(&self) -> int {
        self.0 as int
    }
}

impl QtyLots {
    /// Every value of this type is positive and fits in an `i64`.
    #[verifier::type_invariant]
    pub open spec fn in_range(self) -> bool {
        0 < self@ <= i64::MAX
    }

    /// Accepts `value` exactly when it is positive.
    pub fn new(value: i64) -> (result: Result<Self, DomainError>)
        ensures
            value > 0 <==> result is Ok,
            result matches Ok(q) ==> q@ == value,
            result matches Err(e) ==> e == DomainError::NonPositiveQuantity,
    {
        if value > 0 {
            Ok(QtyLots(value))
        } else {
            Err(DomainError::NonPositiveQuantity)
        }
    }

    /// The lot count, which is always positive.
    pub fn get(self) -> (r: i64)
        ensures
            r == self@,
            r > 0,
    {
        proof {
            use_type_invariant(&self);
        }
        self.0
    }

    /// Two quantities are the same value exactly when they count the same lots.
    pub proof fn lemma_view_injective(a: QtyLots, b: QtyLots)
        ensures
            (a@ == b@) <==> (a == b),
    {
    }
}

/// The side of an order or a fill.
#[derive(Debug, Clone, Copy, PartialEq, Eq, Hash, Structural)]
pub enum Side {
    Buy,
    Sell,
}

/// A locally created request identifier.
#[derive(Debug, Clone, PartialEq, Eq, Hash)]
pub struct ClientOrderId(String);

impl View for ClientOrderId {
    type V = Seq<char>;

    closed spec fn view(&self) -> Seq<char> {
        self.0@
    }
}

impl ClientOrderId {
    /// Wraps the given text.
    pub fn new(value: &str) -> (id: Self)
        ensures
            id@ == value@,
    {
        ClientOrderId(value.to_owned())
    }

    /// The wrapped text.
    pub fn as_str(&self) -> (s: &str)
        ensures
            s@ == self@,
    {
        self.0.as_str()
    }

    /// A copy that carries the same text.
    pub fn duplicate(&self) -> (id: Self)
        ensures
            id@ == self@,
    {
        ClientOrderId(self.0.clone())
    }

    /// Whether both identifiers carry the same text.
    pub fn same_as(&self, other: &ClientOrderId) -> (r: bool)
        ensures
            r == (self@ == other@),
    {
        self.0 == other.0
    }
}

/// The identity of one execution: venue, account, instrument and the venue's
/// execution id.
#[derive(Debug, Clone, PartialEq, Eq, Hash)]
pub struct ExecutionKey {
    pub venue: String,
    pub account: String,
    pub instrument: String,
    pub execution_id: String,
}

impl View for ExecutionKey {
    type V = (Seq<char>, Seq<char>, Seq<char>, Seq<char>);

    open spec fn view(&self) -> (Seq<char>, Seq<char>, Seq<char>, Seq<char>) {
        (self.venue@, self.account@, self.instrument@, self.execution_id@)
    }
}

impl ExecutionKey {
    /// Builds a key from its four parts.
    pub fn new(venue: &str, account: &str, instrument: &str, execution_id: &str) -> (key: Self)
        ensures
            key@ == (venue@, account@, instrument@, execution_id@),
    {
        ExecutionKey {
            venue: venue.to_owned(),
            account: account.to_owned(),
            instrument: instrument.to_owned(),
            execution_id: execution_id.to_owned(),
        }
    }

    /// A copy that carries the same four parts.
    pub fn duplicate(&self) -> (key: Self)
        ensures
            key@ == self@,
    {
        ExecutionKey {
            venue: self.venue.clone(),
            account: self.account.clone(),
            instrument: self.instrument.clone(),
            execution_id: self.execution_id.clone(),
        }
    }

    /// Whether both keys name the same execution.
    pub fn same_as(&self, other: &ExecutionKey) -> (r: bool)
        ensures
            r == (self@ == other@),
    {
        self.venue == other.venue && self.account == other.account && self.instrument
            == other.instrument && self.execution_id == other.execution_id
    }
}

/// The four parts of an execution key.
pub type KeyView = (Seq<char>, Seq<char>, Seq<char>, Seq<char>);

/// Keys in lexicographic order of venue, account, instrument and execution
/// id, each part compared by its UTF-8 bytes: negative, zero or positive.
pub open spec fn key_order(a: KeyView, b: KeyView) -> int {
    if text_order(a.0, b.0) != 0 {
        text_order(a.0, b.0)
    } else if text_order(a.1, b.1) != 0 {
        text_order(a.1, b.1)
    } else if text_order(a.2, b.2) != 0 {
        text_order(a.2, b.2)
    } else {
        text_order(a.3, b.3)
    }
}

/// The key order flips with its arguments and is zero exactly for equal keys.
pub proof fn lemma_key_order_basics(a: KeyView, b: KeyView)
    ensures
        -1 <= key_order(a, b) <= 1,
        key_order(a, b) == -key_order(b, a),
        (key_order(a, b) == 0) <==> (a == b),
{
    lemma_text_order_basics(a.0, b.0);
    lemma_text_order_basics(a.1, b.1);
    lemma_text_order_basics(a.2, b.2);
    lemma_text_order_basics(a.3, b.3);
}

/// The key order is transitive.
pub proof fn lemma_key_order_transitive(a: KeyView, b: KeyView, c: KeyView)
    requires
        key_order(a, b) < 0,
        key_order(b, c) < 0,
    ensures
        key_order(a, c) < 0,
{
    lemma_text_order_basics(a.0, b.0);
    lemma_text_order_basics(a.1, b.1);
    lemma_text_order_basics(a.2, b.2);
    lemma_text_order_basics(a.3, b.3);
    lemma_text_order_basics(b.0, c.0);
    lemma_text_order_basics(b.1, c.1);
    lemma_text_order_basics(b.2, c.2);
    lemma_text_order_basics(b.3, c.3);
    lemma_text_order_basics(a.0, c.0);
    lemma_text_order_basics(a.1, c.1);
    lemma_text_order_basics(a.2, c.2);
    lemma_text_order_basics(a.3, c.3);
    if text_order(a.0, b.0) < 0 && text_order(b.0, c.0) < 0 {
        lemma_text_order_transitive(a.0, b.0, c.0);
    }
    if text_order(a.1, b.1) < 0 && text_order(b.1, c.1) < 0 {
        lemma_text_order_transitive(a.1, b.1, c.1);
    }
    if text_order(a.2, b.2) < 0 && text_order(b.2, c.2) < 0 {
        lemma_text_order_transitive(a.2, b.2, c.2);
    }
    if text_order(a.3, b.3) < 0 && text_order(b.3, c.3) < 0 {
        lemma_text_order_transitive(a.3, b.3, c.3);
    }
}

impl ExecutionKey {
    /// Compares two keys in key order.
    pub fn compare(&self, other: &ExecutionKey) -> (r: i8)
        ensures
            r as int == key_order(self@, other@),
    {
        let c = compare_text(self.venue.as_str(), other.venue.as_str());
        if c != 0 {
            return c;
        }
        let c = compare_text(self.account.as_str(), other.account.as_str());
        if c != 0 {
            return c;
        }
        let c = compare_text(self.instrument.as_str(), other.instrument.as_str());
        if c != 0 {
            return c;
        }
        compare_text(self.execution_id.as_str(), other.execution_id.as_str())
    }
}

} // verus!
