//! An L2 order book maintained from a full snapshot and sequence-checked
//! deltas. A book that sees a gap, a crossed spread or a negative level stops
//! publishing prices until a valid snapshot restores it.

use vstd::prelude::*;

use crate::domain::PriceTicks;
use crate::render::{push_decimal, push_signed_decimal, push_text, decimal, signed_decimal};

verus! {

/// One price level: the price and the quantity resting there (zero deletes).
pub type Level = (PriceTicks, i64);

/// A full picture of the book at one sequence number.
#[derive(Debug, Clone, PartialEq, Eq)]
pub struct Snapshot {
    pub sequence: u64,
    pub bids: Vec<Level>,
    pub asks: Vec<Level>,
}

/// Level changes covering the sequence numbers `first_sequence..=last_sequence`.
#[derive(Debug, Clone, PartialEq, Eq)]
pub struct Delta {
    pub first_sequence: u64,
    pub last_sequence: u64,
    pub bids: Vec<Level>,
    pub asks: Vec<Level>,
}

/// Why a snapshot or delta was refused.
#[derive(Debug, Clone, PartialEq, Eq, Structural)]
pub enum BookError {
    InvalidLevelQty(i64),
    InvalidSequenceRange { first: u64, last: u64 },
    SequenceGap { expected: u64, received: u64 },
    CrossedBook { best_bid: i64, best_ask: i64 },
    NeedsSnapshot,
}

impl BookError {
    /// The human-readable message for this error.
    pub fn message(&self) -> (s: String)
        ensures
            s@ == match self {
                BookError::InvalidLevelQty(qty) => "level quantity cannot be negative: "@ + signed_decimal(*qty as int),
                BookError::InvalidSequenceRange { first, last } => "invalid sequence range: "@ + decimal(*first as nat)
                    + "..="@ + decimal(*last as nat),
                BookError::SequenceGap { expected, received } => "sequence gap: expected "@ + decimal(*expected as nat)
                    + ", received "@ + decimal(*received as nat),
                BookError::CrossedBook { best_bid, best_ask } => "crossed book: best bid "@ + signed_decimal(
                    *best_bid as int,
                ) + ", best ask "@ + signed_decimal(*best_ask as int),
                BookError::NeedsSnapshot => "book needs a fresh snapshot"@,
            },
    {
        match self {
            BookError::InvalidLevelQty(qty) => {
                let mut s = "level quantity cannot be negative: ".to_owned();
                push_signed_decimal(&mut s, *qty as i128);
                s
            },
            BookError::InvalidSequenceRange { first, last } => {
                let mut s = "invalid sequence range: ".to_owned();
                push_decimal(&mut s, *first as u128);
                push_text(&mut s, "..=");
                push_decimal(&mut s, *last as u128);
                s
            },
            BookError::SequenceGap { expected, received } => {
                let mut s = "sequence gap: expected ".to_owned();
                push_decimal(&mut s, *expected as u128);
                push_text(&mut s, ", received ");
                push_decimal(&mut s, *received as u128);
                s
            },
            BookError::CrossedBook { best_bid, best_ask } => {
                let mut s = "crossed book: best bid ".to_owned();
                push_signed_decimal(&mut s, *best_bid as i128);
                push_text(&mut s, ", best ask ");
                push_signed_decimal(&mut s, *best_ask as i128);
                s
            },
            BookError::NeedsSnapshot => "book needs a fresh snapshot".to_owned(),
        }
    }
}

/// A level as (price, quantity).
pub open spec fn level_view(l: Level) -> (int, int) {
    (l.0@, l.1 as int)
}

/// A list of levels as (price, quantity) pairs.
pub open spec fn levels_view(levels: Seq<Level>) -> Seq<(int, int)> {
    levels.map_values(|l: Level| level_view(l))
}

/// One side of a book: prices strictly ascending and positive, quantities
/// positive.
pub open spec fn side_wf(s: Seq<(int, int)>) -> bool {
    &&& forall|i: int, j: int| 0 <= i < j < s.len() ==> s[i].0 < s[j].0
    &&& forall|i: int| 0 <= i < s.len() ==> s[i].0 > 0 && s[i].1 > 0
}

/// The number of leading levels priced below `price`: where a level at
/// `price` stands or goes.
pub open spec fn lower_index(s: Seq<(int, int)>, price: int) -> int
    decreases s.len(),
{
    if s.len() == 0 {
        0
    } else if s[0].0 < price {
        1 + lower_index(s.drop_first(), price)
    } else {
        0
    }
}

/// One side after setting the level at `price` to `qty`: zero removes the
/// level, a positive quantity replaces or inserts it.
pub open spec fn set_level(s: Seq<(int, int)>, price: int, qty: int) -> Seq<(int, int)> {
    let i = lower_index(s, price);
    if i < s.len() && s[i].0 == price {
        if qty == 0 {
            s.remove(i)
        } else {
            s.update(i, (price, qty))
        }
    } else if qty == 0 {
        s
    } else {
        s.insert(i, (price, qty))
    }
}

/// One side after applying `levels` in order, or the first negative
/// quantity's error.
pub open spec fn apply_levels_spec(s: Seq<(int, int)>, levels: Seq<(int, int)>) -> Result<Seq<(int, int)>, BookError>
    decreases levels.len(),
{
    if levels.len() == 0 {
        Ok(s)
    } else if levels[0].1 < 0 {
        Err(BookError::InvalidLevelQty(levels[0].1 as i64))
    } else {
        apply_levels_spec(set_level(s, levels[0].0, levels[0].1), levels.drop_first())
    }
}

/// Refuses a book whose best bid is at or above its best ask.
pub open spec fn spread_check(bids: Seq<(int, int)>, asks: Seq<(int, int)>) -> Result<(), BookError> {
    if bids.len() > 0 && asks.len() > 0 && bids.last().0 >= asks[0].0 {
        Err(BookError::CrossedBook { best_bid: bids.last().0 as i64, best_ask: asks[0].0 as i64 })
    } else {
        Ok(())
    }
}

/// The position of `price` in a well-formed side: every level before it is
/// cheaper, every level from it on is at least as expensive.
proof fn lemma_lower_index(s: Seq<(int, int)>, price: int)
    ensures
        0 <= lower_index(s, price) <= s.len(),
        forall|j: int| 0 <= j < lower_index(s, price) ==> #[trigger] s[j].0 < price,
        lower_index(s, price) < s.len() ==> s[lower_index(s, price)].0 >= price,
    decreases s.len(),
{
    if s.len() > 0 && s[0].0 < price {
        let rest = s.drop_first();
        lemma_lower_index(rest, price);
        assert forall|j: int| 0 <= j < lower_index(s, price) implies #[trigger] s[j].0 < price by {
            if j > 0 {
                assert(s[j] == rest[j - 1]);
            }
        }
    }
}

/// Setting a level keeps a side well formed.
proof fn lemma_set_level_wf(s: Seq<(int, int)>, price: int, qty: int)
    requires
        side_wf(s),
        price > 0,
        qty >= 0,
    ensures
        side_wf(set_level(s, price, qty)),
{
    lemma_lower_index(s, price);
    let i = lower_index(s, price);
    let r = set_level(s, price, qty);
    if i < s.len() && s[i].0 == price {
        if qty == 0 {
            assert forall|a: int, b: int| 0 <= a < b < r.len() implies r[a].0 < r[b].0 by {
                let a0 = if a < i { a } else { a + 1 };
                let b0 = if b < i { b } else { b + 1 };
                assert(r[a] == s[a0]);
                assert(r[b] == s[b0]);
            }
            assert forall|a: int| 0 <= a < r.len() implies r[a].0 > 0 && r[a].1 > 0 by {
                let a0 = if a < i { a } else { a + 1 };
                assert(r[a] == s[a0]);
            }
        }
    } else if qty > 0 {
        assert forall|a: int, b: int| 0 <= a < b < r.len() implies r[a].0 < r[b].0 by {
            if a < i && b > i {
                assert(r[b] == s[b - 1]);
                assert(s[i].0 >= price);
                if b - 1 > i {
                    assert(s[i].0 < s[b - 1].0);
                }
            } else if a == i && b > i {
                assert(r[b] == s[b - 1]);
                assert(s[i].0 >= price);
                if b - 1 > i {
                    assert(s[i].0 < s[b - 1].0);
                }
            } else if a > i {
                assert(r[a] == s[a - 1]);
                assert(r[b] == s[b - 1]);
            }
        }
        assert forall|a: int| 0 <= a < r.len() implies r[a].0 > 0 && r[a].1 > 0 by {
            if a > i {
                assert(r[a] == s[a - 1]);
            }
        }
    }
}

/// Applying a level works like a map from price to quantity: a positive
/// quantity leaves exactly one level at that price, holding that quantity,
/// whether or not the price was there before (the last write wins); zero
/// removes the price; every other price keeps exactly the levels it had.
pub proof fn law_set_level_last_write_wins(s: Seq<(int, int)>, price: int, qty: int)
    requires
        side_wf(s),
        price > 0,
        qty >= 0,
    ensures
        side_wf(set_level(s, price, qty)),
        qty > 0 ==> set_level(s, price, qty).contains((price, qty)),
        forall|q: int| #[trigger] set_level(s, price, qty).contains((price, q)) ==> q == qty && qty > 0,
        forall|p: int, q: int|
            p != price ==> (#[trigger] set_level(s, price, qty).contains((p, q)) <==> s.contains((p, q))),
{
    lemma_set_level_wf(s, price, qty);
    lemma_lower_index(s, price);
    let i = lower_index(s, price);
    let r = set_level(s, price, qty);
    let found = i < s.len() && s[i].0 == price;
    // where each element of r comes from
    assert forall|a: int| 0 <= a < r.len() implies (#[trigger] r[a]).0 == price && r[a].1 == qty || s.contains(r[a])
        && r[a].0 != price by {
        if found {
            if qty == 0 {
                let a0 = if a < i { a } else { a + 1 };
                assert(r[a] == s[a0]);
                if a0 != i {
                    if a0 < i {
                        assert(s[a0].0 < price);
                    } else {
                        assert(s[i].0 < s[a0].0);
                    }
                }
            } else if a != i {
                assert(r[a] == s[a]);
                if a < i {
                    assert(s[a].0 < price);
                } else {
                    assert(s[i].0 < s[a].0);
                }
            }
        } else if qty > 0 {
            if a < i {
                assert(r[a] == s[a]);
            } else if a > i {
                assert(r[a] == s[a - 1]);
                assert(s[a - 1].0 >= price);
                if a - 1 > i {
                    assert(s[i].0 < s[a - 1].0);
                }
            }
        } else {
            if i < s.len() {
                assert(s[i].0 > price);
            }
            if a >= i && a > i {
                assert(s[i].0 < s[a].0);
            }
        }
    }
    if qty > 0 {
        if found {
            assert(r[i] == (price, qty));
        } else {
            assert(r[i] == (price, qty));
        }
    }
    assert forall|q: int| #[trigger] r.contains((price, q)) implies q == qty && qty > 0 by {
        let a = choose|a: int| 0 <= a < r.len() && r[a] == (price, q);
        assert(r[a].0 == price);
    }
    assert forall|p: int, q: int| p != price implies (#[trigger] r.contains((p, q)) <==> s.contains((p, q))) by {
        if r.contains((p, q)) {
            let a = choose|a: int| 0 <= a < r.len() && r[a] == (p, q);
            assert(r[a].0 == p);
        }
        if s.contains((p, q)) {
            let b = choose|b: int| 0 <= b < s.len() && s[b] == (p, q);
            if found {
                assert(b != i);
                if qty == 0 {
                    if b < i {
                        assert(r[b] == s[b]);
                    } else {
                        assert(r[b - 1] == s[b]);
                    }
                } else {
                    assert(r[b] == s[b]);
                }
            } else if qty > 0 {
                if b < i {
                    assert(r[b] == s[b]);
                } else {
                    assert(r[b + 1] == s[b]);
                }
            }
        }
    }
}

/// The quantity the last level at `price` in `levels` sets, if any.
pub open spec fn last_write(levels: Seq<(int, int)>, price: int) -> Option<int>
    decreases levels.len(),
{
    if levels.len() == 0 {
        None
    } else {
        match last_write(levels.drop_first(), price) {
            Some(q) => Some(q),
            None => if levels[0].0 == price {
                Some(levels[0].1)
            } else {
                None
            },
        }
    }
}

/// Applying a list of levels with no negative quantity works like writing
/// them into a map in order: each price ends with the quantity its last
/// level sets (removed when that is zero), and prices the list does not name
/// keep the levels they had. A negative quantity refuses the list with the
/// first negative quantity.
pub proof fn law_apply_levels_as_map(s: Seq<(int, int)>, levels: Seq<(int, int)>)
    requires
        side_wf(s),
        forall|i: int| 0 <= i < levels.len() ==> (#[trigger] levels[i]).0 > 0,
    ensures
        (forall|i: int| 0 <= i < levels.len() ==> (#[trigger] levels[i]).1 >= 0) ==> {
            &&& apply_levels_spec(s, levels) is Ok
            &&& side_wf(apply_levels_spec(s, levels)->Ok_0)
            &&& forall|p: int, q: int| #[trigger] apply_levels_spec(s, levels)->Ok_0.contains((p, q)) <==> match last_write(
                levels,
                p,
            ) {
                Some(w) => w > 0 && q == w,
                None => s.contains((p, q)),
            }
        },
        forall|j: int|
            0 <= j < levels.len() && (#[trigger] levels[j]).1 < 0 && (forall|i: int|
                0 <= i < j ==> (#[trigger] levels[i]).1 >= 0) ==> apply_levels_spec(s, levels) == Err::<
                Seq<(int, int)>,
                BookError,
            >(BookError::InvalidLevelQty(levels[j].1 as i64)),
    decreases levels.len(),
{
    if levels.len() > 0 {
        let rest = levels.drop_first();
        assert forall|i: int| 0 <= i < rest.len() implies (#[trigger] rest[i]).0 > 0 by {
            assert(rest[i] == levels[i + 1]);
        }
        if levels[0].1 >= 0 {
            law_set_level_last_write_wins(s, levels[0].0, levels[0].1);
            let s1 = set_level(s, levels[0].0, levels[0].1);
            law_apply_levels_as_map(s1, rest);
            if forall|i: int| 0 <= i < levels.len() ==> (#[trigger] levels[i]).1 >= 0 {
                assert forall|i: int| 0 <= i < rest.len() implies (#[trigger] rest[i]).1 >= 0 by {
                    assert(rest[i] == levels[i + 1]);
                }
                let r = apply_levels_spec(s, levels)->Ok_0;
                assert forall|p: int, q: int| #[trigger] r.contains((p, q)) <==> match last_write(levels, p) {
                    Some(w) => w > 0 && q == w,
                    None => s.contains((p, q)),
                } by {
                    if p == levels[0].0 {
                        if last_write(rest, p) is None {
                            if s1.contains((p, q)) {
                            }
                        }
                    }
                }
            }
            assert forall|j: int|
                0 <= j < levels.len() && (#[trigger] levels[j]).1 < 0 && (forall|i: int|
                    0 <= i < j ==> (#[trigger] levels[i]).1 >= 0) implies apply_levels_spec(s, levels) == Err::<
                Seq<(int, int)>,
                BookError,
            >(BookError::InvalidLevelQty(levels[j].1 as i64)) by {
                assert(j > 0);
                assert(rest[j - 1] == levels[j]);
                assert forall|i: int| 0 <= i < j - 1 implies (#[trigger] rest[i]).1 >= 0 by {
                    assert(rest[i] == levels[i + 1]);
                }
            }
        } else {
            assert forall|j: int|
                0 <= j < levels.len() && (#[trigger] levels[j]).1 < 0 && (forall|i: int|
                    0 <= i < j ==> (#[trigger] levels[i]).1 >= 0) implies apply_levels_spec(s, levels) == Err::<
                Seq<(int, int)>,
                BookError,
            >(BookError::InvalidLevelQty(levels[j].1 as i64)) by {
                if j > 0 {
                    assert(levels[0].1 >= 0);
                }
            }
        }
    }
}

/// Sets one level in a well-formed side held as a vector.
fn set_level_exec(book: &mut Vec<Level>, price: PriceTicks, qty: i64)
    requires
        side_wf(levels_view(old(book)@)),
        qty >= 0,
    ensures
        levels_view(final(book)@) == set_level(levels_view(old(book)@), price@, qty as int),
{
    let ghost s = levels_view(book@);
    proof {
        lemma_lower_index(s, price@);
    }
    let p = price.get();
    let mut i: usize = 0;
    while i < book.len()
        invariant
            0 <= i <= book.len(),
            s == levels_view(book@),
            s.len() == book.len(),
            forall|j: int| 0 <= j < i ==> #[trigger] s[j].0 < p,
        ensures
            0 <= i <= book.len(),
            s == levels_view(book@),
            forall|j: int| 0 <= j < i ==> #[trigger] s[j].0 < p,
            i < book.len() ==> s[i as int].0 >= p,
        decreases book.len() - i,
    {
        if book[i].0.get() >= p {
            break;
        }
        i = i + 1;
    }
    proof {
        lemma_lower_index(s, price@);
        let k = lower_index(s, price@);
        if k < i {
            assert(s[k].0 >= price@);
        } else if k > i {
            assert(s[i as int].0 < price@);
        }
        assert(k == i);
    }
    if i < book.len() && book[i].0.get() == p {
        if qty == 0 {
            let _ = book.remove(i);
            proof {
                assert(levels_view(book@) =~= s.remove(i as int));
            }
        } else {
            book.set(i, (price, qty));
            proof {
                assert(levels_view(book@) =~= s.update(i as int, (price@, qty as int)));
            }
        }
    } else if qty != 0 {
        book.insert(i, (price, qty));
        proof {
            assert(levels_view(book@) =~= s.insert(i as int, (price@, qty as int)));
        }
    }
}

/// Applies levels in order to a copy of one side; refuses the first
/// negative quantity.
fn apply_levels(side: Vec<Level>, levels: &Vec<Level>) -> (result: Result<Vec<Level>, BookError>)
    requires
        side_wf(levels_view(side@)),
    ensures
        match (result, apply_levels_spec(levels_view(side@), levels_view(levels@))) {
            (Ok(r), Ok(expected)) => levels_view(r@) == expected,
            (Err(e), Err(expected)) => e == expected,
            _ => false,
        },
        result matches Ok(r) ==> side_wf(levels_view(r@)),
{
    let ghost lv = levels_view(levels@);
    let ghost s0 = levels_view(side@);
    let mut book = side;
    let mut i: usize = 0;
    proof {
        assert(lv.skip(0) =~= lv);
    }
    while i < levels.len()
        invariant
            0 <= i <= levels.len(),
            lv == levels_view(levels@),
            s0 == levels_view(side@),
            side_wf(levels_view(book@)),
            apply_levels_spec(s0, lv) == apply_levels_spec(levels_view(book@), lv.skip(i as int)),
        decreases levels.len() - i,
    {
        let (price, qty) = levels[i];
        proof {
            assert(lv.skip(i as int)[0] == (price@, qty as int));
            assert(lv.skip(i as int).drop_first() =~= lv.skip(i + 1));
            use_type_invariant(&price);
        }
        if qty < 0 {
            proof {
                let rest = lv.skip(i as int);
                assert(rest.len() > 0);
                assert(rest[0].1 == qty as int);
                assert(apply_levels_spec(levels_view(book@), rest) == Err::<Seq<(int, int)>, BookError>(
                    BookError::InvalidLevelQty(qty),
                ));
            }
            return Err(BookError::InvalidLevelQty(qty));
        }
        proof {
            lemma_set_level_wf(levels_view(book@), price@, qty as int);
        }
        set_level_exec(&mut book, price, qty);
        i = i + 1;
    }
    proof {
        assert(lv.skip(i as int).len() == 0);
    }
    Ok(book)
}

/// Checks that the best bid is below the best ask.
fn validate_spread(bids: &Vec<Level>, asks: &Vec<Level>) -> (result: Result<(), BookError>)
    ensures
        result == spread_check(levels_view(bids@), levels_view(asks@)),
{
    if bids.len() > 0 && asks.len() > 0 {
        let bid = bids[bids.len() - 1].0.get();
        let ask = asks[0].0.get();
        if bid >= ask {
            return Err(BookError::CrossedBook { best_bid: bid, best_ask: ask });
        }
    }
    Ok(())
}

/// A copy of a list of levels.
fn copy_levels(levels: &Vec<Level>) -> (r: Vec<Level>)
    ensures
        r@ == levels@,
{
    let mut r: Vec<Level> = Vec::new();
    let mut i: usize = 0;
    while i < levels.len()
        invariant
            0 <= i <= levels.len(),
            r@ == levels@.take(i as int),
        decreases levels.len() - i,
    {
        r.push(levels[i]);
        i = i + 1;
        proof {
            assert(r@ =~= levels@.take(i as int));
        }
    }
    proof {
        assert(levels@.take(i as int) =~= levels@);
    }
    r
}

/// The mathematical content of a book.
pub struct BookView {
    pub bids: Seq<(int, int)>,
    pub asks: Seq<(int, int)>,
    pub last_sequence: Option<u64>,
    pub valid: bool,
}

/// What every book keeps: well-formed sides, and while valid, a known
/// sequence number and an uncrossed spread.
pub open spec fn book_inv(v: BookView) -> bool {
    &&& side_wf(v.bids)
    &&& side_wf(v.asks)
    &&& v.valid ==> v.last_sequence is Some && spread_check(v.bids, v.asks) is Ok
}

/// The book marked unusable, everything else kept.
pub open spec fn invalidated(v: BookView) -> BookView {
    BookView { valid: false, ..v }
}

/// What applying a snapshot does: rebuild both sides from scratch; on any
/// refusal the book is marked invalid and otherwise kept.
pub open spec fn snapshot_spec(v: BookView, sequence: u64, bids: Seq<(int, int)>, asks: Seq<(int, int)>) -> (
    Result<(), BookError>,
    BookView,
) {
    match apply_levels_spec(Seq::empty(), bids) {
        Err(e) => (Err(e), invalidated(v)),
        Ok(b) => match apply_levels_spec(Seq::empty(), asks) {
            Err(e) => (Err(e), invalidated(v)),
            Ok(a) => match spread_check(b, a) {
                Err(e) => (Err(e), invalidated(v)),
                Ok(_) => (Ok(()), BookView { bids: b, asks: a, last_sequence: Some(sequence), valid: true }),
            },
        },
    }
}

/// The sequence number a delta must cover next.
pub open spec fn next_expected(last: u64) -> u64 {
    if last == u64::MAX {
        u64::MAX
    } else {
        (last + 1) as u64
    }
}

/// What applying a delta does: without a valid snapshot it is refused and
/// nothing changes; a reversed range or a gap invalidates the book; a delta
/// covering the next expected sequence number updates both sides and moves
/// the sequence to the delta's last.
pub open spec fn delta_spec(v: BookView, first: u64, last: u64, bids: Seq<(int, int)>, asks: Seq<(int, int)>) -> (
    Result<(), BookError>,
    BookView,
) {
    if v.last_sequence is None || !v.valid {
        (Err(BookError::NeedsSnapshot), v)
    } else if first > last {
        (Err(BookError::InvalidSequenceRange { first, last }), invalidated(v))
    } else {
        let expected = next_expected(v.last_sequence->Some_0);
        if !(first <= expected && expected <= last) {
            (Err(BookError::SequenceGap { expected, received: first }), invalidated(v))
        } else {
            match apply_levels_spec(v.bids, bids) {
                Err(e) => (Err(e), invalidated(v)),
                Ok(b) => match apply_levels_spec(v.asks, asks) {
                    Err(e) => (Err(e), invalidated(v)),
                    Ok(a) => match spread_check(b, a) {
                        Err(e) => (Err(e), invalidated(v)),
                        Ok(_) => (Ok(()), BookView { bids: b, asks: a, last_sequence: Some(last), valid: v.valid }),
                    },
                },
            }
        }
    }
}

/// A valid book is never crossed: its best bid is below its best ask.
pub proof fn law_valid_book_not_crossed(v: BookView)
    requires
        book_inv(v),
        v.valid,
        v.bids.len() > 0,
        v.asks.len() > 0,
    ensures
        v.bids.last().0 < v.asks[0].0,
{
}

/// Once a book is invalid (after a gap, a crossed or a negative level), every
/// delta is refused with `NeedsSnapshot` and changes nothing: only a valid
/// snapshot restores it.
pub proof fn law_invalid_book_refuses_deltas(
    v: BookView,
    first: u64,
    last: u64,
    bids: Seq<(int, int)>,
    asks: Seq<(int, int)>,
)
    requires
        !v.valid,
    ensures
        delta_spec(v, first, last, bids, asks) == (Err::<(), BookError>(BookError::NeedsSnapshot), v),
{
}

/// A delta that skips the next expected sequence number invalidates the book
/// and reports the gap.
pub proof fn law_gap_invalidates(v: BookView, first: u64, last: u64, bids: Seq<(int, int)>, asks: Seq<(int, int)>)
    requires
        v.valid,
        v.last_sequence is Some,
        first <= last,
        !(first <= next_expected(v.last_sequence->Some_0) <= last),
    ensures
        delta_spec(v, first, last, bids, asks) == (
            Err::<(), BookError>(
                BookError::SequenceGap { expected: next_expected(v.last_sequence->Some_0), received: first },
            ),
            invalidated(v),
        ),
{
}

/// On a valid book at sequence `s` (below the largest sequence number), a
/// delta must cover `s + 1`: one starting after it or ending before it is a
/// gap that expects `s + 1` and invalidates the book; one covering it with no
/// negative quantity and no crossing is applied, keeps the book valid, moves
/// the sequence to the delta's last, and writes its levels into both sides
/// as into a map.
pub proof fn law_delta_covers_next_sequence(
    v: BookView,
    s: u64,
    first: u64,
    last: u64,
    bids: Seq<(int, int)>,
    asks: Seq<(int, int)>,
)
    requires
        book_inv(v),
        v.valid,
        v.last_sequence == Some(s),
        s < u64::MAX,
        first <= last,
    ensures
        (first > s + 1 || last < s + 1) ==> delta_spec(v, first, last, bids, asks) == (
            Err::<(), BookError>(BookError::SequenceGap { expected: (s + 1) as u64, received: first }),
            invalidated(v),
        ),
        (first <= s + 1 <= last) && delta_spec(v, first, last, bids, asks).0 is Ok ==> {
            let after = delta_spec(v, first, last, bids, asks).1;
            &&& after.valid
            &&& after.last_sequence == Some(last)
            &&& apply_levels_spec(v.bids, bids) == Ok::<Seq<(int, int)>, BookError>(after.bids)
            &&& apply_levels_spec(v.asks, asks) == Ok::<Seq<(int, int)>, BookError>(after.asks)
            &&& (after.bids.len() > 0 && after.asks.len() > 0 ==> after.bids.last().0 < after.asks[0].0)
        },
{
}

/// A snapshot with positive prices and no negative quantity rebuilds both
/// sides from scratch by writing its levels into empty maps; it is refused as
/// crossed, with the best bid and ask, exactly when the highest bid is at or
/// above the lowest ask, and then leaves the book invalid; otherwise the book
/// becomes valid at the snapshot's sequence.
pub proof fn law_snapshot_rebuilds(v: BookView, sequence: u64, bids: Seq<(int, int)>, asks: Seq<(int, int)>)
    requires
        forall|i: int| 0 <= i < bids.len() ==> (#[trigger] bids[i]).0 > 0 && bids[i].1 >= 0,
        forall|i: int| 0 <= i < asks.len() ==> (#[trigger] asks[i]).0 > 0 && asks[i].1 >= 0,
    ensures
        ({
            let b = apply_levels_spec(Seq::empty(), bids)->Ok_0;
            let a = apply_levels_spec(Seq::empty(), asks)->Ok_0;
            let crossed = b.len() > 0 && a.len() > 0 && b.last().0 >= a[0].0;
            &&& apply_levels_spec(Seq::empty(), bids) is Ok
            &&& apply_levels_spec(Seq::empty(), asks) is Ok
            &&& !crossed ==> snapshot_spec(v, sequence, bids, asks) == (
                Ok::<(), BookError>(()),
                BookView { bids: b, asks: a, last_sequence: Some(sequence), valid: true },
            )
            &&& crossed ==> snapshot_spec(v, sequence, bids, asks) == (
                Err::<(), BookError>(BookError::CrossedBook { best_bid: b.last().0 as i64, best_ask: a[0].0 as i64 }),
                invalidated(v),
            )
        }),
{
    assert(side_wf(Seq::<(int, int)>::empty()));
    law_apply_levels_as_map(Seq::empty(), bids);
    law_apply_levels_as_map(Seq::empty(), asks);
}

/// No delta turns an invalid book valid.
pub proof fn law_delta_never_restores_validity(
    v: BookView,
    first: u64,
    last: u64,
    bids: Seq<(int, int)>,
    asks: Seq<(int, int)>,
)
    ensures
        delta_spec(v, first, last, bids, asks).1.valid ==> v.valid,
{
}

/// A price-level book for one instrument.
#[derive(Debug)]
pub struct OrderBook {
    bids: Vec<Level>,
    asks: Vec<Level>,
    last_sequence: Option<u64>,
    valid: bool,
}

impl View for OrderBook {
    type V = BookView;

    closed spec fn view(&self) -> BookView {
        BookView {
            bids: levels_view(self.bids@),
            asks: levels_view(self.asks@),
            last_sequence: self.last_sequence,
            valid: self.valid,
        }
    }
}

/// A copy of a book holds the same levels, sequence and validity.
impl Clone for OrderBook {
    fn clone(&self) -> (book: Self)
        ensures
            book@ == self@,
    {
        proof {
            use_type_invariant(self);
        }
        OrderBook {
            bids: copy_levels(&self.bids),
            asks: copy_levels(&self.asks),
            last_sequence: self.last_sequence,
            valid: self.valid,
        }
    }
}

impl Default for OrderBook {
    /// An empty book that has seen no snapshot and is not valid.
    fn default() -> (book: Self)
        ensures
            book@.bids.len() == 0,
            book@.asks.len() == 0,
            book@.last_sequence is None,
            !book@.valid,
    {
        let book = OrderBook { bids: Vec::new(), asks: Vec::new(), last_sequence: None, valid: false };
        proof {
            assert(levels_view(book.bids@) =~= Seq::empty());
            assert(levels_view(book.asks@) =~= Seq::empty());
        }
        book
    }
}

impl OrderBook {
    /// Every book satisfies the book invariant.
    #[verifier::type_invariant]
    spec fn well_formed(self) -> bool {
        book_inv(self@)
    }

    /// The invariant, for callers.
    pub fn lemma_inv(&self)
        ensures
            book_inv(self@),
    {
        proof {
            use_type_invariant(self);
        }
    }

    /// Replaces the book with a full snapshot; on refusal the book becomes
    /// invalid.
    pub fn apply_snapshot(&mut self, snapshot: Snapshot) -> (result: Result<(), BookError>)
        ensures
            (result, final(self)@) == snapshot_spec(
                old(self)@,
                snapshot.sequence,
                levels_view(snapshot.bids@),
                levels_view(snapshot.asks@),
            ),
    {
        proof {
            use_type_invariant(&*self);
        }
        let empty_bids: Vec<Level> = Vec::new();
        let empty_asks: Vec<Level> = Vec::new();
        proof {
            assert(levels_view(empty_bids@) =~= Seq::empty());
            assert(levels_view(empty_asks@) =~= Seq::empty());
        }
        let bids = match apply_levels(empty_bids, &snapshot.bids) {
            Ok(b) => b,
            Err(e) => {
                self.valid = false;
                return Err(e);
            },
        };
        let asks = match apply_levels(empty_asks, &snapshot.asks) {
            Ok(a) => a,
            Err(e) => {
                self.valid = false;
                return Err(e);
            },
        };
        match validate_spread(&bids, &asks) {
            Ok(()) => {},
            Err(e) => {
                self.valid = false;
                return Err(e);
            },
        }
        self.valid = false;
        self.bids = bids;
        self.asks = asks;
        self.last_sequence = Some(snapshot.sequence);
        self.valid = true;
        Ok(())
    }

    /// Applies a delta that continues the sequence; refuses it when no valid
    /// snapshot is in place, and invalidates the book on a reversed range, a
    /// gap, a negative level or a crossed result.
    pub fn apply_delta(&mut self, delta: Delta) -> (result: Result<(), BookError>)
        ensures
            (result, final(self)@) == delta_spec(
                old(self)@,
                delta.first_sequence,
                delta.last_sequence,
                levels_view(delta.bids@),
                levels_view(delta.asks@),
            ),
    {
        proof {
            use_type_invariant(&*self);
        }
        let last_sequence = match self.last_sequence {
            Some(s) => s,
            None => return Err(BookError::NeedsSnapshot),
        };
        if !self.valid {
            return Err(BookError::NeedsSnapshot);
        }
        if delta.first_sequence > delta.last_sequence {
            self.valid = false;
            return Err(BookError::InvalidSequenceRange { first: delta.first_sequence, last: delta.last_sequence });
        }
        let expected = last_sequence.saturating_add(1);
        if !(delta.first_sequence <= expected && expected <= delta.last_sequence) {
            self.valid = false;
            return Err(BookError::SequenceGap { expected, received: delta.first_sequence });
        }
        let bids = match apply_levels(copy_levels(&self.bids), &delta.bids) {
            Ok(b) => b,
            Err(e) => {
                self.valid = false;
                return Err(e);
            },
        };
        let asks = match apply_levels(copy_levels(&self.asks), &delta.asks) {
            Ok(a) => a,
            Err(e) => {
                self.valid = false;
                return Err(e);
            },
        };
        match validate_spread(&bids, &asks) {
            Ok(()) => {},
            Err(e) => {
                self.valid = false;
                return Err(e);
            },
        }
        self.valid = false;
        self.bids = bids;
        self.asks = asks;
        self.last_sequence = Some(delta.last_sequence);
        self.valid = true;
        Ok(())
    }

    /// The highest bid level, while the book is valid.
    pub fn best_bid(&self) -> (r: Option<Level>)
        ensures
            r is Some <==> self@.valid && self@.bids.len() > 0,
            r matches Some(l) ==> level_view(l) == self@.bids.last(),
            r matches Some(l) ==> self@.bids.contains(level_view(l)) && forall|i: int|
                0 <= i < self@.bids.len() ==> (#[trigger] self@.bids[i]).0 <= level_view(l).0,
    {
        proof {
            use_type_invariant(self);
        }
        if self.valid && self.bids.len() > 0 {
            proof {
                let b = self@.bids;
                assert(b.contains(b[b.len() - 1]));
                assert forall|i: int| 0 <= i < b.len() implies (#[trigger] b[i]).0 <= b[b.len() - 1].0 by {
                    if i < b.len() - 1 {
                        assert(b[i].0 < b[b.len() - 1].0);
                    }
                }
            }
            Some(self.bids[self.bids.len() - 1])
        } else {
            None
        }
    }

    /// The lowest ask level, while the book is valid.
    pub fn best_ask(&self) -> (r: Option<Level>)
        ensures
            r is Some <==> self@.valid && self@.asks.len() > 0,
            r matches Some(l) ==> level_view(l) == self@.asks[0],
            r matches Some(l) ==> self@.asks.contains(level_view(l)) && forall|i: int|
                0 <= i < self@.asks.len() ==> level_view(l).0 <= (#[trigger] self@.asks[i]).0,
    {
        proof {
            use_type_invariant(self);
        }
        if self.valid && self.asks.len() > 0 {
            proof {
                let a = self@.asks;
                assert(a.contains(a[0]));
                assert forall|i: int| 0 <= i < a.len() implies a[0].0 <= (#[trigger] a[i]).0 by {
                    if i > 0 {
                        assert(a[0].0 < a[i].0);
                    }
                }
            }
            Some(self.asks[0])
        } else {
            None
        }
    }

    /// Reports that the latest snapshot/delta chain passed structural checks.
    pub fn is_structurally_valid(&self) -> (r: bool)
        ensures
            r == self@.valid,
    {
        self.valid
    }

    /// Reports whether both sides have a usable top level for trading.
    /// Freshness is a separate, timestamp-based decision owned by the caller.
    pub fn is_tradable(&self) -> (r: bool)
        ensures
            r == (self@.valid && self@.bids.len() > 0 && self@.asks.len() > 0),
    {
        self.valid && self.best_bid().is_some() && self.best_ask().is_some()
    }

    /// Backwards-compatible alias for structural validity.
    pub fn is_valid(&self) -> (r: bool)
        ensures
            r == self@.valid,
    {
        self.is_structurally_valid()
    }

    pub fn last_sequence(&self) -> (r: Option<u64>)
        ensures
            r == self@.last_sequence,
    {
        self.last_sequence
    }
}

} // verus!
