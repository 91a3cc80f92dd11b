//! Order book model.
//!
//! The authoritative two-sided price-level map for one instrument. Each
//! side is a vector of `(price, size)` pairs kept strictly sorted — asks
//! ascending, bids descending — with unique prices and no zero sizes, so
//! the best level of a side is its first element and every query is O(1).

use vstd::prelude::*;

use crate::wire::{parse_book, spec_parse_book, SpecBookWire, WireError};

verus! {

/// Ask levels are strictly ascending by price: the best (lowest) ask first.
pub open spec fn sorted_strict_asc(s: Seq<(u64, u64)>) -> bool {
    forall|i: int, j: int| 0 <= i < j < s.len() ==> s[i].0 < s[j].0
}

/// Bid levels are strictly descending by price: the best (highest) bid first.
pub open spec fn sorted_strict_desc(s: Seq<(u64, u64)>) -> bool {
    forall|i: int, j: int| 0 <= i < j < s.len() ==> s[i].0 > s[j].0
}

/// No retained level has size zero.
pub open spec fn positive_sizes(s: Seq<(u64, u64)>) -> bool {
    forall|i: int| 0 <= i < s.len() ==> s[i].1 > 0
}

/// The mapping a wire level list denotes: levels are applied left to right,
/// a size of zero is a removal signal and is never retained, a later entry
/// for the same price wins.
pub open spec fn side_map(levels: Seq<(u64, u64)>) -> Map<u64, u64>
    decreases levels.len(),
{
    if levels.len() == 0 {
        Map::empty()
    } else {
        let m = side_map(levels.drop_last());
        if levels.last().1 > 0 {
            m.insert(levels.last().0, levels.last().1)
        } else {
            m
        }
    }
}

/// The level vector `s` holds exactly the pairs of `m`.
pub open spec fn side_matches(s: Seq<(u64, u64)>, m: Map<u64, u64>) -> bool {
    &&& forall|i: int| 0 <= i < s.len() ==> m.contains_pair(s[i].0, s[i].1)
    &&& forall|k: u64| m.contains_key(k) ==> exists|i: int| 0 <= i < s.len() && s[i].0 == k
}

/// A zero-size level is never retained: no price a side denotes maps to a
/// zero size.
pub proof fn lemma_zero_size_never_retained(levels: Seq<(u64, u64)>, p: u64)
    ensures
        side_map(levels).contains_key(p) ==> side_map(levels)[p] > 0,
    decreases levels.len(),
{
    if levels.len() > 0 {
        lemma_zero_size_never_retained(levels.drop_last(), p);
    }
}

/// Characters of an ASCII byte string, one character per byte.
pub open spec fn ascii_chars(bytes: Seq<u8>) -> Seq<char> {
    Seq::new(bytes.len(), |i: int| bytes[i] as char)
}

/// Relies on String::from_utf8: ASCII bytes are valid UTF-8 and decode to
/// one character per byte, unchanged.
#[verifier::external_body]
fn string_from_ascii(bytes: Vec<u8>) -> (r: String)
    requires
        forall|i: int| 0 <= i < bytes@.len() ==> bytes@[i] < 128,
    ensures
        r@ == ascii_chars(bytes@),
{
    String::from_utf8(bytes).unwrap_or_default()
}

/// Full depth for one (market, asset) pair at one instant.
#[derive(Debug)]
pub struct Orderbook {
    pub market: String,
    pub asset_id: String,
    pub timestamp: u64,
    /// Ascending by price; best ask first.
    pub asks: Vec<(u64, u64)>,
    /// Descending by price; best bid first.
    pub bids: Vec<(u64, u64)>,
}

impl Orderbook {
    /// Internal consistency: both sides strictly sorted the right way
    /// around, no zero sizes.
    pub open spec fn wf(self) -> bool {
        &&& sorted_strict_asc(self.asks@)
        &&& positive_sizes(self.asks@)
        &&& sorted_strict_desc(self.bids@)
        &&& positive_sizes(self.bids@)
    }
}

impl Default for Orderbook {
    /// The empty book: no levels, empty identifiers, timestamp zero.
    fn default() -> (r: Self)
        ensures
            r.wf(),
            r.market@ == Seq::<char>::empty(),
            r.asset_id@ == Seq::<char>::empty(),
            r.timestamp == 0,
            r.asks@ == Seq::<(u64, u64)>::empty(),
            r.bids@ == Seq::<(u64, u64)>::empty(),
    {
        let r = Orderbook {
            market: String::new(),
            asset_id: String::new(),
            timestamp: 0,
            asks: Vec::new(),
            bids: Vec::new(),
        };
        proof {
            assert(r.asks@ =~= Seq::<(u64, u64)>::empty());
            assert(r.bids@ =~= Seq::<(u64, u64)>::empty());
        }
        r
    }
}

/// Inserts a positive-size level into a sorted side, replacing the level
/// with the same price if one is there.
fn upsert_level(
    side: &mut Vec<(u64, u64)>,
    p: u64,
    q: u64,
    ascending: bool,
    Ghost(m): Ghost<Map<u64, u64>>,
)
    requires
        q > 0,
        ascending ==> sorted_strict_asc(old(side)@),
        !ascending ==> sorted_strict_desc(old(side)@),
        positive_sizes(old(side)@),
        side_matches(old(side)@, m),
    ensures
        ascending ==> sorted_strict_asc(final(side)@),
        !ascending ==> sorted_strict_desc(final(side)@),
        positive_sizes(final(side)@),
        side_matches(final(side)@, m.insert(p, q)),
{
    let n = side.len();
    let mut idx: usize = 0;
    while idx < n && ((ascending && side[idx].0 < p) || (!ascending && side[idx].0 > p))
        invariant
            n == side@.len(),
            0 <= idx <= n,
            ascending ==> forall|i: int| 0 <= i < idx ==> side@[i].0 < p,
            !ascending ==> forall|i: int| 0 <= i < idx ==> side@[i].0 > p,
        decreases n - idx,
    {
        idx += 1;
    }
    let ghost old_side = side@;
    if idx < n && side[idx].0 == p {
        // replace the existing level for this price
        side.remove(idx);
        side.insert(idx, (p, q));
        proof {
            assert(side@ =~= old_side.update(idx as int, (p, q)));
            let new_side = side@;
            assert forall|k: u64| m.insert(p, q).contains_key(k) implies exists|i: int|
                0 <= i < new_side.len() && new_side[i].0 == k by {
                if k == p {
                    assert(new_side[idx as int].0 == k);
                } else {
                    let i = choose|i: int| 0 <= i < old_side.len() && old_side[i].0 == k;
                    assert(new_side[i].0 == k);
                }
            }
            assert forall|i: int| 0 <= i < new_side.len() implies m.insert(p, q).contains_pair(
                new_side[i].0,
                new_side[i].1,
            ) by {
                if i != idx {
                    assert(old_side[i].0 != p);
                }
            }
        }
    } else {
        side.insert(idx, (p, q));
        proof {
            let new_side = side@;
            assert(new_side == old_side.insert(idx as int, (p, q)));
            // where each old element went
            assert(forall|i: int| 0 <= i < idx ==> new_side[i] == old_side[i]);
            assert(forall|i: int|
                idx <= i < old_side.len() ==> new_side[i + 1] == old_side[i]);
            assert(new_side[idx as int] == (p, q));
            // the element at idx (if any) was strictly beyond p
            assert forall|i: int| 0 <= i < old_side.len() implies old_side[i].0 != p by {
                if i >= idx {
                    assert(m.contains_pair(old_side[i].0, old_side[i].1));
                }
            }
            assert forall|k: u64| m.insert(p, q).contains_key(k) implies exists|i: int|
                0 <= i < new_side.len() && new_side[i].0 == k by {
                if k == p {
                    assert(new_side[idx as int].0 == k);
                } else {
                    let i = choose|i: int| 0 <= i < old_side.len() && old_side[i].0 == k;
                    if i < idx {
                        assert(new_side[i].0 == k);
                    } else {
                        assert(new_side[i + 1].0 == k);
                    }
                }
            }
            assert forall|i: int| 0 <= i < new_side.len() implies m.insert(p, q).contains_pair(
                new_side[i].0,
                new_side[i].1,
            ) by {
                if i < idx {
                    assert(new_side[i] == old_side[i]);
                } else if i > idx {
                    assert(new_side[i] == old_side[i - 1]);
                }
            }
            if ascending {
                assert forall|i: int, j: int|
                    0 <= i < j < new_side.len() implies new_side[i].0 < new_side[j].0 by {
                    if j == idx {
                        assert(new_side[i] == old_side[i]);
                    } else if i == idx {
                        assert(new_side[j] == old_side[j - 1]);
                        assert(old_side[j - 1].0 >= p);
                        assert(old_side[j - 1].0 != p);
                    }
                }
            } else {
                assert forall|i: int, j: int|
                    0 <= i < j < new_side.len() implies new_side[i].0 > new_side[j].0 by {
                    if j == idx {
                        assert(new_side[i] == old_side[i]);
                    } else if i == idx {
                        assert(new_side[j] == old_side[j - 1]);
                        assert(old_side[j - 1].0 <= p);
                        assert(old_side[j - 1].0 != p);
                    }
                }
            }
        }
    }
}

/// Builds one sorted side from a wire level list, filtering zero sizes.
fn build_side(levels: &Vec<(u64, u64)>, ascending: bool) -> (r: Vec<(u64, u64)>)
    ensures
        ascending ==> sorted_strict_asc(r@),
        !ascending ==> sorted_strict_desc(r@),
        positive_sizes(r@),
        side_matches(r@, side_map(levels@)),
{
    let mut side: Vec<(u64, u64)> = Vec::new();
    let n = levels.len();
    let mut i: usize = 0;
    while i < n
        invariant
            n == levels@.len(),
            0 <= i <= n,
            ascending ==> sorted_strict_asc(side@),
            !ascending ==> sorted_strict_desc(side@),
            positive_sizes(side@),
            side_matches(side@, side_map(levels@.subrange(0, i as int))),
        decreases n - i,
    {
        let (p, q) = levels[i];
        proof {
            assert(levels@.subrange(0, i + 1).drop_last() =~= levels@.subrange(0, i as int));
            assert(levels@.subrange(0, i + 1).last() == levels@[i as int]);
        }
        if q > 0 {
            upsert_level(
                &mut side,
                p,
                q,
                ascending,
                Ghost(side_map(levels@.subrange(0, i as int))),
            );
        }
        i += 1;
    }
    proof {
        assert(levels@.subrange(0, n as int) =~= levels@);
    }
    side
}

/// Why a snapshot payload was rejected.
#[derive(Debug)]
pub struct ParseError {
    /// The underlying structural or numeric failure.
    pub kind: WireError,
    /// The first bytes of the offending payload, for diagnostics.
    pub preview: Vec<u8>,
}

/// Length of the diagnostic preview kept with a parse error.
pub const PREVIEW_LEN: usize = 500;

/// The first bytes of a payload, up to [`PREVIEW_LEN`] of them.
pub open spec fn preview_of(s: Seq<u8>) -> Seq<u8> {
    if s.len() <= PREVIEW_LEN {
        s
    } else {
        s.subrange(0, PREVIEW_LEN as int)
    }
}

/// The book `b` is what the parsed snapshot `m` denotes.
pub open spec fn book_from_wire(b: Orderbook, m: SpecBookWire) -> bool {
    &&& b.market@ == ascii_chars(m.market)
    &&& b.asset_id@ == ascii_chars(m.asset_id)
    &&& b.timestamp == m.timestamp
    &&& b.wf()
    &&& side_matches(b.asks@, side_map(m.asks))
    &&& side_matches(b.bids@, side_map(m.bids))
}

fn make_preview(bytes: &[u8]) -> (r: Vec<u8>)
    ensures
        r@ == preview_of(bytes@),
{
    let n = if bytes.len() <= PREVIEW_LEN {
        bytes.len()
    } else {
        PREVIEW_LEN
    };
    let r = vstd::slice::slice_to_vec(vstd::slice::slice_subrange(bytes, 0, n));
    proof {
        if bytes@.len() <= PREVIEW_LEN {
            assert(bytes@.subrange(0, bytes@.len() as int) =~= bytes@);
        }
    }
    r
}

impl Orderbook {
    /// Decodes one full snapshot payload (already unwrapped from any array)
    /// into a fresh book. Levels with size zero are filtered out; failure
    /// carries the underlying error and a bounded preview of the input.
    pub fn from_bytes(bytes: &[u8]) -> (r: Result<Orderbook, ParseError>)
        ensures
            match r {
                Ok(book) => {
                    &&& spec_parse_book(bytes@) matches Ok(m) && book_from_wire(book, m)
                },
                Err(e) => {
                    &&& spec_parse_book(bytes@) matches Err(k) && e.kind == k
                    &&& e.preview@ == preview_of(bytes@)
                },
            },
    {
        let wire = match parse_book(bytes) {
            Ok(w) => w,
            Err(k) => {
                return Err(ParseError { kind: k, preview: make_preview(bytes) });
            },
        };
        proof {
            crate::wire::lemma_book_strings_ascii(bytes@);
            match spec_parse_book(bytes@) {
                Ok(m) => {
                    assert(m.market == wire.market@);
                    assert(m.asset_id == wire.asset_id@);
                    assert(forall|i: int|
                        0 <= i < wire.market@.len() ==> wire.market@[i] < 128);
                    assert(forall|i: int|
                        0 <= i < wire.asset_id@.len() ==> wire.asset_id@[i] < 128);
                },
                Err(_) => {
                    assert(false);
                },
            }
        }
        let asks = build_side(&wire.asks, true);
        let bids = build_side(&wire.bids, false);
        Ok(
            Orderbook {
                market: string_from_ascii(wire.market),
                asset_id: string_from_ascii(wire.asset_id),
                timestamp: wire.timestamp,
                asks,
                bids,
            },
        )
    }

    /// Wholesale replacement by a new snapshot: identifiers, timestamp and
    /// both sides are swapped, never merged; a level absent from the new
    /// snapshot is gone.
    pub fn apply_snapshot(&mut self, snapshot: Orderbook)
        ensures
            final(self).market@ == snapshot.market@,
            final(self).asset_id@ == snapshot.asset_id@,
            final(self).timestamp == snapshot.timestamp,
            final(self).asks@ == snapshot.asks@,
            final(self).bids@ == snapshot.bids@,
    {
        self.market = snapshot.market;
        self.asset_id = snapshot.asset_id;
        self.timestamp = snapshot.timestamp;
        self.asks = snapshot.asks;
        self.bids = snapshot.bids;
    }

    /// Parses a snapshot payload and applies it; on failure the book is
    /// left exactly as it was.
    pub fn update_from_bytes(&mut self, bytes: &[u8]) -> (r: Result<(), ParseError>)
        ensures
            match r {
                Ok(()) => {
                    &&& spec_parse_book(bytes@) matches Ok(m) && book_from_wire(*final(self), m)
                },
                Err(e) => {
                    &&& spec_parse_book(bytes@) matches Err(k) && e.kind == k
                    &&& e.preview@ == preview_of(bytes@)
                    &&& *final(self) == *old(self)
                },
            },
    {
        let snapshot = match Orderbook::from_bytes(bytes) {
            Ok(b) => b,
            Err(e) => {
                return Err(e);
            },
        };
        self.apply_snapshot(snapshot);
        Ok(())
    }

    /// The highest-priced bid level, or nothing if there are no bids.
    pub fn best_bid(&self) -> (r: Option<(u64, u64)>)
        requires
            self.wf(),
        ensures
            match r {
                Some(level) => {
                    &&& self.bids@.len() > 0
                    &&& level == self.bids@[0]
                    &&& forall|i: int| 0 <= i < self.bids@.len() ==> self.bids@[i].0 <= level.0
                    &&& level.1 > 0
                },
                None => self.bids@.len() == 0,
            },
    {
        if self.bids.len() > 0 {
            Some(self.bids[0])
        } else {
            None
        }
    }

    /// The lowest-priced ask level, or nothing if there are no asks.
    pub fn best_ask(&self) -> (r: Option<(u64, u64)>)
        requires
            self.wf(),
        ensures
            match r {
                Some(level) => {
                    &&& self.asks@.len() > 0
                    &&& level == self.asks@[0]
                    &&& forall|i: int| 0 <= i < self.asks@.len() ==> self.asks@[i].0 >= level.0
                    &&& level.1 > 0
                },
                None => self.asks@.len() == 0,
            },
    {
        if self.asks.len() > 0 {
            Some(self.asks[0])
        } else {
            None
        }
    }

    /// Integer average (floor) of best bid and best ask; nothing unless
    /// both sides are non-empty.
    pub fn mid_price(&self) -> (r: Option<u64>)
        requires
            self.wf(),
        ensures
            if self.bids@.len() > 0 && self.asks@.len() > 0 {
                r == Some((((self.bids@[0].0 + self.asks@[0].0) as int / 2) as u64))
            } else {
                r is None
            },
    {
        match (self.best_bid(), self.best_ask()) {
            (Some((bid, _)), Some((ask, _))) => {
                let sum = bid as u128 + ask as u128;
                Some((sum / 2) as u64)
            },
            _ => None,
        }
    }

    /// Best ask minus best bid, saturating at zero when the book is crossed;
    /// nothing unless both sides are non-empty.
    pub fn spread(&self) -> (r: Option<u64>)
        requires
            self.wf(),
        ensures
            if self.bids@.len() > 0 && self.asks@.len() > 0 {
                r == Some(
                    if self.asks@[0].0 >= self.bids@[0].0 {
                        (self.asks@[0].0 - self.bids@[0].0) as u64
                    } else {
                        0u64
                    },
                )
            } else {
                r is None
            },
    {
        match (self.best_bid(), self.best_ask()) {
            (Some((bid, _)), Some((ask, _))) => {
                if ask >= bid {
                    Some(ask - bid)
                } else {
                    Some(0)
                }
            },
            _ => None,
        }
    }
}

} // verus!
