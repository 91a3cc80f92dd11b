//! Wire parser for book snapshot payloads.
//!
//! The feed delivers a snapshot as a JSON object
//! `{"market": str, "asset_id": str, "timestamp": str, "bids": [...],
//! "asks": [...], "hash": str}` whose `bids`/`asks` are arrays of
//! `{"price": str, "size": str}` objects. This module parses exactly that
//! shape from raw bytes: fields in any order, arbitrary whitespace between
//! tokens, unknown string-valued fields ignored, strings restricted to
//! printable ASCII without escape sequences. Prices, sizes and the
//! timestamp are converted by the decimal codec as they are read.

use vstd::prelude::*;

use crate::classify::{skip_ws, slice_eq_at, spec_skip_ws};
use crate::codec::{
    spec_parse_decimal, spec_parse_u64, parse_decimal_bytes, parse_u64, DecimalError,
    PRICE_DECIMALS, SIZE_DECIMALS,
};

verus! {

/// Why a payload failed to parse.
#[derive(Clone, Copy, Debug, PartialEq, Eq, Structural)]
pub enum WireError {
    /// The bytes do not follow the snapshot object shape.
    Syntax,
    /// A required field is absent.
    MissingField,
    /// A price, size or timestamp string failed to convert.
    Number(DecimalError),
}

/// A parsed snapshot, still in wire order: level lists as they appeared,
/// zero sizes retained.
pub struct BookWire {
    pub market: Vec<u8>,
    pub asset_id: Vec<u8>,
    pub timestamp: u64,
    pub bids: Vec<(u64, u64)>,
    pub asks: Vec<(u64, u64)>,
}

/// Mathematical image of a [`BookWire`].
pub ghost struct SpecBookWire {
    pub market: Seq<u8>,
    pub asset_id: Seq<u8>,
    pub timestamp: u64,
    pub bids: Seq<(u64, u64)>,
    pub asks: Seq<(u64, u64)>,
}

impl View for BookWire {
    type V = SpecBookWire;

    open spec fn view(&self) -> SpecBookWire {
        SpecBookWire {
            market: self.market@,
            asset_id: self.asset_id@,
            timestamp: self.timestamp,
            bids: self.bids@,
            asks: self.asks@,
        }
    }
}

/// A byte a wire string may hold: printable ASCII, no quote, no backslash.
pub open spec fn is_string_byte(b: u8) -> bool {
    32 <= b <= 126 && b != 34 && b != 92
}

/// Index of the quote closing a string whose content starts at `i`.
pub open spec fn spec_string_end(s: Seq<u8>, i: int) -> Option<int>
    decreases s.len() - i,
{
    if !(0 <= i < s.len()) {
        None
    } else if s[i] == 34 {
        Some(i)
    } else if is_string_byte(s[i]) {
        spec_string_end(s, i + 1)
    } else {
        None
    }
}

/// Parses a quoted string at `i`: its content bytes and the index after the
/// closing quote.
pub open spec fn spec_parse_string(s: Seq<u8>, i: int) -> Result<(Seq<u8>, int), WireError> {
    if 0 <= i < s.len() && s[i] == 34 {
        match spec_string_end(s, i + 1) {
            Some(j) => Ok((s.subrange(i + 1, j), j + 1)),
            None => Err(WireError::Syntax),
        }
    } else {
        Err(WireError::Syntax)
    }
}

proof fn lemma_string_end_bounds(s: Seq<u8>, i: int)
    requires
        0 <= i <= s.len(),
    ensures
        match spec_string_end(s, i) {
            Some(j) => i <= j < s.len() && s[j] == 34,
            None => true,
        },
    decreases s.len() - i,
{
    if 0 <= i < s.len() && s[i] != 34 && is_string_byte(s[i]) {
        lemma_string_end_bounds(s, i + 1);
    }
}

/// A string token: content range `[start, end)` and the index after the
/// closing quote.
pub struct StrTok {
    pub start: usize,
    pub end: usize,
    pub next: usize,
}

/// Scans a quoted string starting at `i`.
fn parse_string_tok(s: &[u8], i: usize) -> (r: Result<StrTok, WireError>)
    requires
        i <= s@.len(),
    ensures
        match r {
            Ok(t) => {
                &&& i < t.start <= t.end < t.next <= s@.len()
                &&& spec_parse_string(s@, i as int) == Ok::<_, WireError>(
                    (s@.subrange(t.start as int, t.end as int), t.next as int),
                )
            },
            Err(e) => spec_parse_string(s@, i as int) == Err::<(Seq<u8>, int), _>(e),
        },
{
    let n = s.len();
    if i >= n || s[i] != 34 {
        return Err(WireError::Syntax);
    }
    let mut j = i + 1;
    while j < n && s[j] != 34 && 32 <= s[j] && s[j] <= 126 && s[j] != 92
        invariant
            n == s@.len(),
            i + 1 <= j <= n,
            spec_string_end(s@, i as int + 1) == spec_string_end(s@, j as int),
        decreases n - j,
    {
        j += 1;
    }
    if j < n && s[j] == 34 {
        assert(spec_string_end(s@, j as int) == Some(j as int));
        Ok(StrTok { start: i + 1, end: j, next: j + 1 })
    } else {
        assert(spec_string_end(s@, j as int) is None);
        Err(WireError::Syntax)
    }
}

/// Wire spelling of the `price` field name.
pub open spec fn price_key() -> Seq<u8> {
    seq![112u8, 114, 105, 99, 101]
}

/// Wire spelling of the `size` field name.
pub open spec fn size_key() -> Seq<u8> {
    seq![115u8, 105, 122, 101]
}

fn price_key_bytes() -> (v: Vec<u8>)
    ensures
        v@ == price_key(),
{
    let v: Vec<u8> = vec![112u8, 114, 105, 99, 101];
    assert(v@ =~= price_key());
    v
}

fn size_key_bytes() -> (v: Vec<u8>)
    ensures
        v@ == size_key(),
{
    let v: Vec<u8> = vec![115u8, 105, 122, 101];
    assert(v@ =~= size_key());
    v
}

/// One `"key": "value"` pair inside a level object, folded into the
/// price/size accumulators; yields the index after the value.
pub open spec fn spec_parse_level_field(
    s: Seq<u8>,
    i: int,
    price: Option<u64>,
    size: Option<u64>,
) -> Result<(Option<u64>, Option<u64>, int), WireError> {
    match spec_parse_string(s, i) {
        Err(e) => Err(e),
        Ok((key, a)) => {
            let b = spec_skip_ws(s, a);
            if !(b < s.len() && s[b] == 58) {
                Err(WireError::Syntax)
            } else {
                let c = spec_skip_ws(s, b + 1);
                match spec_parse_string(s, c) {
                    Err(e) => Err(e),
                    Ok((value, d)) => {
                        if key == price_key() {
                            match spec_parse_decimal(value, PRICE_DECIMALS as nat) {
                                Ok(p) => Ok((Some(p), size, d)),
                                Err(e) => Err(WireError::Number(e)),
                            }
                        } else if key == size_key() {
                            match spec_parse_decimal(value, SIZE_DECIMALS as nat) {
                                Ok(q) => Ok((price, Some(q), d)),
                                Err(e) => Err(WireError::Number(e)),
                            }
                        } else {
                            Ok((price, size, d))
                        }
                    },
                }
            }
        },
    }
}

/// The field list of a level object from `i` (the first key) to the closing
/// brace; both price and size must have appeared.
pub open spec fn spec_parse_level_fields(
    s: Seq<u8>,
    i: int,
    price: Option<u64>,
    size: Option<u64>,
) -> Result<((u64, u64), int), WireError>
    decreases s.len() - i,
{
    match spec_parse_level_field(s, i, price, size) {
        Err(e) => Err(e),
        Ok((price2, size2, d)) => {
            let w = spec_skip_ws(s, d);
            if w < s.len() && s[w] == 44 {
                let t = spec_skip_ws(s, w + 1);
                if i < t <= s.len() {
                    spec_parse_level_fields(s, t, price2, size2)
                } else {
                    Err(WireError::Syntax)
                }
            } else if w < s.len() && s[w] == 125 {
                match (price2, size2) {
                    (Some(p), Some(q)) => Ok(((p, q), w + 1)),
                    _ => Err(WireError::MissingField),
                }
            } else {
                Err(WireError::Syntax)
            }
        },
    }
}

/// A level object at `i` (after whitespace): `{"price": str, "size": str}`,
/// keys in any order, unknown string fields ignored.
pub open spec fn spec_parse_level(s: Seq<u8>, i: int) -> Result<((u64, u64), int), WireError> {
    let j = spec_skip_ws(s, i);
    if !(j < s.len() && s[j] == 123) {
        Err(WireError::Syntax)
    } else {
        let k = spec_skip_ws(s, j + 1);
        spec_parse_level_fields(s, k, None, None)
    }
}

/// Compares the token's content range with `pat`.
fn tok_content_is(s: &[u8], t: &StrTok, pat: &Vec<u8>) -> (r: bool)
    requires
        t.start <= t.end <= s@.len(),
    ensures
        r == (s@.subrange(t.start as int, t.end as int) == pat@),
{
    if t.end - t.start != pat.len() {
        assert(s@.subrange(t.start as int, t.end as int).len() != pat@.len());
        return false;
    }
    let r = slice_eq_at(s, pat.as_slice(), t.start);
    proof {
        if r {
            assert(s@.subrange(t.start as int, t.start as int + pat@.len() as int) =~= s@.subrange(
                t.start as int,
                t.end as int,
            ));
        } else {
            assert(s@.subrange(t.start as int, t.start as int + pat@.len() as int) == s@.subrange(
                t.start as int,
                t.end as int,
            ));
        }
    }
    r
}

/// Parses one level object; mirrors [`spec_parse_level`].
fn parse_level(s: &[u8], i: usize) -> (r: Result<((u64, u64), usize), WireError>)
    requires
        i <= s@.len(),
    ensures
        match r {
            Ok((lvl, next)) => {
                &&& i < next <= s@.len()
                &&& spec_parse_level(s@, i as int) == Ok::<_, WireError>((lvl, next as int))
            },
            Err(e) => spec_parse_level(s@, i as int) == Err::<((u64, u64), int), _>(e),
        },
{
    let n = s.len();
    let j = skip_ws(s, i);
    if !(j < n && s[j] == 123) {
        return Err(WireError::Syntax);
    }
    let mut at = skip_ws(s, j + 1);
    let mut price: Option<u64> = None;
    let mut size: Option<u64> = None;
    let price_pat = price_key_bytes();
    let size_pat = size_key_bytes();
    let ghost k0 = at as int;
    loop
        invariant
            n == s@.len(),
            at <= n,
            price_pat@ == price_key(),
            size_pat@ == size_key(),
            spec_parse_level_fields(s@, k0, None, None) == spec_parse_level_fields(
                s@,
                at as int,
                price,
                size,
            ),
            spec_parse_level(s@, i as int) == spec_parse_level_fields(s@, k0, None, None),
            i < at,
        decreases n - at,
    {
        let tok = match parse_string_tok(s, at) {
            Ok(t) => t,
            Err(e) => {
                return Err(e);
            },
        };
        let b = skip_ws(s, tok.next);
        if !(b < n && s[b] == 58) {
            return Err(WireError::Syntax);
        }
        let c = skip_ws(s, b + 1);
        let vtok = match parse_string_tok(s, c) {
            Ok(t) => t,
            Err(e) => {
                return Err(e);
            },
        };
        if tok_content_is(s, &tok, &price_pat) {
            let sub = vstd::slice::slice_subrange(s, vtok.start, vtok.end);
            match parse_decimal_bytes(sub, PRICE_DECIMALS) {
                Ok(p) => {
                    price = Some(p);
                },
                Err(e) => {
                    return Err(WireError::Number(e));
                },
            }
        } else if tok_content_is(s, &tok, &size_pat) {
            let sub = vstd::slice::slice_subrange(s, vtok.start, vtok.end);
            match parse_decimal_bytes(sub, SIZE_DECIMALS) {
                Ok(q) => {
                    size = Some(q);
                },
                Err(e) => {
                    return Err(WireError::Number(e));
                },
            }
        }
        let w = skip_ws(s, vtok.next);
        if w < n && s[w] == 44 {
            let t = skip_ws(s, w + 1);
            at = t;
        } else if w < n && s[w] == 125 {
            match (price, size) {
                (Some(p), Some(q)) => {
                    return Ok(((p, q), w + 1));
                },
                _ => {
                    return Err(WireError::MissingField);
                },
            }
        } else {
            return Err(WireError::Syntax);
        }
    }
}

/// The tail of a level array from the first byte of a level object; `acc`
/// holds the levels already read.
pub open spec fn spec_parse_levels_rest(
    s: Seq<u8>,
    i: int,
    acc: Seq<(u64, u64)>,
) -> Result<(Seq<(u64, u64)>, int), WireError>
    decreases s.len() - i,
{
    match spec_parse_level(s, i) {
        Err(e) => Err(e),
        Ok((lvl, m)) => {
            let w = spec_skip_ws(s, m);
            if w < s.len() && s[w] == 44 {
                if i < w + 1 <= s.len() {
                    spec_parse_levels_rest(s, w + 1, acc.push(lvl))
                } else {
                    Err(WireError::Syntax)
                }
            } else if w < s.len() && s[w] == 93 {
                Ok((acc.push(lvl), w + 1))
            } else {
                Err(WireError::Syntax)
            }
        },
    }
}

/// A level array at `i` (after whitespace): `[]` or `[lvl, lvl, ...]`.
pub open spec fn spec_parse_levels(s: Seq<u8>, i: int) -> Result<(Seq<(u64, u64)>, int), WireError> {
    let j = spec_skip_ws(s, i);
    if !(j < s.len() && s[j] == 91) {
        Err(WireError::Syntax)
    } else {
        let k = spec_skip_ws(s, j + 1);
        if k < s.len() && s[k] == 93 {
            Ok((Seq::empty(), k + 1))
        } else {
            spec_parse_levels_rest(s, k, Seq::empty())
        }
    }
}

/// Parses a level array; mirrors [`spec_parse_levels`].
fn parse_levels(s: &[u8], i: usize) -> (r: Result<(Vec<(u64, u64)>, usize), WireError>)
    requires
        i <= s@.len(),
    ensures
        match r {
            Ok((lvls, next)) => {
                &&& i < next <= s@.len()
                &&& spec_parse_levels(s@, i as int) == Ok::<_, WireError>((lvls@, next as int))
            },
            Err(e) => spec_parse_levels(s@, i as int) == Err::<(Seq<(u64, u64)>, int), _>(e),
        },
{
    let n = s.len();
    let j = skip_ws(s, i);
    if !(j < n && s[j] == 91) {
        return Err(WireError::Syntax);
    }
    let k = skip_ws(s, j + 1);
    if k < n && s[k] == 93 {
        let empty: Vec<(u64, u64)> = Vec::new();
        assert(empty@ =~= Seq::<(u64, u64)>::empty());
        return Ok((empty, k + 1));
    }
    let mut at = k;
    let mut acc: Vec<(u64, u64)> = Vec::new();
    let ghost k0 = k as int;
    assert(acc@ =~= Seq::<(u64, u64)>::empty());
    loop
        invariant
            n == s@.len(),
            at <= n,
            i < at,
            spec_parse_levels(s@, i as int) == spec_parse_levels_rest(s@, k0, Seq::empty()),
            spec_parse_levels_rest(s@, k0, Seq::empty()) == spec_parse_levels_rest(
                s@,
                at as int,
                acc@,
            ),
        decreases n - at,
    {
        let (lvl, m) = match parse_level(s, at) {
            Ok(x) => x,
            Err(e) => {
                return Err(e);
            },
        };
        let w = skip_ws(s, m);
        if w < n && s[w] == 44 {
            acc.push(lvl);
            at = w + 1;
        } else if w < n && s[w] == 93 {
            acc.push(lvl);
            return Ok((acc, w + 1));
        } else {
            return Err(WireError::Syntax);
        }
    }
}

/// Wire spelling of the `market` field name.
pub open spec fn market_key() -> Seq<u8> {
    seq![109u8, 97, 114, 107, 101, 116]
}

/// Wire spelling of the `asset_id` field name.
pub open spec fn asset_id_key() -> Seq<u8> {
    seq![97u8, 115, 115, 101, 116, 95, 105, 100]
}

/// Wire spelling of the `timestamp` field name.
pub open spec fn timestamp_key() -> Seq<u8> {
    seq![116u8, 105, 109, 101, 115, 116, 97, 109, 112]
}

/// Wire spelling of the `bids` field name.
pub open spec fn bids_key() -> Seq<u8> {
    seq![98u8, 105, 100, 115]
}

/// Wire spelling of the `asks` field name.
pub open spec fn asks_key() -> Seq<u8> {
    seq![97u8, 115, 107, 115]
}

fn market_key_bytes() -> (v: Vec<u8>)
    ensures
        v@ == market_key(),
{
    let v: Vec<u8> = vec![109u8, 97, 114, 107, 101, 116];
    assert(v@ =~= market_key());
    v
}

fn asset_id_key_bytes() -> (v: Vec<u8>)
    ensures
        v@ == asset_id_key(),
{
    let v: Vec<u8> = vec![97u8, 115, 115, 101, 116, 95, 105, 100];
    assert(v@ =~= asset_id_key());
    v
}

fn timestamp_key_bytes() -> (v: Vec<u8>)
    ensures
        v@ == timestamp_key(),
{
    let v: Vec<u8> = vec![116u8, 105, 109, 101, 115, 116, 97, 109, 112];
    assert(v@ =~= timestamp_key());
    v
}

fn bids_key_bytes() -> (v: Vec<u8>)
    ensures
        v@ == bids_key(),
{
    let v: Vec<u8> = vec![98u8, 105, 100, 115];
    assert(v@ =~= bids_key());
    v
}

fn asks_key_bytes() -> (v: Vec<u8>)
    ensures
        v@ == asks_key(),
{
    let v: Vec<u8> = vec![97u8, 115, 107, 115];
    assert(v@ =~= asks_key());
    v
}

/// Fields gathered so far while reading a snapshot object.
pub ghost struct BookAcc {
    pub market: Option<Seq<u8>>,
    pub asset_id: Option<Seq<u8>>,
    pub timestamp: Option<u64>,
    pub bids: Option<Seq<(u64, u64)>>,
    pub asks: Option<Seq<(u64, u64)>>,
}

/// The accumulator before any field was read.
pub open spec fn empty_acc() -> BookAcc {
    BookAcc { market: None, asset_id: None, timestamp: None, bids: None, asks: None }
}

/// One `"key": value` pair of the snapshot object, folded into `acc`.
/// `bids`/`asks` take a level array; every other key takes a string, and
/// unknown keys are read and ignored.
pub open spec fn spec_parse_book_field(s: Seq<u8>, i: int, acc: BookAcc) -> Result<
    (BookAcc, int),
    WireError,
> {
    match spec_parse_string(s, i) {
        Err(e) => Err(e),
        Ok((key, a)) => {
            let b = spec_skip_ws(s, a);
            if !(b < s.len() && s[b] == 58) {
                Err(WireError::Syntax)
            } else {
                let c = spec_skip_ws(s, b + 1);
                if key == bids_key() {
                    match spec_parse_levels(s, c) {
                        Err(e) => Err(e),
                        Ok((lv, d)) => Ok((BookAcc { bids: Some(lv), ..acc }, d)),
                    }
                } else if key == asks_key() {
                    match spec_parse_levels(s, c) {
                        Err(e) => Err(e),
                        Ok((lv, d)) => Ok((BookAcc { asks: Some(lv), ..acc }, d)),
                    }
                } else {
                    match spec_parse_string(s, c) {
                        Err(e) => Err(e),
                        Ok((value, d)) => {
                            if key == market_key() {
                                Ok((BookAcc { market: Some(value), ..acc }, d))
                            } else if key == asset_id_key() {
                                Ok((BookAcc { asset_id: Some(value), ..acc }, d))
                            } else if key == timestamp_key() {
                                match spec_parse_u64(value) {
                                    Ok(t) => Ok((BookAcc { timestamp: Some(t), ..acc }, d)),
                                    Err(e) => Err(WireError::Number(e)),
                                }
                            } else {
                                Ok((acc, d))
                            }
                        },
                    }
                }
            }
        },
    }
}

/// The field list of the snapshot object from `i` (the first key) to the
/// closing brace; all five required fields must have appeared.
pub open spec fn spec_parse_book_fields(s: Seq<u8>, i: int, acc: BookAcc) -> Result<
    (SpecBookWire, int),
    WireError,
>
    decreases s.len() - i,
{
    match spec_parse_book_field(s, i, acc) {
        Err(e) => Err(e),
        Ok((acc2, d)) => {
            let w = spec_skip_ws(s, d);
            if w < s.len() && s[w] == 44 {
                let t = spec_skip_ws(s, w + 1);
                if i < t <= s.len() {
                    spec_parse_book_fields(s, t, acc2)
                } else {
                    Err(WireError::Syntax)
                }
            } else if w < s.len() && s[w] == 125 {
                match (acc2.market, acc2.asset_id, acc2.timestamp, acc2.bids, acc2.asks) {
                    (Some(market), Some(asset_id), Some(timestamp), Some(bids), Some(asks)) => Ok(
                        (SpecBookWire { market, asset_id, timestamp, bids, asks }, w + 1),
                    ),
                    _ => Err(WireError::MissingField),
                }
            } else {
                Err(WireError::Syntax)
            }
        },
    }
}

/// Parsing a whole snapshot payload: one object, nothing but whitespace
/// after it.
pub open spec fn spec_parse_book(s: Seq<u8>) -> Result<SpecBookWire, WireError> {
    let i = spec_skip_ws(s, 0);
    if !(i < s.len() && s[i] == 123) {
        Err(WireError::Syntax)
    } else {
        let j = spec_skip_ws(s, i + 1);
        if j < s.len() && s[j] == 125 {
            Err(WireError::MissingField)
        } else {
            match spec_parse_book_fields(s, j, empty_acc()) {
                Err(e) => Err(e),
                Ok((book, end)) => {
                    if spec_skip_ws(s, end) == s.len() {
                        Ok(book)
                    } else {
                        Err(WireError::Syntax)
                    }
                },
            }
        }
    }
}

/// All bytes of a gathered string field are ASCII.
pub open spec fn opt_bytes_ascii(o: Option<Seq<u8>>) -> bool {
    match o {
        Some(b) => forall|k: int| 0 <= k < b.len() ==> b[k] < 128,
        None => true,
    }
}

proof fn lemma_string_content_ascii(s: Seq<u8>, i: int)
    requires
        0 <= i <= s.len(),
    ensures
        match spec_string_end(s, i) {
            Some(j) => forall|k: int| i <= k < j ==> is_string_byte(s[k]),
            None => true,
        },
    decreases s.len() - i,
{
    if 0 <= i < s.len() && s[i] != 34 && is_string_byte(s[i]) {
        lemma_string_content_ascii(s, i + 1);
    }
}

proof fn lemma_parse_string_ascii(s: Seq<u8>, i: int)
    ensures
        match spec_parse_string(s, i) {
            Ok(r) => forall|k: int| 0 <= k < r.0.len() ==> r.0[k] < 128,
            Err(_) => true,
        },
{
    if 0 <= i < s.len() && s[i] == 34 {
        lemma_string_end_bounds(s, i + 1);
        lemma_string_content_ascii(s, i + 1);
        match spec_string_end(s, i + 1) {
            Some(j) => {
                let c = s.subrange(i + 1, j);
                assert forall|k: int| 0 <= k < c.len() implies c[k] < 128 by {
                    assert(c[k] == s[i + 1 + k]);
                    assert(is_string_byte(s[i + 1 + k]));
                }
            },
            None => {},
        }
    }
}

proof fn lemma_book_field_ascii(s: Seq<u8>, i: int, acc: BookAcc)
    requires
        opt_bytes_ascii(acc.market),
        opt_bytes_ascii(acc.asset_id),
    ensures
        match spec_parse_book_field(s, i, acc) {
            Ok(r) => opt_bytes_ascii(r.0.market) && opt_bytes_ascii(r.0.asset_id),
            Err(_) => true,
        },
{
    lemma_parse_string_ascii(s, i);
    match spec_parse_string(s, i) {
        Err(_) => {},
        Ok((key, a)) => {
            let b = spec_skip_ws(s, a);
            if b < s.len() && s[b] == 58 {
                let c = spec_skip_ws(s, b + 1);
                lemma_parse_string_ascii(s, c);
            }
        },
    }
}

proof fn lemma_book_fields_ascii(s: Seq<u8>, i: int, acc: BookAcc)
    requires
        opt_bytes_ascii(acc.market),
        opt_bytes_ascii(acc.asset_id),
    ensures
        match spec_parse_book_fields(s, i, acc) {
            Ok(r) => {
                &&& forall|k: int| 0 <= k < r.0.market.len() ==> r.0.market[k] < 128
                &&& forall|k: int| 0 <= k < r.0.asset_id.len() ==> r.0.asset_id[k] < 128
            },
            Err(_) => true,
        },
    decreases s.len() - i,
{
    lemma_book_field_ascii(s, i, acc);
    match spec_parse_book_field(s, i, acc) {
        Err(_) => {},
        Ok((acc2, d)) => {
            let w = spec_skip_ws(s, d);
            if w < s.len() && s[w] == 44 {
                let t = spec_skip_ws(s, w + 1);
                if i < t <= s.len() {
                    lemma_book_fields_ascii(s, t, acc2);
                }
            }
        },
    }
}

/// In any successfully parsed snapshot the market and asset identifiers
/// are ASCII byte strings.
pub proof fn lemma_book_strings_ascii(s: Seq<u8>)
    ensures
        match spec_parse_book(s) {
            Ok(m) => {
                &&& forall|k: int| 0 <= k < m.market.len() ==> m.market[k] < 128
                &&& forall|k: int| 0 <= k < m.asset_id.len() ==> m.asset_id[k] < 128
            },
            Err(_) => true,
        },
{
    let i = spec_skip_ws(s, 0);
    crate::classify::lemma_skip_ws_bounds(s, 0);
    if i < s.len() && s[i] == 123 {
        let j = spec_skip_ws(s, i + 1);
        crate::classify::lemma_skip_ws_bounds(s, i + 1);
        if !(j < s.len() && s[j] == 125) {
            lemma_book_fields_ascii(s, j, empty_acc());
        }
    }
}

spec fn opt_bytes_view(o: Option<Vec<u8>>) -> Option<Seq<u8>> {
    match o {
        Some(v) => Some(v@),
        None => None,
    }
}

spec fn opt_levels_view(o: Option<Vec<(u64, u64)>>) -> Option<Seq<(u64, u64)>> {
    match o {
        Some(v) => Some(v@),
        None => None,
    }
}

/// Parses a snapshot payload; mirrors [`spec_parse_book`].
pub fn parse_book(s: &[u8]) -> (r: Result<BookWire, WireError>)
    ensures
        match r {
            Ok(b) => spec_parse_book(s@) == Ok::<SpecBookWire, WireError>(b@),
            Err(e) => spec_parse_book(s@) == Err::<SpecBookWire, WireError>(e),
        },
{
    let n = s.len();
    let i = skip_ws(s, 0);
    if !(i < n && s[i] == 123) {
        return Err(WireError::Syntax);
    }
    let j = skip_ws(s, i + 1);
    if j < n && s[j] == 125 {
        return Err(WireError::MissingField);
    }
    let mut at = j;
    let mut market: Option<Vec<u8>> = None;
    let mut asset_id: Option<Vec<u8>> = None;
    let mut timestamp: Option<u64> = None;
    let mut bids: Option<Vec<(u64, u64)>> = None;
    let mut asks: Option<Vec<(u64, u64)>> = None;
    let market_pat = market_key_bytes();
    let asset_id_pat = asset_id_key_bytes();
    let timestamp_pat = timestamp_key_bytes();
    let bids_pat = bids_key_bytes();
    let asks_pat = asks_key_bytes();
    let ghost j0 = j as int;
    loop
        invariant
            n == s@.len(),
            0 < at <= n,
            market_pat@ == market_key(),
            asset_id_pat@ == asset_id_key(),
            timestamp_pat@ == timestamp_key(),
            bids_pat@ == bids_key(),
            asks_pat@ == asks_key(),
            ({
                let ii = spec_skip_ws(s@, 0);
                &&& ii < s@.len()
                &&& s@[ii] == 123
                &&& spec_skip_ws(s@, ii + 1) == j0
                &&& !(j0 < s@.len() && s@[j0] == 125)
            }),
            spec_parse_book_fields(s@, j0, empty_acc()) == spec_parse_book_fields(
                s@,
                at as int,
                BookAcc {
                    market: opt_bytes_view(market),
                    asset_id: opt_bytes_view(asset_id),
                    timestamp,
                    bids: opt_levels_view(bids),
                    asks: opt_levels_view(asks),
                },
            ),
        decreases n - at,
    {
        let ghost acc_in = BookAcc {
            market: opt_bytes_view(market),
            asset_id: opt_bytes_view(asset_id),
            timestamp,
            bids: opt_levels_view(bids),
            asks: opt_levels_view(asks),
        };
        let tok = match parse_string_tok(s, at) {
            Ok(t) => t,
            Err(e) => {
                return Err(e);
            },
        };
        let b = skip_ws(s, tok.next);
        if !(b < n && s[b] == 58) {
            return Err(WireError::Syntax);
        }
        let c = skip_ws(s, b + 1);
        let d: usize;
        if tok_content_is(s, &tok, &bids_pat) {
            match parse_levels(s, c) {
                Ok((lv, next)) => {
                    bids = Some(lv);
                    d = next;
                },
                Err(e) => {
                    return Err(e);
                },
            }
        } else if tok_content_is(s, &tok, &asks_pat) {
            match parse_levels(s, c) {
                Ok((lv, next)) => {
                    asks = Some(lv);
                    d = next;
                },
                Err(e) => {
                    return Err(e);
                },
            }
        } else {
            let vtok = match parse_string_tok(s, c) {
                Ok(t) => t,
                Err(e) => {
                    return Err(e);
                },
            };
            if tok_content_is(s, &tok, &market_pat) {
                let sub = vstd::slice::slice_subrange(s, vtok.start, vtok.end);
                market = Some(vstd::slice::slice_to_vec(sub));
            } else if tok_content_is(s, &tok, &asset_id_pat) {
                let sub = vstd::slice::slice_subrange(s, vtok.start, vtok.end);
                asset_id = Some(vstd::slice::slice_to_vec(sub));
            } else if tok_content_is(s, &tok, &timestamp_pat) {
                let sub = vstd::slice::slice_subrange(s, vtok.start, vtok.end);
                match parse_u64(sub) {
                    Ok(t) => {
                        timestamp = Some(t);
                    },
                    Err(e) => {
                        return Err(WireError::Number(e));
                    },
                }
            }
            d = vtok.next;
        }
        let ghost acc_out = BookAcc {
            market: opt_bytes_view(market),
            asset_id: opt_bytes_view(asset_id),
            timestamp,
            bids: opt_levels_view(bids),
            asks: opt_levels_view(asks),
        };
        assert(spec_parse_book_field(s@, at as int, acc_in) == Ok::<_, WireError>(
            (acc_out, d as int),
        ));
        let w = skip_ws(s, d);
        if w < n && s[w] == 44 {
            at = skip_ws(s, w + 1);
        } else if w < n && s[w] == 125 {
            match (market, asset_id, timestamp, bids, asks) {
                (Some(m), Some(a), Some(t), Some(bs), Some(aks)) => {
                    let end = skip_ws(s, w + 1);
                    if end != n {
                        return Err(WireError::Syntax);
                    }
                    let book = BookWire {
                        market: m,
                        asset_id: a,
                        timestamp: t,
                        bids: bs,
                        asks: aks,
                    };
                    return Ok(book);
                },
                _ => {
                    return Err(WireError::MissingField);
                },
            }
        } else {
            return Err(WireError::Syntax);
        }
    }
}

} // verus!
