//! Message classifier.
//!
//! Decides, without a structural parse, whether a raw text payload is a
//! trade event, a price-change event, a book event, or something else, by
//! searching for the distinguishing `event_type` marker bytes. Also decides
//! whether a payload is wrapped in a JSON array and strips that wrapper.

use vstd::prelude::*;

verus! {

/// Marker bytes `event_type":"last_trade_price"` identifying a trade event.
pub open spec fn trade_marker() -> Seq<u8> {
    seq![
        101u8, 118, 101, 110, 116, 95, 116, 121, 112, 101, 34, 58, 34, 108, 97, 115, 116, 95, 116,
        114, 97, 100, 101, 95, 112, 114, 105, 99, 101, 34,
    ]
}

/// Marker bytes `event_type":"price_change"` identifying a price-change event.
pub open spec fn price_change_marker() -> Seq<u8> {
    seq![
        101u8, 118, 101, 110, 116, 95, 116, 121, 112, 101, 34, 58, 34, 112, 114, 105, 99, 101, 95,
        99, 104, 97, 110, 103, 101, 34,
    ]
}

/// Marker bytes `event_type":"book"` identifying a book snapshot/update.
pub open spec fn book_marker() -> Seq<u8> {
    seq![101u8, 118, 101, 110, 116, 95, 116, 121, 112, 101, 34, 58, 34, 98, 111, 111, 107, 34]
}

fn trade_marker_bytes() -> (v: Vec<u8>)
    ensures
        v@ == trade_marker(),
{
    let v: Vec<u8> = vec![
        101u8, 118, 101, 110, 116, 95, 116, 121, 112, 101, 34, 58, 34, 108, 97, 115, 116, 95, 116,
        114, 97, 100, 101, 95, 112, 114, 105, 99, 101, 34,
    ];
    assert(v@ =~= trade_marker());
    v
}

fn price_change_marker_bytes() -> (v: Vec<u8>)
    ensures
        v@ == price_change_marker(),
{
    let v: Vec<u8> = vec![
        101u8, 118, 101, 110, 116, 95, 116, 121, 112, 101, 34, 58, 34, 112, 114, 105, 99, 101, 95,
        99, 104, 97, 110, 103, 101, 34,
    ];
    assert(v@ =~= price_change_marker());
    v
}

fn book_marker_bytes() -> (v: Vec<u8>)
    ensures
        v@ == book_marker(),
{
    let v: Vec<u8> = vec![
        101u8, 118, 101, 110, 116, 95, 116, 121, 112, 101, 34, 58, 34, 98, 111, 111, 107, 34,
    ];
    assert(v@ =~= book_marker());
    v
}

/// `pat` occurs in `s` starting at index `i`.
pub open spec fn contains_at(s: Seq<u8>, pat: Seq<u8>, i: int) -> bool {
    0 <= i && i + pat.len() <= s.len() && s.subrange(i, i + pat.len()) == pat
}

/// `pat` occurs somewhere in `s`.
pub open spec fn contains_seq(s: Seq<u8>, pat: Seq<u8>) -> bool {
    exists|i: int| contains_at(s, pat, i)
}

pub(crate) fn slice_eq_at(s: &[u8], pat: &[u8], at: usize) -> (r: bool)
    requires
        at + pat@.len() <= s@.len(),
    ensures
        r == contains_at(s@, pat@, at as int),
{
    let ghost sub = s@.subrange(at as int, at as int + pat@.len() as int);
    let n = s.len();
    let m = pat.len();
    let mut j: usize = 0;
    while j < m
        invariant
            n == s@.len(),
            m == pat@.len(),
            at + m <= n,
            0 <= j <= m,
            sub == s@.subrange(at as int, at as int + pat@.len() as int),
            forall|k: int| 0 <= k < j ==> sub[k] == pat@[k],
        decreases m - j,
    {
        if s[at + j] != pat[j] {
            assert(sub[j as int] != pat@[j as int]);
            return false;
        }
        assert(sub[j as int] == pat@[j as int]);
        j += 1;
    }
    assert(sub =~= pat@);
    true
}

/// Byte-substring search: the classifier's fast path.
pub fn contains_pattern(s: &[u8], pat: &[u8]) -> (r: bool)
    ensures
        r == contains_seq(s@, pat@),
{
    if pat.len() > s.len() {
        assert(forall|i: int| !contains_at(s@, pat@, i));
        return false;
    }
    if pat.len() == 0 {
        assert(s@.subrange(0, 0) =~= pat@);
        assert(contains_at(s@, pat@, 0));
        return true;
    }
    let n = s.len();
    let bound = n - pat.len();
    let mut i: usize = 0;
    while i <= bound
        invariant
            n == s@.len(),
            1 <= pat@.len() <= s@.len(),
            bound == s@.len() - pat@.len(),
            0 <= i <= bound + 1,
            forall|k: int| 0 <= k < i ==> !contains_at(s@, pat@, k),
        decreases bound + 1 - i,
    {
        if slice_eq_at(s, pat, i) {
            return true;
        }
        i += 1;
    }
    assert(forall|k: int| k > bound ==> !contains_at(s@, pat@, k));
    false
}

/// What a payload is, as far as the byte markers show.
#[derive(Clone, Copy, Debug, PartialEq, Eq, Structural)]
pub enum MessageClass {
    /// Carries the trade-event marker.
    Trade,
    /// Carries the price-change marker.
    PriceChange,
    /// Carries the book marker.
    Book,
    /// Carries none of the markers.
    Other,
}

/// Classification policy: the first marker found wins, trade before
/// price-change before book.
pub open spec fn spec_classify(s: Seq<u8>) -> MessageClass {
    if contains_seq(s, trade_marker()) {
        MessageClass::Trade
    } else if contains_seq(s, price_change_marker()) {
        MessageClass::PriceChange
    } else if contains_seq(s, book_marker()) {
        MessageClass::Book
    } else {
        MessageClass::Other
    }
}

/// Classifies a raw payload by marker search alone; a payload holding the
/// trade marker is a trade event wherever the marker stands in the text.
pub fn classify(raw: &[u8]) -> (c: MessageClass)
    ensures
        c == spec_classify(raw@),
{
    let trade = trade_marker_bytes();
    if contains_pattern(raw, trade.as_slice()) {
        return MessageClass::Trade;
    }
    let price = price_change_marker_bytes();
    if contains_pattern(raw, price.as_slice()) {
        return MessageClass::PriceChange;
    }
    let book = book_marker_bytes();
    if contains_pattern(raw, book.as_slice()) {
        return MessageClass::Book;
    }
    MessageClass::Other
}

/// A standalone book event: carries the book marker and is not array-wrapped
/// (an array-wrapped payload is the initial snapshot, which is kept).
pub open spec fn spec_is_book_message(s: Seq<u8>) -> bool {
    !(s.len() > 0 && s[0] == 91) && contains_seq(s, book_marker())
}

/// True for standalone book events, which the receive loop drops; the
/// initial array-wrapped snapshot is not one.
pub fn is_book_message(raw: &[u8]) -> (r: bool)
    ensures
        r == spec_is_book_message(raw@),
{
    if raw.len() > 0 && raw[0] == 91 {
        return false;
    }
    let book = book_marker_bytes();
    contains_pattern(raw, book.as_slice())
}

/// An insignificant byte between JSON tokens: space, tab, newline, return.
pub open spec fn is_ws(b: u8) -> bool {
    b == 32 || b == 9 || b == 10 || b == 13
}

/// First index at or after `i` holding a non-whitespace byte (or the length).
pub open spec fn spec_skip_ws(s: Seq<u8>, i: int) -> int
    decreases s.len() - i,
{
    if !(0 <= i < s.len()) {
        i
    } else if is_ws(s[i]) {
        spec_skip_ws(s, i + 1)
    } else {
        i
    }
}

pub proof fn lemma_skip_ws_bounds(s: Seq<u8>, i: int)
    requires
        0 <= i <= s.len(),
    ensures
        i <= spec_skip_ws(s, i) <= s.len(),
        spec_skip_ws(s, i) < s.len() ==> !is_ws(s[spec_skip_ws(s, i)]),
    decreases s.len() - i,
{
    if i < s.len() && is_ws(s[i]) {
        lemma_skip_ws_bounds(s, i + 1);
    }
}

/// Advances past whitespace.
pub(crate) fn skip_ws(s: &[u8], i: usize) -> (j: usize)
    requires
        i <= s@.len(),
    ensures
        j == spec_skip_ws(s@, i as int),
        i <= j <= s@.len(),
{
    let mut j = i;
    while j < s.len() && (s[j] == 32 || s[j] == 9 || s[j] == 10 || s[j] == 13)
        invariant
            i <= j <= s@.len(),
            spec_skip_ws(s@, i as int) == spec_skip_ws(s@, j as int),
        decreases s@.len() - j,
    {
        j += 1;
    }
    proof {
        lemma_skip_ws_bounds(s@, j as int);
    }
    j
}

/// A payload whose first non-whitespace byte is `[` is array-wrapped; any
/// other payload never is.
pub open spec fn spec_is_array_wrapped(s: Seq<u8>) -> bool {
    spec_skip_ws(s, 0) < s.len() && s[spec_skip_ws(s, 0)] == 91
}

/// Whether the payload is a JSON-array-wrapped snapshot rather than a
/// standalone event object.
pub fn is_array_wrapped(raw: &[u8]) -> (r: bool)
    ensures
        r == spec_is_array_wrapped(raw@),
{
    let j = skip_ws(raw, 0);
    j < raw.len() && raw[j] == 91
}

/// Index of the last `]` in `s`, if any.
pub open spec fn last_rbracket(s: Seq<u8>) -> Option<int>
    decreases s.len(),
{
    if s.len() == 0 {
        None
    } else if s[s.len() - 1] == 93 {
        Some(s.len() - 1)
    } else {
        last_rbracket(s.drop_last())
    }
}

/// What stripping the array wrapper yields: the bytes between the leading
/// `[` and the last `]` (tolerating trailing whitespace after it). With no
/// `]` beyond the first byte the input comes back unchanged.
pub open spec fn spec_strip_array_wrapper(s: Seq<u8>) -> Seq<u8> {
    match last_rbracket(s) {
        Some(p) => if p >= 1 {
            s.subrange(1, p)
        } else {
            s
        },
        None => s,
    }
}

proof fn lemma_last_rbracket_at(s: Seq<u8>, p: int)
    requires
        0 <= p < s.len(),
        s[p] == 93,
        forall|k: int| p < k < s.len() ==> s[k] != 93,
    ensures
        last_rbracket(s) == Some(p),
    decreases s.len(),
{
    if p < s.len() - 1 {
        let t = s.drop_last();
        assert(forall|k: int| 0 <= k < t.len() ==> t[k] == s[k]);
        lemma_last_rbracket_at(t, p);
    }
}

proof fn lemma_last_rbracket_none(s: Seq<u8>)
    requires
        forall|k: int| 0 <= k < s.len() ==> s[k] != 93,
    ensures
        last_rbracket(s) is None,
    decreases s.len(),
{
    if s.len() > 0 {
        let t = s.drop_last();
        assert(forall|k: int| 0 <= k < t.len() ==> t[k] == s[k]);
        lemma_last_rbracket_none(t);
    }
}

/// A payload that holds the trade marker is classified as a trade event,
/// wherever in the text the marker stands.
pub proof fn lemma_trade_marker_wins(s: Seq<u8>)
    requires
        contains_seq(s, trade_marker()),
    ensures
        spec_classify(s) == MessageClass::Trade,
{
}

/// A payload whose first non-whitespace byte is not `[` is never treated
/// as array-wrapped.
pub proof fn lemma_not_array_wrapped(s: Seq<u8>)
    requires
        spec_skip_ws(s, 0) < s.len() ==> s[spec_skip_ws(s, 0)] != 91,
    ensures
        !spec_is_array_wrapped(s),
{
}

/// Unwrapping input without any closing bracket returns it unchanged.
pub proof fn lemma_strip_without_bracket_unchanged(s: Seq<u8>)
    requires
        forall|k: int| 0 <= k < s.len() ==> s[k] != 93,
    ensures
        spec_strip_array_wrapper(s) == s,
{
    lemma_last_rbracket_none(s);
}

/// Strips an array wrapper: skips the leading `[` and truncates at the last
/// `]`, so `[{...}]\n` yields `{...}`. Input without a closing bracket comes
/// back unchanged.
pub fn strip_array_wrapper<'a>(raw: &'a [u8]) -> (r: &'a [u8])
    ensures
        r@ == spec_strip_array_wrapper(raw@),
{
    let mut i = raw.len();
    while i > 0
        invariant
            0 <= i <= raw@.len(),
            forall|k: int| i <= k < raw@.len() ==> raw@[k] != 93,
        decreases i,
    {
        if raw[i - 1] == 93 {
            proof {
                lemma_last_rbracket_at(raw@, i - 1);
            }
            if i - 1 >= 1 {
                return vstd::slice::slice_subrange(raw, 1, i - 1);
            } else {
                return raw;
            }
        }
        i -= 1;
    }
    proof {
        lemma_last_rbracket_none(raw@);
    }
    raw
}

} // verus!
