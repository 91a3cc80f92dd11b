//! Market metadata types for the REST listing endpoint.
//!
//! The HTTP call itself is an external collaborator; this module holds the
//! request parameters, the query-string pairs they turn into, and the
//! assembly of a market record from its raw wire fields.

use vstd::prelude::*;

use crate::book::ascii_chars;
use crate::codec::dec_digits;

verus! {

/// Decimal character string of `n`.
pub open spec fn dec_chars(n: nat) -> Seq<char> {
    ascii_chars(dec_digits(n))
}

fn push_digit_chars(n: u64, out: &mut String)
    ensures
        final(out)@ == old(out)@ + dec_chars(n as nat),
    decreases n,
{
    if n >= 10 {
        push_digit_chars(n / 10, out);
    }
    let d = n % 10;
    let ds: &str = if d == 0 {
        "0"
    } else if d == 1 {
        "1"
    } else if d == 2 {
        "2"
    } else if d == 3 {
        "3"
    } else if d == 4 {
        "4"
    } else if d == 5 {
        "5"
    } else if d == 6 {
        "6"
    } else if d == 7 {
        "7"
    } else if d == 8 {
        "8"
    } else {
        "9"
    };
    proof {
        reveal_strlit("0");
        reveal_strlit("1");
        reveal_strlit("2");
        reveal_strlit("3");
        reveal_strlit("4");
        reveal_strlit("5");
        reveal_strlit("6");
        reveal_strlit("7");
        reveal_strlit("8");
        reveal_strlit("9");
        assert(ds@ =~= seq![((48 + n % 10) as u8) as char]);
    }
    out.append(ds);
    proof {
        if n < 10 {
            assert(dec_chars(n as nat) =~= seq![((48 + n % 10) as u8) as char]);
        } else {
            assert(dec_chars(n as nat) =~= dec_chars((n / 10) as nat) + seq![
                ((48 + n % 10) as u8) as char,
            ]);
        }
    }
}

/// Formats a plain integer in decimal, as it appears in a query string.
pub fn u64_to_string(n: u64) -> (s: String)
    ensures
        s@ == dec_chars(n as nat),
{
    let mut s = String::new();
    push_digit_chars(n, &mut s);
    s
}

/// The character string a flag renders to.
pub open spec fn bool_chars(b: bool) -> Seq<char> {
    if b {
        "true"@
    } else {
        "false"@
    }
}

fn bool_to_string(b: bool) -> (s: String)
    ensures
        s@ == bool_chars(b),
{
    if b {
        String::from_str("true")
    } else {
        String::from_str("false")
    }
}

/// Selection parameters for listing markets.
#[derive(Debug)]
pub struct ListMarketParams {
    pub tag_id: Option<u64>,
    pub order: Option<String>,
    pub ascending: Option<bool>,
}

impl Default for ListMarketParams {
    /// No filters: every field absent.
    fn default() -> (r: Self)
        ensures
            r.tag_id is None,
            r.order is None,
            r.ascending is None,
    {
        ListMarketParams { tag_id: None, order: None, ascending: None }
    }
}

/// The key/value pairs `to_query_params` yields, in order: `tag_id`, then
/// `order`, then `ascending`, each only when present.
pub open spec fn spec_query_params(
    tag_id: Option<u64>,
    order: Option<Seq<char>>,
    ascending: Option<bool>,
) -> Seq<(Seq<char>, Seq<char>)> {
    (match tag_id {
        Some(v) => seq![("tag_id"@, dec_chars(v as nat))],
        None => Seq::empty(),
    }) + (match order {
        Some(s) => seq![("order"@, s)],
        None => Seq::empty(),
    }) + (match ascending {
        Some(b) => seq![("ascending"@, bool_chars(b))],
        None => Seq::empty(),
    })
}

impl ListMarketParams {
    /// Renders the present fields as query-string pairs, in a fixed order.
    pub fn to_query_params(&self) -> (r: Vec<(&'static str, String)>)
        ensures
            r.deep_view() == spec_query_params(
                self.tag_id,
                match self.order {
                    Some(ref s) => Some(s@),
                    None => None,
                },
                self.ascending,
            ),
    {
        let mut params: Vec<(&'static str, String)> = Vec::new();
        if let Some(tag_id) = self.tag_id {
            params.push(("tag_id", u64_to_string(tag_id)));
        }
        if let Some(ref order) = self.order {
            params.push(("order", order.clone()));
        }
        if let Some(ascending) = self.ascending {
            params.push(("ascending", bool_to_string(ascending)));
        }
        proof {
            assert(params.deep_view() =~= spec_query_params(
                self.tag_id,
                match self.order {
                    Some(ref s) => Some(s@),
                    None => None,
                },
                self.ascending,
            ));
        }
        params
    }
}

/// One outcome token of a market.
#[derive(Debug, Clone)]
pub struct Token {
    pub token_id: String,
    pub outcome: String,
}

/// A market descriptor as the listing endpoint reports it.
#[derive(Debug, Clone)]
pub struct Market {
    pub id: String,
    pub condition_id: String,
    pub slug: String,
    pub tokens: Vec<Token>,
    pub active: bool,
    pub closed: bool,
    pub end_date: Option<String>,
}

impl Market {
    /// Assembles a market from its raw wire fields, pairing each token id
    /// with its outcome positionally; a surplus of either list is dropped.
    pub fn from_wire_fields(
        id: String,
        condition_id: String,
        slug: String,
        outcomes: Vec<String>,
        clob_token_ids: Vec<String>,
        active: bool,
        closed: bool,
        end_date: Option<String>,
    ) -> (r: Market)
        ensures
            r.id@ == id@,
            r.condition_id@ == condition_id@,
            r.slug@ == slug@,
            r.active == active,
            r.closed == closed,
            r.end_date == end_date,
            r.tokens@.len() == vstd::math::min(outcomes@.len() as int, clob_token_ids@.len() as int),
            forall|i: int|
                0 <= i < r.tokens@.len() ==> r.tokens@[i].token_id@ == clob_token_ids@[i]@
                    && r.tokens@[i].outcome@ == outcomes@[i]@,
    {
        let n = if outcomes.len() <= clob_token_ids.len() {
            outcomes.len()
        } else {
            clob_token_ids.len()
        };
        let mut tokens: Vec<Token> = Vec::new();
        let mut i: usize = 0;
        while i < n
            invariant
                n <= outcomes@.len(),
                n <= clob_token_ids@.len(),
                0 <= i <= n,
                tokens@.len() == i,
                forall|k: int|
                    0 <= k < i ==> tokens@[k].token_id@ == clob_token_ids@[k]@
                        && tokens@[k].outcome@ == outcomes@[k]@,
            decreases n - i,
        {
            tokens.push(
                Token { token_id: clob_token_ids[i].clone(), outcome: outcomes[i].clone() },
            );
            i += 1;
        }
        Market { id, condition_id, slug, tokens, active, closed, end_date }
    }
}

} // verus!
