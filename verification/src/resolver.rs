//! Pagination resolver: determines the amount of remote work for a
//! listing endpoint, from a continuation-link header or from a reported
//! total item count.

use vstd::prelude::*;
use vstd::arithmetic::div_mod::lemma_fundamental_div_mod;
use vstd::string::StringSliceAdditionalSpecFns;
use crate::bytes::{all_digits, dec_value, parse_u32_digits};
use crate::errors::CollectError;
use crate::link::spec_last_page;
use crate::link::last_page_from_link;

verus! {

/// ASCII plus sign.
pub const PLUS: u8 = 43;

/// What a listing endpoint offers the resolver: a continuation-link
/// header (possibly absent) or a reported total item count.
pub enum ResolveInput {
    LinkHeader(Option<Vec<u8>>),
    TotalCount(u32),
}

/// The amount of remote work: a number of pages, or a number of items
/// still to be divided into pages.
#[derive(Clone, Copy, Debug, PartialEq, Eq, Structural)]
pub enum ResolvedTotal {
    PageCount(u32),
    ItemCount(u32),
}

impl ResolvedTotal {
    /// The number of pages this amount of work spans at `page_size`
    /// items per page.
    pub fn pages(&self, page_size: u32) -> (r: u32)
        requires
            page_size >= 1,
        ensures
            *self matches ResolvedTotal::PageCount(k) ==> r == k,
            *self matches ResolvedTotal::ItemCount(t) ==> r == spec_page_count(
                t as int,
                page_size as int,
            ),
    {
        match self {
            ResolvedTotal::PageCount(k) => *k,
            ResolvedTotal::ItemCount(t) => pages_for_count(*t, page_size),
        }
    }
}

/// Resolves the total amount of remote work. Under the link-header
/// strategy an absent header means exactly one page, a header with a
/// `rel="last"` entry names the last page, and a malformed entry is a
/// parse error. Under the count strategy the reported total is passed
/// through; zero is a valid amount meaning no work.
pub fn resolve_total(input: &ResolveInput) -> (r: Result<ResolvedTotal, CollectError>)
    ensures
        match *input {
            ResolveInput::LinkHeader(Option::None) => r == Ok::<ResolvedTotal, CollectError>(
                ResolvedTotal::PageCount(1),
            ),
            ResolveInput::LinkHeader(Option::Some(h)) => (match spec_last_page(h@) {
                Ok(Option::Some(k)) => r == Ok::<ResolvedTotal, CollectError>(
                    ResolvedTotal::PageCount(k),
                ),
                Ok(Option::None) => r == Ok::<ResolvedTotal, CollectError>(
                    ResolvedTotal::PageCount(1),
                ),
                Err(e) => r == Err::<ResolvedTotal, CollectError>(e),
            }),
            ResolveInput::TotalCount(t) => r == Ok::<ResolvedTotal, CollectError>(
                ResolvedTotal::ItemCount(t),
            ),
        },
{
    match input {
        ResolveInput::LinkHeader(Option::None) => Ok(ResolvedTotal::PageCount(1)),
        ResolveInput::LinkHeader(Option::Some(h)) => match last_page_from_link(h.as_slice()) {
            Ok(Option::Some(k)) => Ok(ResolvedTotal::PageCount(k)),
            Ok(Option::None) => Ok(ResolvedTotal::PageCount(1)),
            Err(e) => Err(e),
        },
        ResolveInput::TotalCount(t) => Ok(ResolvedTotal::ItemCount(*t)),
    }
}

/// The number a decimal byte string denotes, when it is nonempty, all
/// digits, and fits a `u32`.
pub open spec fn spec_parse_u32(s: Seq<u8>) -> Option<u32> {
    if s.len() > 0 && all_digits(s) && dec_value(s) <= u32::MAX {
        Option::Some(dec_value(s) as u32)
    } else {
        Option::None
    }
}

/// The number a caller-supplied text denotes: an optional leading `+`
/// followed by decimal digits.
pub open spec fn spec_accepted_number(s: Seq<u8>) -> Option<u32> {
    if s.len() >= 1 && s[0] == PLUS {
        spec_parse_u32(s.subrange(1, s.len() as int))
    } else {
        spec_parse_u32(s)
    }
}

/// Validates a caller-supplied pull-request number: a nonnegative
/// integer that fits a `u32`.
pub fn is_valid_number(s: &str) -> (r: Result<u32, String>)
    ensures
        match r {
            Ok(n) => spec_accepted_number(s.spec_bytes()) == Option::Some(n),
            Err(m) => spec_accepted_number(s.spec_bytes()) is None && m@
                == "Must be a positive integer"@,
        },
{
    let b = s.as_bytes();
    let parsed: Option<u32> = if b.len() >= 1 && b[0] == PLUS {
        parse_u32_digits(&b[1..b.len()])
    } else {
        parse_u32_digits(b)
    };
    match parsed {
        Some(n) => Ok(n),
        None => Err("Must be a positive integer".to_owned()),
    }
}

/// Ceiling division: the number of pages needed to hold `total` items
/// at `page_size` items per page.
pub open spec fn spec_page_count(total: int, page_size: int) -> int {
    (total + page_size - 1) / page_size
}

/// Number of pages needed to list `total` items at `page_size` items
/// per page; zero items need zero pages.
pub fn pages_for_count(total: u32, page_size: u32) -> (r: u32)
    requires
        page_size >= 1,
    ensures
        r == spec_page_count(total as int, page_size as int),
        total == 0 ==> r == 0,
        total >= 1 ==> r >= 1,
{
    let q: u32 = total / page_size;
    let rem: u32 = total % page_size;
    proof {
        let t = total as int;
        let p = page_size as int;
        lemma_fundamental_div_mod(t, p);
        let qi = q as int;
        let ri = rem as int;
        assert(ri > 0 ==> qi < t) by (nonlinear_arith)
            requires
                p >= 1,
                t == p * qi + ri,
                0 <= ri < p,
                qi >= 0,
        {
        }
    }
    let r: u32 = if rem != 0 { q + 1 } else { q };
    proof {
        let t = total as int;
        let p = page_size as int;
        assert(r == spec_page_count(t, p) && (t == 0 ==> r == 0) && (t >= 1 ==> r >= 1))
            by (nonlinear_arith)
            requires
                p >= 1,
                t >= 0,
                t == p * q + rem,
                0 <= rem < p,
                q >= 0,
                r == if rem != 0 { q + 1 as int } else { q as int },
                spec_page_count(t, p) == (t + p - 1) / p,
        {
        }
    }
    r
}

} // verus!
