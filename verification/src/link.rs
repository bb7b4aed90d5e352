//! Continuation-link header parsing.
//!
//! A continuation-link header is a comma-separated list of entries of
//! the form `<url>; rel="name"`. The resolver needs the entry whose
//! relation is `last`: the `page` query parameter of its URL is the
//! number of the last page. The parsing is deliberately minimal: split
//! on `,`, then `;`, then `=`.

use vstd::prelude::*;
use crate::bytes::{
    all_digits, dec_value, find_byte, split_on, trim, trim_start, trim_end, join_with,
    find_byte_index, split_bytes, trim_bytes, parse_u32_digits, lemma_find_byte,
    lemma_find_byte_is, lemma_split_on_join, SPACE,
};
use crate::errors::CollectError;

verus! {

/// ASCII comma.
pub const COMMA: u8 = 44;

/// ASCII semicolon.
pub const SEMICOLON: u8 = 59;

/// ASCII equals sign.
pub const EQUALS: u8 = 61;

/// ASCII `<`.
pub const LESS_THAN: u8 = 60;

/// ASCII `>`.
pub const GREATER_THAN: u8 = 62;

/// ASCII question mark.
pub const QUESTION: u8 = 63;

/// ASCII ampersand.
pub const AMPERSAND: u8 = 38;

/// The bytes of `rel`.
pub open spec fn rel_key() -> Seq<u8> {
    seq![114u8, 101u8, 108u8]
}

/// The bytes of `"last"`, quotes included.
pub open spec fn last_quoted() -> Seq<u8> {
    seq![34u8, 108u8, 97u8, 115u8, 116u8, 34u8]
}

/// The bytes of `page`.
pub open spec fn page_key() -> Seq<u8> {
    seq![112u8, 97u8, 103u8, 101u8]
}

/// An entry parameter that names the relation `last`: key `rel`,
/// value `"last"`, spaces around either ignored.
pub open spec fn spec_param_is_rel_last(p: Seq<u8>) -> bool {
    let f = find_byte(p, EQUALS);
    &&& f < p.len()
    &&& trim(p.subrange(0, f)) == rel_key()
    &&& trim(p.subrange(f + 1, p.len() as int)) == last_quoted()
}

/// Whether a comma-separated entry carries `rel="last"` among the
/// parameters after its URL part.
pub open spec fn spec_entry_names_last(e: Seq<u8>) -> bool {
    let parts = split_on(e, SEMICOLON);
    exists|i: int| 1 <= i < parts.len() && spec_param_is_rel_last(#[trigger] parts[i])
}

/// The URL part of an entry: the text before the first `;`, trimmed.
pub open spec fn spec_entry_url(e: Seq<u8>) -> Seq<u8> {
    trim(split_on(e, SEMICOLON)[0])
}

/// A query parameter assigning the key `page`.
pub open spec fn spec_is_page_param(p: Seq<u8>) -> bool {
    let f = find_byte(p, EQUALS);
    f < p.len() && p.subrange(0, f) == page_key()
}

/// The value of a query parameter (the text after the first `=`).
pub open spec fn spec_param_value(p: Seq<u8>) -> Seq<u8> {
    p.subrange(find_byte(p, EQUALS) + 1, p.len() as int)
}

/// The value of the first `page` parameter in a parameter list.
pub open spec fn first_page_value(ps: Seq<Seq<u8>>) -> Option<Seq<u8>>
    decreases ps.len(),
{
    if ps.len() == 0 {
        None
    } else if spec_is_page_param(ps[0]) {
        Some(spec_param_value(ps[0]))
    } else {
        first_page_value(ps.subrange(1, ps.len() as int))
    }
}

/// The digits of the `page` query parameter of an entry's URL: the URL
/// must be enclosed in angle brackets and carry a query with a `page`
/// key; `None` when any of those tokens is absent.
pub open spec fn spec_entry_page_digits(e: Seq<u8>) -> Option<Seq<u8>> {
    let u = spec_entry_url(e);
    if u.len() < 2 || u[0] != LESS_THAN || u.last() != GREATER_THAN {
        None
    } else {
        let inner = u.subrange(1, u.len() - 1);
        let qi = find_byte(inner, QUESTION);
        if qi == inner.len() {
            None
        } else {
            first_page_value(split_on(inner.subrange(qi + 1, inner.len() as int), AMPERSAND))
        }
    }
}

/// The first entry of the header that names the relation `last`.
pub open spec fn first_last_entry(es: Seq<Seq<u8>>) -> Option<Seq<u8>>
    decreases es.len(),
{
    if es.len() == 0 {
        None
    } else if spec_entry_names_last(es[0]) {
        Some(es[0])
    } else {
        first_last_entry(es.subrange(1, es.len() as int))
    }
}

/// What a continuation-link header says the last page is: `Ok(None)`
/// when no entry names the relation `last` (exactly one page exists),
/// `Ok(Some(k))` when the first such entry has a well-formed URL whose
/// `page` query parameter is the decimal number `k`, and a parse error
/// when that entry is malformed.
pub open spec fn spec_last_page(h: Seq<u8>) -> Result<Option<u32>, CollectError> {
    match first_last_entry(split_on(h, COMMA)) {
        Option::None => Ok(Option::None),
        Option::Some(e) => match spec_entry_page_digits(e) {
            Option::None => Err(CollectError::Parse),
            Option::Some(ds) => if ds.len() > 0 && all_digits(ds) && dec_value(ds) <= u32::MAX {
                Ok(Option::Some(dec_value(ds) as u32))
            } else {
                Err(CollectError::Parse)
            },
        },
    }
}

/// Skipping entries that do not name `last` leaves the chosen entry
/// unchanged.
proof fn lemma_first_last_entry_skip(es: Seq<Seq<u8>>, j: int)
    requires
        0 <= j <= es.len(),
        forall|i: int| 0 <= i < j ==> !spec_entry_names_last(#[trigger] es[i]),
    ensures
        first_last_entry(es) == first_last_entry(es.subrange(j, es.len() as int)),
    decreases j,
{
    if j > 0 {
        lemma_first_last_entry_skip(es, j - 1);
        let t = es.subrange(j - 1, es.len() as int);
        assert(!spec_entry_names_last(t[0]));
        assert(t.subrange(1, t.len() as int) =~= es.subrange(j, es.len() as int));
    } else {
        assert(es.subrange(0, es.len() as int) =~= es);
    }
}

/// Skipping query parameters that do not assign `page` leaves the
/// chosen value unchanged.
proof fn lemma_first_page_value_skip(ps: Seq<Seq<u8>>, j: int)
    requires
        0 <= j <= ps.len(),
        forall|i: int| 0 <= i < j ==> !spec_is_page_param(#[trigger] ps[i]),
    ensures
        first_page_value(ps) == first_page_value(ps.subrange(j, ps.len() as int)),
    decreases j,
{
    if j > 0 {
        lemma_first_page_value_skip(ps, j - 1);
        let t = ps.subrange(j - 1, ps.len() as int);
        assert(!spec_is_page_param(t[0]));
        assert(t.subrange(1, t.len() as int) =~= ps.subrange(j, ps.len() as int));
    } else {
        assert(ps.subrange(0, ps.len() as int) =~= ps);
    }
}

/// The text `<base?query>; rel="last"`.
pub open spec fn render_last_entry(base: Seq<u8>, query: Seq<u8>) -> Seq<u8> {
    seq![LESS_THAN] + base + seq![QUESTION] + query + seq![GREATER_THAN] + seq![
        SEMICOLON,
        SPACE,
    ] + rel_key() + seq![EQUALS] + last_quoted()
}

/// The text `page=` followed by `ds`.
pub open spec fn render_page_param(ds: Seq<u8>) -> Seq<u8> {
    page_key() + seq![EQUALS] + ds
}

/// Law: in a header assembled from comma-free entries in which entry
/// `i` is the first to name the relation `last`, and that entry's URL
/// carries the page digits `ds` denoting `k`, the parser reads `k`.
pub proof fn lemma_header_last_page(entries: Seq<Seq<u8>>, i: int, ds: Seq<u8>, k: u32)
    requires
        entries.len() >= 1,
        forall|a: int, b: int|
            0 <= a < entries.len() && 0 <= b < entries[a].len() ==> #[trigger] entries[a][b]
                != COMMA,
        0 <= i < entries.len(),
        spec_entry_names_last(entries[i]),
        forall|j: int| 0 <= j < i ==> !spec_entry_names_last(#[trigger] entries[j]),
        spec_entry_page_digits(entries[i]) == Some(ds),
        ds.len() > 0,
        all_digits(ds),
        dec_value(ds) == k,
    ensures
        spec_last_page(join_with(entries, COMMA)) == Ok::<Option<u32>, CollectError>(Some(k)),
{
    lemma_split_on_join(entries, COMMA);
    lemma_first_last_entry_skip(entries, i);
    let t = entries.subrange(i, entries.len() as int);
    assert(t[0] == entries[i]);
    assert(first_last_entry(entries) == Some(entries[i]));
}

/// Law: a header assembled from comma-free entries none of which names
/// the relation `last` resolves to no last page — exactly one page
/// exists.
pub proof fn lemma_header_without_last(entries: Seq<Seq<u8>>)
    requires
        entries.len() >= 1,
        forall|a: int, b: int|
            0 <= a < entries.len() && 0 <= b < entries[a].len() ==> #[trigger] entries[a][b]
                != COMMA,
        forall|j: int| 0 <= j < entries.len() ==> !spec_entry_names_last(#[trigger] entries[j]),
    ensures
        spec_last_page(join_with(entries, COMMA)) == Ok::<Option<u32>, CollectError>(
            Option::None,
        ),
{
    lemma_split_on_join(entries, COMMA);
    lemma_first_last_entry_skip(entries, entries.len() as int);
    assert(entries.subrange(entries.len() as int, entries.len() as int) =~= Seq::<
        Seq<u8>,
    >::empty());
}

/// Law: a header whose first `rel="last"` entry is malformed — its URL
/// carries no readable page number — raises a parse error rather than
/// silently defaulting.
pub proof fn lemma_header_malformed_last(entries: Seq<Seq<u8>>, i: int)
    requires
        entries.len() >= 1,
        forall|a: int, b: int|
            0 <= a < entries.len() && 0 <= b < entries[a].len() ==> #[trigger] entries[a][b]
                != COMMA,
        0 <= i < entries.len(),
        spec_entry_names_last(entries[i]),
        forall|j: int| 0 <= j < i ==> !spec_entry_names_last(#[trigger] entries[j]),
        match spec_entry_page_digits(entries[i]) {
            Option::None => true,
            Option::Some(ds) => !(ds.len() > 0 && all_digits(ds) && dec_value(ds) <= u32::MAX),
        },
    ensures
        spec_last_page(join_with(entries, COMMA)) == Err::<Option<u32>, CollectError>(
            CollectError::Parse,
        ),
{
    lemma_split_on_join(entries, COMMA);
    lemma_first_last_entry_skip(entries, i);
    let t = entries.subrange(i, entries.len() as int);
    assert(t[0] == entries[i]);
    assert(first_last_entry(entries) == Some(entries[i]));
}

/// Law: an entry rendered as `<base?query>; rel="last"` names the
/// relation `last`, and its page digits are whatever the first `page`
/// parameter of `query` assigns.
pub proof fn lemma_rendered_last_entry(base: Seq<u8>, query: Seq<u8>)
    requires
        forall|j: int|
            0 <= j < base.len() ==> #[trigger] base[j] != SEMICOLON && base[j] != QUESTION,
        forall|j: int| 0 <= j < query.len() ==> #[trigger] query[j] != SEMICOLON,
    ensures
        spec_entry_names_last(render_last_entry(base, query)),
        spec_entry_page_digits(render_last_entry(base, query)) == first_page_value(
            split_on(query, AMPERSAND),
        ),
{
    let e = render_last_entry(base, query);
    let url_part = seq![LESS_THAN] + base + seq![QUESTION] + query + seq![GREATER_THAN];
    let param = seq![SPACE] + rel_key() + seq![EQUALS] + last_quoted();
    assert(param =~= seq![
        SPACE,
        114u8,
        101u8,
        108u8,
        EQUALS,
        34u8,
        108u8,
        97u8,
        115u8,
        116u8,
        34u8,
    ]);
    assert(e =~= url_part + seq![SEMICOLON] + param);
    let two = seq![url_part, param];
    assert forall|a: int, b: int|
        0 <= a < two.len() && 0 <= b < two[a].len() implies #[trigger] two[a][b] != SEMICOLON by {
        if a == 0 {
            assert(two[a] == url_part);
            if 1 <= b < 1 + base.len() {
                assert(url_part[b] == base[b - 1]);
            } else if 2 + base.len() <= b < 2 + base.len() + query.len() {
                assert(url_part[b] == query[b - 2 - base.len()]);
            }
        } else {
            assert(two[a] == param);
        }
    }
    assert(join_with(two, SEMICOLON) =~= url_part + seq![SEMICOLON] + param) by {
        assert(two.subrange(1, 2) =~= seq![param]);
        assert(join_with(seq![param], SEMICOLON) == param);
    }
    lemma_split_on_join(two, SEMICOLON);
    assert(split_on(e, SEMICOLON) == two);
    // The parameter reads rel="last".
    assert(spec_param_is_rel_last(param)) by {
        assert forall|j: int| 0 <= j < 4 implies param[j] != EQUALS by {}
        assert(param[4] == EQUALS);
        lemma_find_byte_is(param, EQUALS, 4);
        let key = param.subrange(0, 4);
        let s1 = seq![114u8, 101u8, 108u8];
        assert(key =~= seq![SPACE, 114u8, 101u8, 108u8]);
        assert(key.subrange(1, 4) =~= s1);
        assert(trim_start(key) == trim_start(s1));
        assert(trim_start(s1) == s1);
        assert(trim_end(s1) == s1);
        assert(s1 =~= rel_key());
        let value = param.subrange(5, param.len() as int);
        assert(value =~= last_quoted());
        assert(trim_start(value) == value);
        assert(trim_end(value) == value);
    }
    assert(spec_entry_names_last(e)) by {
        assert(split_on(e, SEMICOLON)[1] == param);
    }
    // The URL part needs no trimming and has the bracketed shape.
    assert(spec_entry_url(e) == url_part) by {
        assert(split_on(e, SEMICOLON)[0] == url_part);
        assert(url_part[0] == LESS_THAN);
        assert(trim_start(url_part) == url_part);
        assert(url_part.last() == GREATER_THAN);
        assert(trim_end(url_part) == url_part);
    }
    assert(url_part.len() >= 2);
    assert(url_part[0] == LESS_THAN);
    assert(url_part.last() == GREATER_THAN);
    let inner = url_part.subrange(1, url_part.len() - 1);
    assert(inner =~= base + seq![QUESTION] + query);
    assert forall|j: int| 0 <= j < base.len() implies inner[j] != QUESTION by {
        assert(inner[j] == base[j]);
    }
    assert(inner[base.len() as int] == QUESTION);
    lemma_find_byte_is(inner, QUESTION, base.len() as int);
    assert(inner.subrange(base.len() as int + 1, inner.len() as int) =~= query);
}

/// Law: among ampersand-joined query parameters whose earlier entries
/// do not assign `page`, a parameter rendered as `page=ds` at position
/// `i` is the one the parser reads, and its value is `ds`.
pub proof fn lemma_query_page_value(params: Seq<Seq<u8>>, i: int, ds: Seq<u8>)
    requires
        params.len() >= 1,
        forall|a: int, b: int|
            0 <= a < params.len() && 0 <= b < params[a].len() ==> #[trigger] params[a][b]
                != AMPERSAND,
        0 <= i < params.len(),
        forall|j: int| 0 <= j < i ==> !spec_is_page_param(#[trigger] params[j]),
        params[i] == render_page_param(ds),
        forall|j: int| 0 <= j < ds.len() ==> #[trigger] ds[j] != EQUALS,
    ensures
        first_page_value(split_on(join_with(params, AMPERSAND), AMPERSAND)) == Some(ds),
{
    lemma_split_on_join(params, AMPERSAND);
    lemma_first_page_value_skip(params, i);
    let p = params[i];
    assert(p =~= page_key() + seq![EQUALS] + ds);
    assert forall|j: int| 0 <= j < 4 implies p[j] != EQUALS by {
        assert(p[j] == page_key()[j]);
    }
    assert(p[4] == EQUALS);
    lemma_find_byte_is(p, EQUALS, 4);
    assert(p.subrange(0, 4) =~= page_key());
    assert(spec_is_page_param(p));
    assert(spec_param_value(p) =~= ds);
    let t = params.subrange(i, params.len() as int);
    assert(t[0] == p);
    assert(first_page_value(t) == Some(spec_param_value(p)));
}

/// Whether `v` holds exactly the bytes of `rel`.
fn is_rel_key(v: &[u8]) -> (r: bool)
    ensures
        r == (v@ == rel_key()),
{
    if v.len() != 3 {
        return false;
    }
    if v[0] != 114 || v[1] != 101 || v[2] != 108 {
        return false;
    }
    proof {
        assert(v@ =~= rel_key());
    }
    true
}

/// Whether `v` holds exactly the bytes of `"last"`.
fn is_last_quoted(v: &[u8]) -> (r: bool)
    ensures
        r == (v@ == last_quoted()),
{
    if v.len() != 6 {
        return false;
    }
    if v[0] != 34 || v[1] != 108 || v[2] != 97 || v[3] != 115 || v[4] != 116 || v[5] != 34 {
        return false;
    }
    proof {
        assert(v@ =~= last_quoted());
    }
    true
}

/// Whether `v` holds exactly the bytes of `page`.
fn is_page_key(v: &[u8]) -> (r: bool)
    ensures
        r == (v@ == page_key()),
{
    if v.len() != 4 {
        return false;
    }
    if v[0] != 112 || v[1] != 97 || v[2] != 103 || v[3] != 101 {
        return false;
    }
    proof {
        assert(v@ =~= page_key());
    }
    true
}

/// Whether one `;`-separated parameter reads `rel="last"`.
fn param_is_rel_last(p: &[u8]) -> (r: bool)
    ensures
        r == spec_param_is_rel_last(p@),
{
    let f = find_byte_index(p, EQUALS);
    if f == p.len() {
        return false;
    }
    let key = trim_bytes(&p[0..f]);
    if !is_rel_key(key.as_slice()) {
        return false;
    }
    let value = trim_bytes(&p[f + 1..p.len()]);
    is_last_quoted(value.as_slice())
}

/// Whether a header entry carries `rel="last"`.
fn entry_names_last(e: &[u8]) -> (r: bool)
    ensures
        r == spec_entry_names_last(e@),
{
    let parts = split_bytes(e, SEMICOLON);
    let ghost pview = parts@.map_values(|v: Vec<u8>| v@);
    let mut j: usize = 1;
    while j < parts.len()
        invariant
            1 <= j <= parts@.len(),
            pview == parts@.map_values(|v: Vec<u8>| v@),
            pview == split_on(e@, SEMICOLON),
            forall|i: int| 1 <= i < j ==> !spec_param_is_rel_last(#[trigger] pview[i]),
        decreases parts@.len() - j,
    {
        if param_is_rel_last(parts[j].as_slice()) {
            proof {
                assert(split_on(e@, SEMICOLON)[j as int] == parts@[j as int]@);
            }
            return true;
        }
        proof {
            assert(pview[j as int] == parts@[j as int]@);
        }
        j = j + 1;
    }
    false
}

/// Reads the last-page number out of a continuation-link header, going
/// by the first entry whose relation is `last`: `Ok(None)` when no
/// entry names it, `Ok(Some(k))` when its URL's `page` query parameter
/// is `k`, and a parse error when the entry is malformed.
pub fn last_page_from_link(header: &[u8]) -> (r: Result<Option<u32>, CollectError>)
    ensures
        r == spec_last_page(header@),
{
    let entries = split_bytes(header, COMMA);
    let ghost eview = entries@.map_values(|v: Vec<u8>| v@);
    let mut j: usize = 0;
    let mut found: bool = false;
    while j < entries.len() && !found
        invariant
            0 <= j <= entries@.len(),
            eview == entries@.map_values(|v: Vec<u8>| v@),
            eview == split_on(header@, COMMA),
            forall|i: int| 0 <= i < j ==> !spec_entry_names_last(#[trigger] eview[i]),
            found ==> j < entries@.len() && spec_entry_names_last(eview[j as int]),
        decreases entries@.len() - j - (if found { 1int } else { 0int }),
    {
        if entry_names_last(entries[j].as_slice()) {
            found = true;
        } else {
            j = j + 1;
        }
    }
    if !found {
        proof {
            lemma_first_last_entry_skip(eview, eview.len() as int);
            assert(eview.subrange(eview.len() as int, eview.len() as int) =~= Seq::<
                Seq<u8>,
            >::empty());
        }
        return Ok(None);
    }
    let chosen: usize = j;
    proof {
        lemma_first_last_entry_skip(eview, chosen as int);
        let t = eview.subrange(chosen as int, eview.len() as int);
        assert(t[0] == eview[chosen as int]);
        assert(first_last_entry(eview) == Some(eview[chosen as int]));
    }
    let ghost e = eview[chosen as int];
    // Parse the chosen entry's URL for its page parameter.
    let parts = split_bytes(entries[chosen].as_slice(), SEMICOLON);
    let url = trim_bytes(parts[0].as_slice());
    proof {
        assert(parts@.map_values(|v: Vec<u8>| v@)[0] == parts@[0]@);
        assert(url@ == spec_entry_url(e));
    }
    if url.len() < 2 {
        return Err(CollectError::Parse);
    }
    if url[0] != LESS_THAN || url[url.len() - 1] != GREATER_THAN {
        return Err(CollectError::Parse);
    }
    let url_slice = url.as_slice();
    let inner = &url_slice[1..url.len() - 1];
    proof {
        assert(inner@ == url@.subrange(1, url@.len() - 1));
    }
    let qi = find_byte_index(inner, QUESTION);
    if qi == inner.len() {
        return Err(CollectError::Parse);
    }
    let query = &inner[qi + 1..inner.len()];
    let params = split_bytes(query, AMPERSAND);
    let ghost qview = params@.map_values(|v: Vec<u8>| v@);
    proof {
        assert(query@ == inner@.subrange(qi as int + 1, inner@.len() as int));
        assert(qview == split_on(query@, AMPERSAND));
        assert(qview.subrange(0, qview.len() as int) =~= qview);
    }
    let mut k: usize = 0;
    while k < params.len()
        invariant
            0 <= k <= params@.len(),
            qview == params@.map_values(|v: Vec<u8>| v@),
            first_page_value(qview) == first_page_value(
                qview.subrange(k as int, qview.len() as int),
            ),
            spec_entry_page_digits(e) == first_page_value(qview),
            spec_last_page(header@) == match spec_entry_page_digits(e) {
                Option::None => Result::<Option<u32>, CollectError>::Err(CollectError::Parse),
                Option::Some(ds) => if ds.len() > 0 && all_digits(ds) && dec_value(ds)
                    <= u32::MAX {
                    Result::<Option<u32>, CollectError>::Ok(Option::Some(dec_value(ds) as u32))
                } else {
                    Result::<Option<u32>, CollectError>::Err(CollectError::Parse)
                },
            },
        decreases params@.len() - k,
    {
        let p = params[k].as_slice();
        proof {
            assert(p@ == qview[k as int]);
        }
        let f = find_byte_index(p, EQUALS);
        let is_page = if f == p.len() {
            proof {
                lemma_find_byte(p@, EQUALS);
            }
            false
        } else {
            is_page_key(&p[0..f])
        };
        if is_page {
            proof {
                assert(p@.subrange(0, f as int) == page_key());
                assert(spec_is_page_param(qview[k as int]));
                let t = qview.subrange(k as int, qview.len() as int);
                assert(t[0] == qview[k as int]);
                assert(first_page_value(qview) == Some(spec_param_value(qview[k as int])));
            }
            let digits = &p[f + 1..p.len()];
            proof {
                assert(digits@ == spec_param_value(p@));
            }
            match parse_u32_digits(digits) {
                Some(n) => {
                    return Ok(Some(n));
                },
                None => {
                    return Err(CollectError::Parse);
                },
            }
        }
        proof {
            let t = qview.subrange(k as int, qview.len() as int);
            assert(t[0] == qview[k as int]);
            assert(t.subrange(1, t.len() as int) =~= qview.subrange(
                k as int + 1,
                qview.len() as int,
            ));
        }
        k = k + 1;
    }
    proof {
        assert(qview.subrange(qview.len() as int, qview.len() as int) =~= Seq::<Seq<u8>>::empty());
    }
    Err(CollectError::Parse)
}

} // verus!
