//! Byte-level text utilities: finding a delimiter, splitting, trimming
//! and decimal parsing, each with an exact specification.

use vstd::prelude::*;

verus! {

/// ASCII space.
pub const SPACE: u8 = 32;

/// ASCII digit zero.
pub const DIGIT_ZERO: u8 = 48;

/// ASCII digit nine.
pub const DIGIT_NINE: u8 = 57;

// --- finding a delimiter ---

/// Index of the first occurrence of `d` in `s`, or `s.len()` when `d`
/// does not occur.
pub open spec fn find_byte(s: Seq<u8>, d: u8) -> int
    decreases s.len(),
{
    if s.len() == 0 {
        0
    } else if s[0] == d {
        0
    } else {
        1 + find_byte(s.subrange(1, s.len() as int), d)
    }
}

pub proof fn lemma_find_byte(s: Seq<u8>, d: u8)
    ensures
        0 <= find_byte(s, d) <= s.len(),
        find_byte(s, d) < s.len() ==> s[find_byte(s, d)] == d,
        forall|j: int| 0 <= j < find_byte(s, d) ==> s[j] != d,
    decreases s.len(),
{
    if s.len() != 0 && s[0] != d {
        let t = s.subrange(1, s.len() as int);
        lemma_find_byte(t, d);
        assert forall|j: int| 0 <= j < find_byte(s, d) implies s[j] != d by {
            if j >= 1 {
                assert(t[j - 1] == s[j]);
            }
        }
    }
}

/// `find_byte` returns exactly the first position of `d`.
pub proof fn lemma_find_byte_is(s: Seq<u8>, d: u8, k: int)
    requires
        0 <= k <= s.len(),
        forall|j: int| 0 <= j < k ==> s[j] != d,
        k < s.len() ==> s[k] == d,
    ensures
        find_byte(s, d) == k,
    decreases s.len(),
{
    if s.len() == 0 {
    } else if s[0] == d {
        assert(k == 0);
    } else {
        let t = s.subrange(1, s.len() as int);
        assert(k >= 1);
        assert forall|j: int| 0 <= j < k - 1 implies t[j] != d by {
            assert(t[j] == s[j + 1]);
        }
        assert(k - 1 < t.len() ==> t[k - 1] == s[k]);
        lemma_find_byte_is(t, d, k - 1);
    }
}

// --- splitting on a delimiter ---

/// The segments of `s` between occurrences of `d`; one segment more
/// than there are occurrences, so never empty.
pub open spec fn split_on(s: Seq<u8>, d: u8) -> Seq<Seq<u8>>
    decreases s.len(),
    via split_on_decreases
{
    let i = find_byte(s, d);
    if i == s.len() {
        seq![s]
    } else {
        seq![s.subrange(0, i)] + split_on(s.subrange(i + 1, s.len() as int), d)
    }
}

#[via_fn]
proof fn split_on_decreases(s: Seq<u8>, d: u8) {
    lemma_find_byte(s, d);
}

/// Splitting at a known first delimiter: if no `d` occurs before `i`
/// and `s[i] == d`, the split is the head segment followed by the split
/// of the tail.
pub proof fn lemma_split_on_step(s: Seq<u8>, d: u8, i: int)
    requires
        0 <= i < s.len(),
        s[i] == d,
        forall|j: int| 0 <= j < i ==> s[j] != d,
    ensures
        split_on(s, d) == seq![s.subrange(0, i)] + split_on(
            s.subrange(i + 1, s.len() as int),
            d,
        ),
{
    lemma_find_byte_is(s, d, i);
}

/// Splitting a delimiter-free sequence yields that one segment.
pub proof fn lemma_split_on_whole(s: Seq<u8>, d: u8)
    requires
        forall|j: int| 0 <= j < s.len() ==> s[j] != d,
    ensures
        split_on(s, d) == seq![s],
{
    lemma_find_byte_is(s, d, s.len() as int);
}

/// Splits `s` into the segments between occurrences of `d`.
pub fn split_bytes(s: &[u8], d: u8) -> (r: Vec<Vec<u8>>)
    ensures
        r@.map_values(|v: Vec<u8>| v@) == split_on(s@, d),
        r@.len() >= 1,
{
    let mut r: Vec<Vec<u8>> = Vec::new();
    let mut cur: Vec<u8> = Vec::new();
    let mut start: usize = 0;
    let mut i: usize = 0;
    proof {
        assert(s@.subrange(0, s@.len() as int) =~= s@);
        assert(r@.map_values(|v: Vec<u8>| v@) =~= Seq::<Seq<u8>>::empty());
        assert(Seq::<Seq<u8>>::empty() + split_on(s@, d) =~= split_on(s@, d));
        assert(cur@ =~= s@.subrange(0, 0));
    }
    while i < s.len()
        invariant
            0 <= start <= i <= s@.len(),
            cur@ == s@.subrange(start as int, i as int),
            forall|j: int| start <= j < i ==> s@[j] != d,
            split_on(s@, d) == r@.map_values(|v: Vec<u8>| v@) + split_on(
                s@.subrange(start as int, s@.len() as int),
                d,
            ),
        decreases s@.len() - i,
    {
        let b = s[i];
        if b == d {
            proof {
                let rest = s@.subrange(start as int, s@.len() as int);
                assert forall|j: int| 0 <= j < i - start implies rest[j] != d by {
                    assert(rest[j] == s@[start + j]);
                }
                assert(rest[i - start] == d);
                lemma_split_on_step(rest, d, i - start);
                assert(rest.subrange(0, i - start) =~= s@.subrange(start as int, i as int));
                assert(rest.subrange(i - start + 1, rest.len() as int) =~= s@.subrange(
                    i as int + 1,
                    s@.len() as int,
                ));
                assert(r@.push(cur).map_values(|v: Vec<u8>| v@) =~= r@.map_values(
                    |v: Vec<u8>| v@,
                ).push(cur@));
            }
            r.push(cur);
            cur = Vec::new();
            start = i + 1;
            proof {
                assert(cur@ =~= s@.subrange(start as int, start as int));
            }
        } else {
            cur.push(b);
            proof {
                assert(cur@ =~= s@.subrange(start as int, i as int + 1));
            }
        }
        i = i + 1;
    }
    proof {
        let rest = s@.subrange(start as int, s@.len() as int);
        assert forall|j: int| 0 <= j < rest.len() implies rest[j] != d by {
            assert(rest[j] == s@[start + j]);
        }
        lemma_split_on_whole(rest, d);
        assert(cur@ =~= rest);
        assert(r@.push(cur).map_values(|v: Vec<u8>| v@) =~= r@.map_values(
            |v: Vec<u8>| v@,
        ).push(cur@));
    }
    r.push(cur);
    proof {
        assert(r@.map_values(|v: Vec<u8>| v@) =~= split_on(s@, d));
    }
    r
}

/// The segments of `xs` joined with the delimiter `d` between them.
pub open spec fn join_with(xs: Seq<Seq<u8>>, d: u8) -> Seq<u8>
    decreases xs.len(),
{
    if xs.len() == 0 {
        Seq::empty()
    } else if xs.len() == 1 {
        xs[0]
    } else {
        xs[0] + seq![d] + join_with(xs.subrange(1, xs.len() as int), d)
    }
}

/// Splitting a join on its own delimiter recovers the segments, as long
/// as no segment holds the delimiter.
pub proof fn lemma_split_on_join(xs: Seq<Seq<u8>>, d: u8)
    requires
        xs.len() >= 1,
        forall|a: int, b: int| 0 <= a < xs.len() && 0 <= b < xs[a].len() ==> #[trigger] xs[a][b]
            != d,
    ensures
        split_on(join_with(xs, d), d) == xs,
    decreases xs.len(),
{
    if xs.len() == 1 {
        let s = join_with(xs, d);
        assert(s == xs[0]);
        assert forall|j: int| 0 <= j < s.len() implies s[j] != d by {
            assert(xs[0][j] != d);
        }
        lemma_split_on_whole(s, d);
        assert(seq![s] =~= xs);
    } else {
        let rest = xs.subrange(1, xs.len() as int);
        let s = join_with(xs, d);
        let n0 = xs[0].len() as int;
        assert(s == xs[0] + seq![d] + join_with(rest, d));
        assert(s.len() == n0 + 1 + join_with(rest, d).len());
        assert forall|j: int| 0 <= j < n0 implies s[j] != d by {
            assert(s[j] == xs[0][j]);
        }
        assert(s[n0] == d);
        lemma_split_on_step(s, d, n0);
        assert(s.subrange(0, n0) =~= xs[0]);
        assert(s.subrange(n0 + 1, s.len() as int) =~= join_with(rest, d));
        assert forall|a: int, b: int|
            0 <= a < rest.len() && 0 <= b < rest[a].len() implies #[trigger] rest[a][b] != d by {
            assert(rest[a] == xs[a + 1]);
            assert(xs[a + 1][b] != d);
        }
        lemma_split_on_join(rest, d);
        assert(seq![xs[0]] + rest =~= xs);
    }
}

/// Index of the first occurrence of `d` in `s`, or `s.len()` when `d`
/// does not occur.
pub fn find_byte_index(s: &[u8], d: u8) -> (r: usize)
    ensures
        r == find_byte(s@, d),
        0 <= r <= s@.len(),
        r < s@.len() ==> s@[r as int] == d,
        forall|j: int| 0 <= j < r ==> s@[j] != d,
{
    let mut i: usize = 0;
    while i < s.len()
        invariant
            0 <= i <= s@.len(),
            forall|j: int| 0 <= j < i ==> s@[j] != d,
        decreases s@.len() - i,
    {
        if s[i] == d {
            proof {
                lemma_find_byte_is(s@, d, i as int);
            }
            return i;
        }
        i = i + 1;
    }
    proof {
        lemma_find_byte_is(s@, d, s@.len() as int);
    }
    i
}

// --- trimming spaces ---

pub open spec fn trim_start(s: Seq<u8>) -> Seq<u8>
    decreases s.len(),
{
    if s.len() > 0 && s[0] == SPACE {
        trim_start(s.subrange(1, s.len() as int))
    } else {
        s
    }
}

pub open spec fn trim_end(s: Seq<u8>) -> Seq<u8>
    decreases s.len(),
{
    if s.len() > 0 && s.last() == SPACE {
        trim_end(s.drop_last())
    } else {
        s
    }
}

/// `s` with leading and trailing spaces removed.
pub open spec fn trim(s: Seq<u8>) -> Seq<u8> {
    trim_end(trim_start(s))
}

proof fn lemma_trim_start_is(s: Seq<u8>, a: int)
    requires
        0 <= a <= s.len(),
        forall|j: int| 0 <= j < a ==> s[j] == SPACE,
        a < s.len() ==> s[a] != SPACE,
    ensures
        trim_start(s) == s.subrange(a, s.len() as int),
    decreases s.len(),
{
    if s.len() > 0 && s[0] == SPACE {
        let t = s.subrange(1, s.len() as int);
        assert(a >= 1);
        assert forall|j: int| 0 <= j < a - 1 implies t[j] == SPACE by {
            assert(t[j] == s[j + 1]);
        }
        lemma_trim_start_is(t, a - 1);
        assert(t.subrange(a - 1, t.len() as int) =~= s.subrange(a, s.len() as int));
    } else {
        assert(a == 0);
        assert(s.subrange(0, s.len() as int) =~= s);
    }
}

proof fn lemma_trim_end_is(s: Seq<u8>, b: int)
    requires
        0 <= b <= s.len(),
        forall|j: int| b <= j < s.len() ==> s[j] == SPACE,
        b > 0 ==> s[b - 1] != SPACE,
    ensures
        trim_end(s) == s.subrange(0, b),
    decreases s.len(),
{
    if s.len() > 0 && s.last() == SPACE {
        let t = s.drop_last();
        assert(b < s.len());
        lemma_trim_end_is(t, b);
        assert(t.subrange(0, b) =~= s.subrange(0, b));
    } else {
        assert(b == s.len());
        assert(s.subrange(0, s.len() as int) =~= s);
    }
}

/// `s` without its leading and trailing spaces.
pub fn trim_bytes(s: &[u8]) -> (r: Vec<u8>)
    ensures
        r@ == trim(s@),
{
    let mut a: usize = 0;
    while a < s.len() && s[a] == SPACE
        invariant
            0 <= a <= s@.len(),
            forall|j: int| 0 <= j < a ==> s@[j] == SPACE,
        decreases s@.len() - a,
    {
        a = a + 1;
    }
    proof {
        lemma_trim_start_is(s@, a as int);
    }
    if a == s.len() {
        proof {
            assert(trim_start(s@) =~= Seq::<u8>::empty());
            assert(trim(s@) =~= Seq::<u8>::empty());
        }
        let r: Vec<u8> = Vec::new();
        return r;
    }
    let mut b: usize = s.len();
    while b > a && s[b - 1] == SPACE
        invariant
            a <= b <= s@.len(),
            a < s@.len(),
            forall|j: int| b <= j < s@.len() ==> s@[j] == SPACE,
        decreases b,
    {
        b = b - 1;
    }
    // s[a] != ' ' so the end scan stopped at or after a + 1
    proof {
        let t = trim_start(s@);
        assert(b > a);
        assert forall|j: int| (b - a) <= j < t.len() implies t[j] == SPACE by {
            assert(t[j] == s@[a + j]);
        }
        assert(t[b - a - 1] == s@[b - 1]);
        lemma_trim_end_is(t, b - a);
    }
    let mut r: Vec<u8> = Vec::new();
    let mut i: usize = a;
    while i < b
        invariant
            a <= i <= b <= s@.len(),
            r@ == s@.subrange(a as int, i as int),
        decreases b - i,
    {
        r.push(s[i]);
        proof {
            assert(r@ =~= s@.subrange(a as int, i as int + 1));
        }
        i = i + 1;
    }
    proof {
        let t = trim_start(s@);
        assert(t.subrange(0, b - a) =~= s@.subrange(a as int, b as int));
    }
    r
}

// --- byte comparison ---

/// Whether two byte slices hold the same bytes.
pub fn bytes_eq(a: &[u8], b: &[u8]) -> (r: bool)
    ensures
        r == (a@ == b@),
{
    if a.len() != b.len() {
        return false;
    }
    let mut i: usize = 0;
    while i < a.len()
        invariant
            0 <= i <= a@.len(),
            a@.len() == b@.len(),
            forall|j: int| 0 <= j < i ==> a@[j] == b@[j],
        decreases a@.len() - i,
    {
        if a[i] != b[i] {
            return false;
        }
        i = i + 1;
    }
    proof {
        assert(a@ =~= b@);
    }
    true
}

// --- decimal numbers ---

pub open spec fn is_digit(b: u8) -> bool {
    DIGIT_ZERO <= b && b <= DIGIT_NINE
}

pub open spec fn all_digits(s: Seq<u8>) -> bool {
    forall|i: int| 0 <= i < s.len() ==> is_digit(#[trigger] s[i])
}

/// The value of a sequence of decimal digits, most significant first.
pub open spec fn dec_value(s: Seq<u8>) -> int
    decreases s.len(),
{
    if s.len() == 0 {
        0
    } else {
        dec_value(s.drop_last()) * 10 + (s.last() - DIGIT_ZERO)
    }
}

pub proof fn lemma_dec_value_nonneg(s: Seq<u8>)
    requires
        all_digits(s),
    ensures
        dec_value(s) >= 0,
    decreases s.len(),
{
    if s.len() > 0 {
        lemma_dec_value_nonneg(s.drop_last());
    }
}

/// A digit string is worth at least any of its prefixes.
pub proof fn lemma_dec_value_prefix(s: Seq<u8>, i: int)
    requires
        all_digits(s),
        0 <= i <= s.len(),
    ensures
        dec_value(s.subrange(0, i)) <= dec_value(s),
    decreases s.len(),
{
    if i == s.len() {
        assert(s.subrange(0, i) =~= s);
    } else {
        let t = s.drop_last();
        lemma_dec_value_nonneg(t);
        lemma_dec_value_prefix(t, i);
        assert(s.subrange(0, i) =~= t.subrange(0, i));
    }
}

/// Parses a nonempty all-digit byte string as a `u32`; `None` when the
/// string is empty, holds a non-digit, or exceeds `u32::MAX`.
pub fn parse_u32_digits(s: &[u8]) -> (r: Option<u32>)
    ensures
        match r {
            Some(n) => s@.len() > 0 && all_digits(s@) && n == dec_value(s@),
            None => s@.len() == 0 || !all_digits(s@) || dec_value(s@) > u32::MAX,
        },
{
    if s.len() == 0 {
        return None;
    }
    let mut acc: u32 = 0;
    let mut i: usize = 0;
    while i < s.len()
        invariant
            0 < s@.len(),
            0 <= i <= s@.len(),
            all_digits(s@.subrange(0, i as int)),
            acc == dec_value(s@.subrange(0, i as int)),
        decreases s@.len() - i,
    {
        let b = s[i];
        if b < DIGIT_ZERO || b > DIGIT_NINE {
            return None;
        }
        let d: u32 = (b - DIGIT_ZERO) as u32;
        proof {
            assert(s@.subrange(0, i as int + 1).drop_last() =~= s@.subrange(0, i as int));
            assert(all_digits(s@.subrange(0, i as int + 1)));
            assert(dec_value(s@.subrange(0, i as int + 1)) == acc * 10 + d);
        }
        if acc > (u32::MAX - d) / 10 {
            proof {
                let w = acc as int * 10 + d;
                assert(w > u32::MAX) by (nonlinear_arith)
                    requires
                        acc as int > (u32::MAX - d as int) / 10,
                        0 <= d <= 9,
                        w == acc as int * 10 + d,
                {
                }
                if all_digits(s@) {
                    lemma_dec_value_prefix(s@, i as int + 1);
                }
            }
            return None;
        }
        proof {
            assert(acc as int * 10 + d <= u32::MAX) by (nonlinear_arith)
                requires
                    acc as int <= (u32::MAX - d as int) / 10,
                    0 <= d <= 9,
            {
            }
        }
        acc = acc * 10 + d;
        i = i + 1;
    }
    proof {
        assert(s@.subrange(0, s@.len() as int) =~= s@);
    }
    Some(acc)
}

} // verus!
