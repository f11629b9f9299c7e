//! Verified helpers over `&str` and their specification functions over
//! `Seq<char>`. Every executable helper is pinned to a spec function, so the
//! stages built on top of them have fully functional contracts.
use vstd::prelude::*;
use vstd::string::StrSliceExecFns;

verus! {

/// Relies on `String::push`: appends the given character to the string.
#[verifier::external_body]
pub(crate) fn push_char(s: &mut String, c: char)
    ensures
        final(s)@ == old(s)@.push(c),
{
    s.push(c);
}

/// Characters treated as blank when trimming: space, tab and carriage return.
pub open spec fn is_blank_char(c: char) -> bool {
    c == ' ' || c == '\t' || c == '\r'
}

/// Number of characters before the first occurrence of `stop` (the whole
/// length if `stop` does not occur).
pub open spec fn scan_len(s: Seq<char>, stop: char) -> nat
    decreases s.len(),
{
    if s.len() == 0 {
        0
    } else if s[0] == stop {
        0
    } else {
        1 + scan_len(s.skip(1), stop)
    }
}

pub proof fn lemma_scan_len_unique(s: Seq<char>, stop: char, n: int)
    requires
        0 <= n <= s.len(),
        forall|k: int| 0 <= k < n ==> s[k] != stop,
        n < s.len() ==> s[n] == stop,
    ensures
        n == scan_len(s, stop),
    decreases s.len(),
{
    if s.len() == 0 {
    } else if s[0] == stop {
        assert(n == 0);
    } else {
        assert(n != 0);
        assert forall|k: int| 0 <= k < n - 1 implies s.skip(1)[k] != stop by {
            assert(s.skip(1)[k] == s[k + 1]);
        }
        if n - 1 < s.skip(1).len() {
            assert(s.skip(1)[n - 1] == s[n]);
        }
        lemma_scan_len_unique(s.skip(1), stop, n - 1);
    }
}

/// Index of the first occurrence of `stop` in `s`, or the length of `s`.
pub fn find_first(s: &str, stop: char) -> (r: usize)
    ensures
        r as nat == scan_len(s@, stop),
{
    let n: usize = s.unicode_len();
    let mut i: usize = 0;
    while i < n
        invariant
            0 <= i <= n,
            n as nat == s@.len(),
            forall|k: int| 0 <= k < i ==> s@[k] != stop,
        decreases n - i,
    {
        if s.get_char(i) == stop {
            proof {
                lemma_scan_len_unique(s@, stop, i as int);
            }
            return i;
        }
        i = i + 1;
    }
    proof {
        lemma_scan_len_unique(s@, stop, n as int);
    }
    n
}

/// Character-by-character string equality, pinned to view equality.
pub fn str_eq(a: &str, b: &str) -> (r: bool)
    ensures
        r == (a@ == b@),
{
    let na: usize = a.unicode_len();
    let nb: usize = b.unicode_len();
    if na != nb {
        return false;
    }
    let mut i: usize = 0;
    while i < na
        invariant
            0 <= i <= na,
            na as nat == a@.len(),
            na as nat == b@.len(),
            forall|k: int| 0 <= k < i ==> a@[k] == b@[k],
        decreases na - i,
    {
        if a.get_char(i) != b.get_char(i) {
            return false;
        }
        i = i + 1;
    }
    proof {
        assert(a@ =~= b@);
    }
    true
}

/// `p` occurs in `s` starting at position `i`.
pub open spec fn matches_at(s: Seq<char>, p: Seq<char>, i: int) -> bool {
    0 <= i && i + p.len() <= s.len() && s.subrange(i, i + p.len()) == p
}

fn check_match_at(s: &str, p: &str, i: usize) -> (r: bool)
    requires
        i + p@.len() <= s@.len(),
    ensures
        r == matches_at(s@, p@, i as int),
{
    let ns: usize = s.unicode_len();
    let np: usize = p.unicode_len();
    let mut j: usize = 0;
    while j < np
        invariant
            0 <= j <= np,
            np as nat == p@.len(),
            ns as nat == s@.len(),
            i + np <= ns,
            forall|k: int| 0 <= k < j ==> s@[i + k] == p@[k],
        decreases np - j,
    {
        if s.get_char(i + j) != p.get_char(j) {
            proof {
                assert(s@.subrange(i as int, i + p@.len())[j as int] == s@[i + j]);
            }
            return false;
        }
        j = j + 1;
    }
    proof {
        assert(s@.subrange(i as int, i + p@.len()) =~= p@);
    }
    true
}

/// `p` occurs somewhere in `s` as a contiguous substring.
pub open spec fn contains_sub(s: Seq<char>, p: Seq<char>) -> bool {
    exists|i: int| matches_at(s, p, i)
}

/// Substring search, pinned to `contains_sub`.
pub fn contains_str(s: &str, p: &str) -> (r: bool)
    ensures
        r == contains_sub(s@, p@),
{
    let ns: usize = s.unicode_len();
    let np: usize = p.unicode_len();
    if np > ns {
        return false;
    }
    if np == 0 {
        proof {
            assert(s@.subrange(0, 0) =~= p@);
            assert(matches_at(s@, p@, 0));
        }
        return true;
    }
    let mut i: usize = 0;
    while i <= ns - np
        invariant
            0 <= i <= ns - np + 1,
            1 <= np <= ns,
            ns as nat == s@.len(),
            np as nat == p@.len(),
            forall|k: int| 0 <= k < i ==> !matches_at(s@, p@, k),
        decreases ns - np + 1 - i,
    {
        if check_match_at(s, p, i) {
            return true;
        }
        i = i + 1;
    }
    false
}

/// `s` ends with the suffix `p`.
pub open spec fn ends_with(s: Seq<char>, p: Seq<char>) -> bool {
    p.len() <= s.len() && s.subrange(s.len() - p.len(), s.len() as int) == p
}

pub fn ends_with_str(s: &str, p: &str) -> (r: bool)
    ensures
        r == ends_with(s@, p@),
{
    let ns: usize = s.unicode_len();
    let np: usize = p.unicode_len();
    if np > ns {
        return false;
    }
    check_match_at(s, p, ns - np)
}

/// Length of the maximal run of blank characters at the start of `s`.
pub open spec fn count_leading_blanks(s: Seq<char>) -> nat
    decreases s.len(),
{
    if s.len() > 0 && is_blank_char(s[0]) {
        1 + count_leading_blanks(s.skip(1))
    } else {
        0
    }
}

/// Length of the maximal run of blank characters at the end of `s`.
pub open spec fn count_trailing_blanks(s: Seq<char>) -> nat
    decreases s.len(),
{
    if s.len() > 0 && is_blank_char(s.last()) {
        1 + count_trailing_blanks(s.drop_last())
    } else {
        0
    }
}

pub proof fn lemma_count_leading_unique(s: Seq<char>, n: int)
    requires
        0 <= n <= s.len(),
        forall|k: int| 0 <= k < n ==> is_blank_char(s[k]),
        n < s.len() ==> !is_blank_char(s[n]),
    ensures
        n == count_leading_blanks(s),
    decreases s.len(),
{
    if s.len() > 0 && is_blank_char(s[0]) {
        assert(n != 0);
        assert forall|k: int| 0 <= k < n - 1 implies is_blank_char(s.skip(1)[k]) by {
            assert(s.skip(1)[k] == s[k + 1]);
        }
        if n - 1 < s.skip(1).len() {
            assert(s.skip(1)[n - 1] == s[n]);
        }
        lemma_count_leading_unique(s.skip(1), n - 1);
    } else {
        assert(n == 0) by {
            if n > 0 {
                assert(is_blank_char(s[0]));
            }
        }
    }
}

pub proof fn lemma_count_trailing_unique(s: Seq<char>, n: int)
    requires
        0 <= n <= s.len(),
        forall|k: int| s.len() - n <= k < s.len() ==> is_blank_char(s[k]),
        n < s.len() ==> !is_blank_char(s[s.len() - n - 1]),
    ensures
        n == count_trailing_blanks(s),
    decreases s.len(),
{
    if s.len() > 0 && is_blank_char(s.last()) {
        assert(n != 0);
        assert forall|k: int| s.drop_last().len() - (n - 1) <= k < s.drop_last().len()
            implies is_blank_char(s.drop_last()[k]) by {
            assert(s.drop_last()[k] == s[k]);
        }
        if n - 1 < s.drop_last().len() {
            assert(s.drop_last()[s.drop_last().len() - (n - 1) - 1] == s[s.len() - n - 1]);
        }
        lemma_count_trailing_unique(s.drop_last(), n - 1);
    } else {
        assert(n == 0) by {
            if n > 0 {
                assert(is_blank_char(s[s.len() - 1]));
            }
        }
    }
}

/// `s` with leading and trailing blank characters removed.
pub open spec fn spec_trim(s: Seq<char>) -> Seq<char> {
    if count_leading_blanks(s) == s.len() {
        Seq::empty()
    } else {
        s.subrange(
            count_leading_blanks(s) as int,
            s.len() - count_trailing_blanks(s),
        )
    }
}

pub proof fn lemma_count_leading(s: Seq<char>)
    ensures
        count_leading_blanks(s) <= s.len(),
        forall|k: int| 0 <= k < count_leading_blanks(s) ==> is_blank_char(s[k]),
        count_leading_blanks(s) < s.len() ==> !is_blank_char(s[count_leading_blanks(s) as int]),
    decreases s.len(),
{
    if s.len() > 0 && is_blank_char(s[0]) {
        lemma_count_leading(s.skip(1));
        assert forall|k: int| 0 <= k < count_leading_blanks(s) implies is_blank_char(s[k]) by {
            if k > 0 {
                assert(s.skip(1)[k - 1] == s[k]);
            }
        }
        if count_leading_blanks(s) < s.len() {
            assert(s.skip(1)[count_leading_blanks(s) - 1] == s[count_leading_blanks(s) as int]);
        }
    }
}

pub proof fn lemma_count_trailing(s: Seq<char>)
    ensures
        count_trailing_blanks(s) <= s.len(),
        forall|k: int| s.len() - count_trailing_blanks(s) <= k < s.len() ==> is_blank_char(s[k]),
        count_trailing_blanks(s) < s.len() ==> !is_blank_char(
            s[s.len() - count_trailing_blanks(s) - 1],
        ),
    decreases s.len(),
{
    if s.len() > 0 && is_blank_char(s.last()) {
        lemma_count_trailing(s.drop_last());
        assert forall|k: int|
            s.len() - count_trailing_blanks(s) <= k < s.len() implies is_blank_char(s[k]) by {
            if k < s.len() - 1 {
                assert(s.drop_last()[k] == s[k]);
            }
        }
        if count_trailing_blanks(s) < s.len() {
            assert(s.drop_last()[s.drop_last().len() - (count_trailing_blanks(s) - 1) - 1] == s[
                s.len() - count_trailing_blanks(s) - 1]);
        }
    }
}

proof fn lemma_counts_bound(s: Seq<char>)
    requires
        count_leading_blanks(s) < s.len(),
    ensures
        count_leading_blanks(s) + count_trailing_blanks(s) < s.len(),
{
    let a = count_leading_blanks(s) as int;
    lemma_count_leading(s);
    let b = count_trailing_blanks(s) as int;
    lemma_count_trailing(s);
    // the character at `a` is not blank, so the blank suffix starts after it
    if s.len() - b <= a {
        assert(is_blank_char(s[a]));
    }
}

/// Trim blanks from both ends, pinned to `spec_trim`.
pub fn trim_str(s: &str) -> (r: String)
    ensures
        r@ == spec_trim(s@),
{
    let n: usize = s.unicode_len();
    let mut a: usize = 0;
    while a < n && is_blank_exec(s.get_char(a))
        invariant
            0 <= a <= n,
            n as nat == s@.len(),
            forall|k: int| 0 <= k < a ==> is_blank_char(s@[k]),
        decreases n - a,
    {
        a = a + 1;
    }
    proof {
        lemma_count_leading_unique(s@, a as int);
    }
    if a == n {
        let r = String::new();
        proof {
            assert(r@ =~= spec_trim(s@));
        }
        return r;
    }
    let mut b: usize = 0;
    while b < n - a && is_blank_exec(s.get_char(n - 1 - b))
        invariant
            0 <= b <= n - a,
            a < n,
            n as nat == s@.len(),
            forall|k: int| n - b <= k < n ==> is_blank_char(s@[k]),
        decreases n - a - b,
    {
        b = b + 1;
    }
    proof {
        if (b as int) < s@.len() {
        }
        lemma_count_trailing_unique(s@, b as int);
        lemma_counts_bound(s@);
    }
    let piece = s.substring_char(a, n - b);
    piece.to_owned()
}

fn is_blank_exec(c: char) -> (r: bool)
    ensures
        r == is_blank_char(c),
{
    c == ' ' || c == '\t' || c == '\r'
}

/// The lines of `s`, split on `'\n'`; the text always has at least one line.
pub open spec fn spec_lines(s: Seq<char>) -> Seq<Seq<char>>
    decreases s.len(),
{
    let n = scan_len(s, '\n') as int;
    if n >= s.len() {
        seq![s]
    } else {
        seq![s.subrange(0, n)] + spec_lines(s.subrange(n + 1, s.len() as int))
    }
}

/// Split into lines, pinned to `spec_lines`.
pub fn split_lines(s: &str) -> (r: Vec<String>)
    ensures
        r@.map_values(|l: String| l@) == spec_lines(s@),
        r@.len() >= 1,
{
    let n: usize = s.unicode_len();
    let mut out: Vec<String> = Vec::new();
    let mut i: usize = 0;
    proof {
        assert(s@.subrange(0, n as int) =~= s@);
        assert(out@.map_values(|l: String| l@) =~= Seq::<Seq<char>>::empty());
        assert(Seq::<Seq<char>>::empty() + spec_lines(s@) =~= spec_lines(s@));
    }
    loop
        invariant_except_break
            0 <= i <= n,
            n as nat == s@.len(),
            spec_lines(s@) == out@.map_values(|l: String| l@) + spec_lines(
                s@.subrange(i as int, n as int),
            ),
        ensures
            out@.map_values(|l: String| l@) == spec_lines(s@),
            out@.len() >= 1,
        decreases n - i,
    {
        let ghost rest = s@.subrange(i as int, n as int);
        let ghost pre = out@.map_values(|l: String| l@);
        let mut e: usize = i;
        while e < n && s.get_char(e) != '\n'
            invariant
                i <= e <= n,
                n as nat == s@.len(),
                forall|k: int| i <= k < e ==> s@[k] != '\n',
            decreases n - e,
        {
            e = e + 1;
        }
        proof {
            assert forall|k: int| 0 <= k < e - i implies rest[k] != '\n' by {
                assert(rest[k] == s@[i + k]);
            }
            if e < n {
                assert(rest[e - i] == s@[e as int]);
            }
            lemma_scan_len_unique(rest, '\n', e - i);
        }
        let piece = s.substring_char(i, e);
        let ghost pv = piece@;
        out.push(piece.to_owned());
        proof {
            assert(out@.map_values(|l: String| l@) =~= pre.push(pv));
            assert(rest.subrange(0, scan_len(rest, '\n') as int) =~= pv);
        }
        if e == n {
            proof {
                assert(spec_lines(rest) =~= seq![pv]);
                assert(pre + seq![pv] =~= pre.push(pv));
            }
            break;
        }
        proof {
            assert(rest.subrange(scan_len(rest, '\n') as int + 1, rest.len() as int) =~= s@.subrange(
                e + 1,
                n as int,
            ));
            assert(spec_lines(rest) == seq![pv] + spec_lines(s@.subrange(e + 1, n as int)));
            assert(pre + (seq![pv] + spec_lines(s@.subrange(e + 1, n as int))) =~= pre.push(pv)
                + spec_lines(s@.subrange(e + 1, n as int)));
        }
        i = e + 1;
    }
    out
}

} // verus!
