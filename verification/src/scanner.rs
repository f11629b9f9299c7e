//! The scanner's filtering rule: which of the candidate paths, handed in
//! already enumerated, are document files that no ignore rule excludes.
//! The caller supplies the paths in a stable order (lexicographic by
//! path); the selection keeps that order.
use vstd::prelude::*;
use crate::config::{spec_should_ignore, Config};
use crate::text::{ends_with, ends_with_str};

verus! {

/// Whether a path carries a supported document extension.
pub open spec fn has_doc_ext(p: Seq<char>) -> bool {
    ends_with(p, ".qmd"@) || ends_with(p, ".md"@)
}

/// A path is kept when it is a document file and no ignore rule matches.
pub open spec fn keeps(p: Seq<char>, rules: Seq<Seq<char>>) -> bool {
    has_doc_ext(p) && !spec_should_ignore(p, rules)
}

/// The kept paths, in their given order.
pub open spec fn spec_select(paths: Seq<Seq<char>>, rules: Seq<Seq<char>>) -> Seq<Seq<char>>
    decreases paths.len(),
{
    if paths.len() == 0 {
        Seq::empty()
    } else {
        let prev = spec_select(paths.drop_last(), rules);
        if keeps(paths.last(), rules) {
            prev.push(paths.last())
        } else {
            prev
        }
    }
}

/// Keep the document files that no ignore rule excludes, in order.
pub fn select_files(paths: Vec<String>, config: &Config) -> (r: Vec<String>)
    ensures
        r@.map_values(|p: String| p@) == spec_select(
            paths@.map_values(|p: String| p@),
            config.ignore_rules(),
        ),
{
    let ghost all = paths@.map_values(|p: String| p@);
    let ghost rules = config.ignore_rules();
    let mut out: Vec<String> = Vec::new();
    let mut i: usize = 0;
    proof {
        assert(all.subrange(0, 0) =~= Seq::<Seq<char>>::empty());
        assert(out@.map_values(|p: String| p@) =~= Seq::<Seq<char>>::empty());
    }
    while i < paths.len()
        invariant
            0 <= i <= paths.len(),
            all == paths@.map_values(|p: String| p@),
            all.len() == paths@.len(),
            rules == config.ignore_rules(),
            out@.map_values(|p: String| p@) == spec_select(all.subrange(0, i as int), rules),
        decreases paths.len() - i,
    {
        let ghost pre = out@.map_values(|p: String| p@);
        proof {
            assert(all.subrange(0, i + 1).drop_last() =~= all.subrange(0, i as int));
            assert(all.subrange(0, i + 1).last() == all[i as int]);
            assert(all[i as int] == paths@[i as int]@);
        }
        let p: &str = paths[i].as_str();
        let is_doc = if ends_with_str(p, ".qmd") {
            true
        } else {
            ends_with_str(p, ".md")
        };
        if is_doc && !config.should_ignore(p) {
            out.push(paths[i].clone());
            proof {
                assert(out@.map_values(|q: String| q@) =~= pre.push(all[i as int]));
            }
        }
        i = i + 1;
    }
    proof {
        assert(all.subrange(0, paths@.len() as int) =~= all);
    }
    out
}

/// Lexicographic order on character sequences, by code point.
pub open spec fn lex_le(a: Seq<char>, b: Seq<char>) -> bool
    decreases a.len(),
{
    if a.len() == 0 {
        true
    } else if b.len() == 0 {
        false
    } else if a[0] as u32 == b[0] as u32 {
        lex_le(a.skip(1), b.skip(1))
    } else {
        (a[0] as u32) < (b[0] as u32)
    }
}

proof fn lemma_lex_skip(a: Seq<char>, b: Seq<char>, i: int)
    requires
        0 <= i <= a.len(),
        i <= b.len(),
        forall|k: int| 0 <= k < i ==> a[k] as u32 == b[k] as u32,
    ensures
        lex_le(a, b) == lex_le(a.skip(i), b.skip(i)),
    decreases i,
{
    if i > 0 {
        assert(a[0] as u32 == b[0] as u32);
        assert(a.len() > 0 && b.len() > 0);
        assert forall|k: int| 0 <= k < i - 1 implies a.skip(1)[k] as u32 == b.skip(1)[k] as u32 by {
            assert(a.skip(1)[k] == a[k + 1] && b.skip(1)[k] == b[k + 1]);
        }
        lemma_lex_skip(a.skip(1), b.skip(1), i - 1);
        assert(a.skip(1).skip(i - 1) =~= a.skip(i));
        assert(b.skip(1).skip(i - 1) =~= b.skip(i));
    } else {
        assert(a.skip(0) =~= a);
        assert(b.skip(0) =~= b);
    }
}

/// Lexicographic comparison, pinned to `lex_le`.
fn str_le(a: &str, b: &str) -> (r: bool)
    ensures
        r == lex_le(a@, b@),
{
    let na: usize = a.unicode_len();
    let nb: usize = b.unicode_len();
    let mut i: usize = 0;
    while i < na && i < nb
        invariant
            0 <= i <= na,
            0 <= i <= nb,
            na as nat == a@.len(),
            nb as nat == b@.len(),
            forall|k: int| 0 <= k < i ==> a@[k] as u32 == b@[k] as u32,
        decreases na - i,
    {
        let ca = a.get_char(i) as u32;
        let cb = b.get_char(i) as u32;
        if ca != cb {
            proof {
                lemma_lex_skip(a@, b@, i as int);
            }
            return ca < cb;
        }
        i = i + 1;
    }
    proof {
        lemma_lex_skip(a@, b@, i as int);
    }
    na <= nb
}

/// Insertion before the first element not below `x`.
pub open spec fn spec_insert_str(sorted: Seq<Seq<char>>, x: Seq<char>) -> Seq<Seq<char>>
    decreases sorted.len(),
{
    if sorted.len() == 0 {
        seq![x]
    } else if lex_le(x, sorted[0]) {
        seq![x] + sorted
    } else {
        seq![sorted[0]] + spec_insert_str(sorted.skip(1), x)
    }
}

proof fn lemma_insert_at(v: Seq<Seq<char>>, x: Seq<char>, j: int)
    requires
        0 <= j <= v.len(),
        forall|k: int| 0 <= k < j ==> !lex_le(x, v[k]),
        j < v.len() ==> lex_le(x, v[j]),
    ensures
        spec_insert_str(v, x) == v.subrange(0, j) + seq![x] + v.subrange(j, v.len() as int),
    decreases v.len(),
{
    if v.len() == 0 {
        assert(spec_insert_str(v, x) =~= v.subrange(0, 0) + seq![x] + v.subrange(0, 0));
    } else if lex_le(x, v[0]) {
        assert(j == 0) by {
            if j > 0 {
                assert(!lex_le(x, v[0]));
            }
        }
        assert(seq![x] + v =~= v.subrange(0, 0) + seq![x] + v.subrange(0, v.len() as int));
    } else {
        assert(j >= 1);
        assert forall|k: int| 0 <= k < j - 1 implies !lex_le(x, v.skip(1)[k]) by {
            assert(v.skip(1)[k] == v[k + 1]);
        }
        if j - 1 < v.skip(1).len() {
            assert(v.skip(1)[j - 1] == v[j]);
        }
        lemma_insert_at(v.skip(1), x, j - 1);
        assert(v.skip(1).subrange(0, j - 1) =~= v.subrange(1, j));
        assert(v.skip(1).subrange(j - 1, v.skip(1).len() as int) =~= v.subrange(
            j,
            v.len() as int,
        ));
        assert(seq![v[0]] + (v.subrange(1, j) + seq![x] + v.subrange(j, v.len() as int)) =~= v
            .subrange(0, j) + seq![x] + v.subrange(j, v.len() as int));
    }
}

/// Insertion sort of each path in turn.
pub open spec fn spec_sort(paths: Seq<Seq<char>>) -> Seq<Seq<char>>
    decreases paths.len(),
{
    if paths.len() == 0 {
        Seq::empty()
    } else {
        spec_insert_str(spec_sort(paths.drop_last()), paths.last())
    }
}

/// Sort paths lexicographically, pinned to `spec_sort`, so that the scan
/// order never depends on how the directory walk enumerated them.
pub fn sort_paths(paths: Vec<String>) -> (r: Vec<String>)
    ensures
        r@.map_values(|p: String| p@) == spec_sort(paths@.map_values(|p: String| p@)),
        sorted_lex(r@.map_values(|p: String| p@)),
{
    let ghost all = paths@.map_values(|p: String| p@);
    let mut out: Vec<String> = Vec::new();
    let mut i: usize = 0;
    proof {
        assert(all.subrange(0, 0) =~= Seq::<Seq<char>>::empty());
        assert(out@.map_values(|p: String| p@) =~= Seq::<Seq<char>>::empty());
    }
    while i < paths.len()
        invariant
            0 <= i <= paths.len(),
            all == paths@.map_values(|p: String| p@),
            all.len() == paths@.len(),
            out@.map_values(|p: String| p@) == spec_sort(all.subrange(0, i as int)),
        decreases paths.len() - i,
    {
        let ghost sorted = out@.map_values(|p: String| p@);
        let x: &str = paths[i].as_str();
        proof {
            assert(all[i as int] == paths@[i as int]@);
        }
        let mut j: usize = 0;
        while j < out.len() && !str_le(x, out[j].as_str())
            invariant
                0 <= j <= out@.len(),
                sorted == out@.map_values(|p: String| p@),
                sorted.len() == out@.len(),
                forall|k: int| 0 <= k < j ==> !lex_le(x@, sorted[k]),
            decreases out@.len() - j,
        {
            proof {
                assert(sorted[j as int] == out@[j as int]@);
            }
            j = j + 1;
        }
        proof {
            if (j as int) < sorted.len() {
                assert(sorted[j as int] == out@[j as int]@);
            }
            lemma_insert_at(sorted, x@, j as int);
        }
        out.insert(j, paths[i].clone());
        proof {
            assert(out@.map_values(|p: String| p@) =~= sorted.subrange(0, j as int) + seq![x@]
                + sorted.subrange(j as int, sorted.len() as int));
            assert(all.subrange(0, i + 1).drop_last() =~= all.subrange(0, i as int));
            assert(all.subrange(0, i + 1).last() == all[i as int]);
        }
        i = i + 1;
    }
    proof {
        assert(all.subrange(0, paths@.len() as int) =~= all);
        lemma_sort_sorted(all);
    }
    out
}

/// The order is total: of any two sequences one is below the other.
pub proof fn lemma_lex_total(a: Seq<char>, b: Seq<char>)
    ensures
        lex_le(a, b) || lex_le(b, a),
    decreases a.len(),
{
    if a.len() > 0 && b.len() > 0 && a[0] as u32 == b[0] as u32 {
        lemma_lex_total(a.skip(1), b.skip(1));
    }
}

/// The order is transitive.
pub proof fn lemma_lex_trans(a: Seq<char>, b: Seq<char>, c: Seq<char>)
    requires
        lex_le(a, b),
        lex_le(b, c),
    ensures
        lex_le(a, c),
    decreases a.len(),
{
    if a.len() > 0 && b.len() > 0 && c.len() > 0 {
        if a[0] as u32 == b[0] as u32 && b[0] as u32 == c[0] as u32 {
            lemma_lex_trans(a.skip(1), b.skip(1), c.skip(1));
        }
    }
}

/// Every element of an insertion's result is the inserted one or one of
/// the sequence's own.
proof fn lemma_insert_elems(v: Seq<Seq<char>>, x: Seq<char>)
    ensures
        spec_insert_str(v, x).len() == v.len() + 1,
        forall|m: int|
            0 <= m < spec_insert_str(v, x).len() ==> (#[trigger] spec_insert_str(v, x)[m]) == x
                || (exists|k: int| 0 <= k < v.len() && v[k] == spec_insert_str(v, x)[m]),
    decreases v.len(),
{
    if v.len() == 0 {
    } else if lex_le(x, v[0]) {
        assert forall|m: int|
            0 <= m < spec_insert_str(v, x).len() implies (#[trigger] spec_insert_str(v, x)[m])
                == x || (exists|k: int| 0 <= k < v.len() && v[k] == spec_insert_str(v, x)[m]) by {
            if m > 0 {
                assert(v[m - 1] == spec_insert_str(v, x)[m]);
            }
        }
    } else {
        lemma_insert_elems(v.skip(1), x);
        assert forall|m: int|
            0 <= m < spec_insert_str(v, x).len() implies (#[trigger] spec_insert_str(v, x)[m])
                == x || (exists|k: int| 0 <= k < v.len() && v[k] == spec_insert_str(v, x)[m]) by {
            if m > 0 {
                let e = spec_insert_str(v, x)[m];
                assert(e == spec_insert_str(v.skip(1), x)[m - 1]);
                if e != x {
                    let k = choose|k: int| 0 <= k < v.skip(1).len() && v.skip(1)[k] == e;
                    assert(v[k + 1] == e);
                }
            }
        }
    }
}

/// Elements are pairwise in order.
pub open spec fn sorted_lex(v: Seq<Seq<char>>) -> bool {
    forall|i: int, j: int| 0 <= i < j < v.len() ==> lex_le(v[i], v[j])
}

proof fn lemma_insert_keeps_sorted(v: Seq<Seq<char>>, x: Seq<char>)
    requires
        sorted_lex(v),
    ensures
        sorted_lex(spec_insert_str(v, x)),
    decreases v.len(),
{
    let r = spec_insert_str(v, x);
    if v.len() == 0 {
    } else if lex_le(x, v[0]) {
        assert forall|i: int, j: int| 0 <= i < j < r.len() implies lex_le(r[i], r[j]) by {
            if i == 0 {
                assert(r[j] == v[j - 1]);
                if j > 1 {
                    lemma_lex_trans(x, v[0], v[j - 1]);
                }
            } else {
                assert(r[i] == v[i - 1] && r[j] == v[j - 1]);
            }
        }
    } else {
        assert forall|i: int, j: int|
            0 <= i < j < v.skip(1).len() implies lex_le(v.skip(1)[i], v.skip(1)[j]) by {
            assert(v.skip(1)[i] == v[i + 1] && v.skip(1)[j] == v[j + 1]);
        }
        lemma_insert_keeps_sorted(v.skip(1), x);
        lemma_insert_elems(v.skip(1), x);
        lemma_lex_total(x, v[0]);
        assert forall|i: int, j: int| 0 <= i < j < r.len() implies lex_le(r[i], r[j]) by {
            if i == 0 {
                assert(r[0] == v[0]);
                let e = spec_insert_str(v.skip(1), x)[j - 1];
                assert(r[j] == e);
                if e == x {
                    assert(lex_le(v[0], x));
                } else {
                    let k = choose|k: int|
                        0 <= k < v.skip(1).len() && v.skip(1)[k] == e;
                    assert(v[k + 1] == e);
                    assert(lex_le(v[0], v[k + 1]));
                }
            } else {
                assert(r[i] == spec_insert_str(v.skip(1), x)[i - 1]);
                assert(r[j] == spec_insert_str(v.skip(1), x)[j - 1]);
            }
        }
    }
}

/// What the sort promises of its result: pairwise in order.
pub proof fn lemma_sort_sorted(paths: Seq<Seq<char>>)
    ensures
        sorted_lex(spec_sort(paths)),
    decreases paths.len(),
{
    if paths.len() > 0 {
        lemma_sort_sorted(paths.drop_last());
        lemma_insert_keeps_sorted(spec_sort(paths.drop_last()), paths.last());
    }
}

} // verus!
