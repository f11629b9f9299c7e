//! Configuration: the graph name, the ordered phase table and the ignore
//! rules. The phase table is an `indexmap::IndexMap` behind the trusted
//! boundary in `phase_table`; everything proved here is stated over its
//! entry sequence.
use vstd::prelude::*;
use vstd::string::StrSliceExecFns;
use indexmap::IndexMap;
use crate::phase_table::{phase_entries, pt_entry_list, pt_get, pt_insert, pt_new};
use crate::text::{contains_str, contains_sub, ends_with, ends_with_str};

verus! {

/// Display attributes of one phase: the fill color of its nodes.
pub struct PhaseConfig {
    pub face: String,
}

/// The configuration threaded through every pipeline stage.
pub struct Config {
    pub root_key: String,
    pub phase: IndexMap<String, PhaseConfig>,
    pub ignore: Vec<String>,
}

/// Index of the first entry whose key is `k`, or `es.len()` if absent.
pub open spec fn key_index(es: Seq<(Seq<char>, Seq<char>)>, k: Seq<char>) -> nat
    decreases es.len(),
{
    if es.len() == 0 {
        0
    } else if es[0].0 == k {
        0
    } else {
        1 + key_index(es.skip(1), k)
    }
}

pub open spec fn has_key(es: Seq<(Seq<char>, Seq<char>)>, k: Seq<char>) -> bool {
    key_index(es, k) < es.len()
}

pub proof fn lemma_key_index(es: Seq<(Seq<char>, Seq<char>)>, k: Seq<char>)
    ensures
        key_index(es, k) <= es.len(),
        forall|j: int| 0 <= j < key_index(es, k) ==> es[j].0 != k,
        key_index(es, k) < es.len() ==> es[key_index(es, k) as int].0 == k,
    decreases es.len(),
{
    if es.len() == 0 {
    } else if es[0].0 == k {
    } else {
        lemma_key_index(es.skip(1), k);
        assert forall|j: int| 0 <= j < key_index(es, k) implies es[j].0 != k by {
            if j > 0 {
                assert(es.skip(1)[j - 1] == es[j]);
            }
        }
        if key_index(es, k) < es.len() {
            assert(es.skip(1)[key_index(es, k) - 1] == es[key_index(es, k) as int]);
        }
    }
}

/// With unique keys, any entry whose key is `k` sits at `key_index`.
pub proof fn lemma_key_index_of_match(es: Seq<(Seq<char>, Seq<char>)>, k: Seq<char>, i: int)
    requires
        unique_keys(es),
        0 <= i < es.len(),
        es[i].0 == k,
    ensures
        has_key(es, k),
        key_index(es, k) == i,
{
    lemma_key_index(es, k);
    if key_index(es, k) >= es.len() {
        assert(es[i].0 != k);
    }
}

/// No two entries share a key.
pub open spec fn unique_keys(es: Seq<(Seq<char>, Seq<char>)>) -> bool {
    forall|i: int, j: int| 0 <= i < j < es.len() ==> es[i].0 != es[j].0
}

/// Insert-or-update as `IndexMap::insert` behaves: an existing key keeps
/// its place and takes the new value; a new key is appended.
pub open spec fn spec_upsert(
    es: Seq<(Seq<char>, Seq<char>)>,
    k: Seq<char>,
    f: Seq<char>,
) -> Seq<(Seq<char>, Seq<char>)> {
    if has_key(es, k) {
        es.update(key_index(es, k) as int, (k, f))
    } else {
        es.push((k, f))
    }
}

/// The entry sequence obtained by upserting each pair in order.
pub open spec fn spec_build_entries(pairs: Seq<(Seq<char>, Seq<char>)>) -> Seq<
    (Seq<char>, Seq<char>),
>
    decreases pairs.len(),
{
    if pairs.len() == 0 {
        Seq::empty()
    } else {
        spec_upsert(spec_build_entries(pairs.drop_last()), pairs.last().0, pairs.last().1)
    }
}

pub proof fn lemma_upsert_unique(es: Seq<(Seq<char>, Seq<char>)>, k: Seq<char>, f: Seq<char>)
    requires
        unique_keys(es),
    ensures
        unique_keys(spec_upsert(es, k, f)),
    decreases es.len(),
{
    lemma_key_index(es, k);
    let r = spec_upsert(es, k, f);
    if has_key(es, k) {
        let ki = key_index(es, k) as int;
        assert forall|i: int, j: int| 0 <= i < j < r.len() implies r[i].0 != r[j].0 by {
            if i != ki && j != ki {
                assert(r[i] == es[i] && r[j] == es[j]);
            } else if i == ki {
                assert(r[j] == es[j] && es[ki].0 == k);
            } else {
                assert(r[i] == es[i] && es[ki].0 == k);
            }
        }
    } else {
        assert forall|i: int, j: int| 0 <= i < j < r.len() implies r[i].0 != r[j].0 by {
            if j == es.len() {
                assert(r[i] == es[i]);
                assert(es[i].0 != k);
            } else {
                assert(r[i] == es[i] && r[j] == es[j]);
            }
        }
    }
}

/// Color of `phase` in the table: its own entry, else the `"Unknown"`
/// entry, else the hardcoded neutral fallback.
pub open spec fn spec_phase_color(es: Seq<(Seq<char>, Seq<char>)>, phase: Seq<char>) -> Seq<char> {
    if has_key(es, phase) {
        es[key_index(es, phase) as int].1
    } else if has_key(es, "Unknown"@) {
        es[key_index(es, "Unknown"@) as int].1
    } else {
        "lightgray"@
    }
}

/// One ignore rule against one path: a rule starting with `/` matches a
/// path ending in the rule's remainder; any other rule matches a path
/// containing it anywhere.
pub open spec fn rule_matches(rule: Seq<char>, path: Seq<char>) -> bool {
    if rule.len() > 0 && rule[0] == '/' {
        ends_with(path, rule.skip(1))
    } else {
        contains_sub(path, rule)
    }
}

pub open spec fn spec_should_ignore(path: Seq<char>, rules: Seq<Seq<char>>) -> bool {
    exists|k: int| 0 <= k < rules.len() && rule_matches(rules[k], path)
}

impl Config {
    /// The phase table as (name, color) pairs in insertion order.
    pub open spec fn entries(&self) -> Seq<(Seq<char>, Seq<char>)> {
        phase_entries(self.phase)
    }

    pub open spec fn ignore_rules(&self) -> Seq<Seq<char>> {
        self.ignore@.map_values(|r: String| r@)
    }

    /// Well-formed: phase names are unique.
    pub open spec fn wf(&self) -> bool {
        unique_keys(self.entries())
    }

    /// Build a configuration from plain values; later pairs with an
    /// already-seen phase name replace that phase's color in place.
    pub fn new(root_key: String, phases: Vec<(String, String)>, ignore: Vec<String>) -> (r: Config)
        ensures
            r.root_key@ == root_key@,
            r.ignore@ == ignore@,
            r.entries() == spec_build_entries(
                phases@.map_values(|p: (String, String)| (p.0@, p.1@)),
            ),
            r.wf(),
    {
        let ghost all = phases@.map_values(|p: (String, String)| (p.0@, p.1@));
        let mut m = pt_new();
        let mut i: usize = 0;
        proof {
            assert(all.subrange(0, 0) =~= Seq::<(Seq<char>, Seq<char>)>::empty());
        }
        while i < phases.len()
            invariant
                0 <= i <= phases.len(),
                all == phases@.map_values(|p: (String, String)| (p.0@, p.1@)),
                all.len() == phases@.len(),
                phase_entries(m) == spec_build_entries(all.subrange(0, i as int)),
                unique_keys(phase_entries(m)),
            decreases phases.len() - i,
        {
            let ghost pre = phase_entries(m);
            let k = phases[i].0.clone();
            let f = phases[i].1.clone();
            proof {
                lemma_key_index(pre, k@);
                lemma_upsert_unique(pre, k@, f@);
            }
            pt_insert(&mut m, k, PhaseConfig { face: f });
            proof {
                if has_key(pre, k@) {
                    let j = choose|j: int|
                        0 <= j < pre.len() && pre[j].0 == k@ && phase_entries(m) == pre.update(
                            j,
                            (k@, f@),
                        );
                    lemma_key_index_of_match(pre, k@, j);
                } else {
                    assert(forall|j: int| 0 <= j < pre.len() ==> pre[j].0 != k@) by {
                        lemma_key_index(pre, k@);
                    }
                }
                assert(phase_entries(m) == spec_upsert(pre, k@, f@));
                assert(all.subrange(0, i + 1).drop_last() =~= all.subrange(0, i as int));
                assert(all.subrange(0, i + 1).last() == all[i as int]);
            }
            i = i + 1;
        }
        proof {
            assert(all.subrange(0, phases@.len() as int) =~= all);
        }
        Config { root_key, phase: m, ignore }
    }

    /// Color for `phase`, with the documented double fallback.
    pub fn get_phase_color(&self, phase: &str) -> (r: String)
        requires
            self.wf(),
        ensures
            r@ == spec_phase_color(self.entries(), phase@),
    {
        let ghost es = self.entries();
        match pt_get(&self.phase, phase) {
            Some(v) => {
                proof {
                    let i = choose|i: int| 0 <= i < es.len() && es[i] == (phase@, v.face@);
                    lemma_key_index_of_match(es, phase@, i);
                }
                v.face.clone()
            },
            None => {
                proof {
                    lemma_key_index(es, phase@);
                    if has_key(es, phase@) {
                        assert(es[key_index(es, phase@) as int].0 == phase@);
                    }
                }
                match pt_get(&self.phase, "Unknown") {
                    Some(v) => {
                        proof {
                            let i = choose|i: int|
                                0 <= i < es.len() && es[i] == ("Unknown"@, v.face@);
                            lemma_key_index_of_match(es, "Unknown"@, i);
                        }
                        v.face.clone()
                    },
                    None => {
                        proof {
                            lemma_key_index(es, "Unknown"@);
                            if has_key(es, "Unknown"@) {
                                assert(es[key_index(es, "Unknown"@) as int].0 == "Unknown"@);
                            }
                        }
                        "lightgray".to_owned()
                    },
                }
            },
        }
    }

    /// Whether a path is excluded by some ignore rule.
    pub fn should_ignore(&self, file_path: &str) -> (r: bool)
        ensures
            r == spec_should_ignore(file_path@, self.ignore_rules()),
    {
        let mut i: usize = 0;
        while i < self.ignore.len()
            invariant
                0 <= i <= self.ignore.len(),
                forall|k: int| 0 <= k < i ==> !rule_matches(self.ignore_rules()[k], file_path@),
            decreases self.ignore.len() - i,
        {
            let rule: &str = self.ignore[i].as_str();
            let n: usize = rule.unicode_len();
            let hit: bool = if n > 0 && rule.get_char(0) == '/' {
                let tail = rule.substring_char(1, n);
                proof {
                    assert(tail@ =~= rule@.skip(1));
                }
                ends_with_str(file_path, tail)
            } else {
                contains_str(file_path, rule)
            };
            proof {
                assert(self.ignore_rules()[i as int] == rule@);
            }
            if hit {
                return true;
            }
            i = i + 1;
        }
        false
    }

    /// The phase names, in the table's insertion order.
    pub fn get_phases(&self) -> (r: Vec<String>)
        ensures
            r@.map_values(|s: String| s@) == self.entries().map_values(
                |e: (Seq<char>, Seq<char>)| e.0,
            ),
    {
        let pairs = pt_entry_list(&self.phase);
        let mut out: Vec<String> = Vec::new();
        let mut i: usize = 0;
        proof {
            assert(out@.map_values(|s: String| s@) =~= self.entries().map_values(
                |e: (Seq<char>, Seq<char>)| e.0,
            ).subrange(0, 0));
        }
        while i < pairs.len()
            invariant
                0 <= i <= pairs.len(),
                pairs@.map_values(|p: (String, String)| (p.0@, p.1@)) == self.entries(),
                pairs@.len() == self.entries().len(),
                out@.map_values(|s: String| s@) == self.entries().map_values(
                    |e: (Seq<char>, Seq<char>)| e.0,
                ).subrange(0, i as int),
            decreases pairs.len() - i,
        {
            let ghost pre = out@.map_values(|s: String| s@);
            out.push(pairs[i].0.clone());
            proof {
                let keys = self.entries().map_values(|e: (Seq<char>, Seq<char>)| e.0);
                assert(pairs@.map_values(|p: (String, String)| (p.0@, p.1@))[i as int]
                    == (pairs@[i as int].0@, pairs@[i as int].1@));
                assert(keys[i as int] == self.entries()[i as int].0);
                assert(out@.map_values(|s: String| s@) =~= pre.push(pairs@[i as int].0@));
                assert(keys.subrange(0, i + 1) =~= keys.subrange(0, i as int).push(keys[i as int]));
            }
            i = i + 1;
        }
        proof {
            assert(self.entries().map_values(|e: (Seq<char>, Seq<char>)| e.0).subrange(
                0,
                self.entries().len() as int,
            ) =~= self.entries().map_values(|e: (Seq<char>, Seq<char>)| e.0));
        }
        out
    }

    /// The phase table as (name, color) pairs, in insertion order.
    pub fn phase_list(&self) -> (r: Vec<(String, String)>)
        ensures
            r@.map_values(|p: (String, String)| (p.0@, p.1@)) == self.entries(),
    {
        pt_entry_list(&self.phase)
    }
}

impl Default for Config {
    /// The built-in configuration: the three course phases plus the
    /// `"Unknown"` fallback, and one rule ignoring index documents.
    fn default() -> (r: Config)
        ensures
            r.root_key@ == "course-map"@,
            r.ignore@.map_values(|s: String| s@) == seq!["/index.qmd"@],
            r.entries() == seq![
                ("Pre"@, "lightblue"@),
                ("InClass"@, "lightgreen"@),
                ("Post"@, "orange"@),
                ("Unknown"@, "lightgray"@),
            ],
            r.wf(),
    {
        let mut phases: Vec<(String, String)> = Vec::new();
        phases.push(("Pre".to_owned(), "lightblue".to_owned()));
        phases.push(("InClass".to_owned(), "lightgreen".to_owned()));
        phases.push(("Post".to_owned(), "orange".to_owned()));
        phases.push(("Unknown".to_owned(), "lightgray".to_owned()));
        let mut ignore: Vec<String> = Vec::new();
        ignore.push("/index.qmd".to_owned());
        proof {
            assert(phases@.map_values(|p: (String, String)| (p.0@, p.1@)) =~= seq![
                ("Pre"@, "lightblue"@),
                ("InClass"@, "lightgreen"@),
                ("Post"@, "orange"@),
                ("Unknown"@, "lightgray"@),
            ]);
        }
        let r = Config::new("course-map".to_owned(), phases, ignore);
        proof {
            reveal_strlit("Pre");
            reveal_strlit("InClass");
            reveal_strlit("Post");
            reveal_strlit("Unknown");
            assert("Pre"@.len() == 3 && "InClass"@.len() == 7 && "Post"@.len() == 4
                && "Unknown"@.len() == 7);
            assert("InClass"@[0] == 'I' && "Unknown"@[0] == 'U');
            assert("Pre"@ != "InClass"@ && "Pre"@ != "Post"@ && "Pre"@ != "Unknown"@);
            assert("InClass"@ != "Post"@ && "Post"@ != "Unknown"@);
            assert("InClass"@ != "Unknown"@);
            lemma_default_entries();
            assert(r.ignore@.map_values(|s: String| s@) =~= seq!["/index.qmd"@]);
        }
        r
    }
}

/// Evaluates the entry fold for the four built-in phases.
proof fn lemma_default_entries()
    requires
        "Pre"@ != "InClass"@,
        "Pre"@ != "Post"@,
        "Pre"@ != "Unknown"@,
        "InClass"@ != "Post"@,
        "InClass"@ != "Unknown"@,
        "Post"@ != "Unknown"@,
    ensures
        spec_build_entries(
            seq![
                ("Pre"@, "lightblue"@),
                ("InClass"@, "lightgreen"@),
                ("Post"@, "orange"@),
                ("Unknown"@, "lightgray"@),
            ],
        ) == seq![
            ("Pre"@, "lightblue"@),
            ("InClass"@, "lightgreen"@),
            ("Post"@, "orange"@),
            ("Unknown"@, "lightgray"@),
        ],
{
    let p4 = seq![
        ("Pre"@, "lightblue"@),
        ("InClass"@, "lightgreen"@),
        ("Post"@, "orange"@),
        ("Unknown"@, "lightgray"@),
    ];
    let p3 = seq![("Pre"@, "lightblue"@), ("InClass"@, "lightgreen"@), ("Post"@, "orange"@)];
    let p2 = seq![("Pre"@, "lightblue"@), ("InClass"@, "lightgreen"@)];
    let p1 = seq![("Pre"@, "lightblue"@)];
    let p0 = Seq::<(Seq<char>, Seq<char>)>::empty();
    assert(p4.drop_last() =~= p3);
    assert(p3.drop_last() =~= p2);
    assert(p2.drop_last() =~= p1);
    assert(p1.drop_last() =~= p0);
    assert(spec_build_entries(p0) == p0);
    lemma_key_index(spec_build_entries(p0), "Pre"@);
    assert(spec_build_entries(p1) =~= p1);
    lemma_key_index(p1, "InClass"@);
    assert(spec_build_entries(p2) =~= p2);
    lemma_key_index(p2, "Post"@);
    assert(spec_build_entries(p3) =~= p3);
    lemma_key_index(p3, "Unknown"@);
    assert(spec_build_entries(p4) =~= p4);
}

} // verus!
