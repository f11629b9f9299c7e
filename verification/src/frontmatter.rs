//! The extractor: turns one file's raw text into a `Document`, or reports
//! why its metadata header cannot be read. The grammar — a leading block
//! between `---` delimiter lines holding `key: value` pairs and `- item`
//! list entries — is this crate's own logic, stated by the spec functions
//! here and proved of the executable parser.
use vstd::prelude::*;
use vstd::string::StrSliceExecFns;
use crate::config::{has_key, Config};
use crate::document::{DocView, Document};
use crate::text::{
    scan_len, spec_lines, spec_trim, split_lines, str_eq, find_first, trim_str,
};
use crate::warning::{ParseErrorKind, WarnView, Warning};

verus! {

/// What kind of line list entries currently belong to.
#[derive(Clone, Copy, PartialEq, Eq, Structural)]
pub enum ListCtx {
    /// No key opened a list; a bare list entry is malformed.
    NoList,
    /// Entries extend the prerequisite list.
    PrereqList,
    /// Entries belong to an unrecognized key and are skipped.
    OtherList,
}

/// Fields gathered while the header block is read.
pub struct HeaderFields {
    pub id: Option<String>,
    pub title: Option<String>,
    pub phase: Option<String>,
    pub prereqs: Vec<String>,
    pub ctx: ListCtx,
}

/// Mathematical image of `HeaderFields`.
pub ghost struct HeaderState {
    pub id: Option<Seq<char>>,
    pub title: Option<Seq<char>>,
    pub phase: Option<Seq<char>>,
    pub prereqs: Seq<Seq<char>>,
    pub ctx: ListCtx,
}

impl View for HeaderFields {
    type V = HeaderState;

    open spec fn view(&self) -> HeaderState {
        HeaderState {
            id: match self.id {
                Some(s) => Some(s@),
                None => None,
            },
            title: match self.title {
                Some(s) => Some(s@),
                None => None,
            },
            phase: match self.phase {
                Some(s) => Some(s@),
                None => None,
            },
            prereqs: self.prereqs@.map_values(|p: String| p@),
            ctx: self.ctx,
        }
    }
}

pub open spec fn init_state() -> HeaderState {
    HeaderState {
        id: None,
        title: None,
        phase: None,
        prereqs: Seq::empty(),
        ctx: ListCtx::NoList,
    }
}

/// One header line changes the gathered state, or is malformed. Blank and
/// comment lines are skipped; `- item` lines extend the open list;
/// `key: value` lines set a scalar field (an empty value leaves the field
/// as it was) or open a list.
pub open spec fn spec_step(st: HeaderState, line: Seq<char>) -> Result<
    HeaderState,
    ParseErrorKind,
> {
    let t = spec_trim(line);
    if t.len() == 0 {
        Ok(st)
    } else if t[0] == '#' {
        Ok(st)
    } else if t[0] == '-' {
        match st.ctx {
            ListCtx::NoList => Err(ParseErrorKind::MalformedEntry),
            ListCtx::OtherList => Ok(st),
            ListCtx::PrereqList => {
                let entry = spec_trim(t.skip(1));
                if entry.len() == 0 || st.prereqs.contains(entry) {
                    Ok(st)
                } else {
                    Ok(
                        HeaderState {
                            id: st.id,
                            title: st.title,
                            phase: st.phase,
                            prereqs: st.prereqs.push(entry),
                            ctx: st.ctx,
                        },
                    )
                }
            },
        }
    } else {
        let n = scan_len(t, ':') as int;
        if n >= t.len() {
            Err(ParseErrorKind::MalformedEntry)
        } else {
            let key = spec_trim(t.subrange(0, n));
            let val = spec_trim(t.subrange(n + 1, t.len() as int));
            if key.len() == 0 {
                Err(ParseErrorKind::MalformedEntry)
            } else if key == "id"@ {
                Ok(
                    HeaderState {
                        id: if val.len() > 0 { Some(val) } else { st.id },
                        title: st.title,
                        phase: st.phase,
                        prereqs: st.prereqs,
                        ctx: ListCtx::NoList,
                    },
                )
            } else if key == "title"@ {
                Ok(
                    HeaderState {
                        id: st.id,
                        title: if val.len() > 0 { Some(val) } else { st.title },
                        phase: st.phase,
                        prereqs: st.prereqs,
                        ctx: ListCtx::NoList,
                    },
                )
            } else if key == "phase"@ {
                Ok(
                    HeaderState {
                        id: st.id,
                        title: st.title,
                        phase: if val.len() > 0 { Some(val) } else { st.phase },
                        prereqs: st.prereqs,
                        ctx: ListCtx::NoList,
                    },
                )
            } else if key == "prerequisites"@ {
                if val.len() > 0 {
                    Err(ParseErrorKind::MalformedEntry)
                } else {
                    Ok(
                        HeaderState {
                            id: st.id,
                            title: st.title,
                            phase: st.phase,
                            prereqs: st.prereqs,
                            ctx: ListCtx::PrereqList,
                        },
                    )
                }
            } else {
                Ok(
                    HeaderState {
                        id: st.id,
                        title: st.title,
                        phase: st.phase,
                        prereqs: st.prereqs,
                        ctx: ListCtx::OtherList,
                    },
                )
            }
        }
    }
}

/// Folding `spec_step` over the header lines.
pub open spec fn spec_run(lines: Seq<Seq<char>>, st: HeaderState) -> Result<
    HeaderState,
    ParseErrorKind,
>
    decreases lines.len(),
{
    if lines.len() == 0 {
        Ok(st)
    } else {
        match spec_step(st, lines[0]) {
            Ok(s2) => spec_run(lines.skip(1), s2),
            Err(e) => Err(e),
        }
    }
}

/// Index of the first line whose trimmed text is `---`, or the length.
pub open spec fn close_scan(lines: Seq<Seq<char>>) -> nat
    decreases lines.len(),
{
    if lines.len() == 0 {
        0
    } else if spec_trim(lines[0]) == "---"@ {
        0
    } else {
        1 + close_scan(lines.skip(1))
    }
}

pub proof fn lemma_close_scan_unique(lines: Seq<Seq<char>>, n: int)
    requires
        0 <= n <= lines.len(),
        forall|k: int| 0 <= k < n ==> spec_trim(lines[k]) != "---"@,
        n < lines.len() ==> spec_trim(lines[n]) == "---"@,
    ensures
        n == close_scan(lines),
    decreases lines.len(),
{
    if lines.len() == 0 {
    } else if spec_trim(lines[0]) == "---"@ {
        assert(n == 0);
    } else {
        assert(n != 0);
        assert forall|k: int| 0 <= k < n - 1 implies spec_trim(lines.skip(1)[k]) != "---"@ by {
            assert(lines.skip(1)[k] == lines[k + 1]);
        }
        if n - 1 < lines.skip(1).len() {
            assert(lines.skip(1)[n - 1] == lines[n]);
        }
        lemma_close_scan_unique(lines.skip(1), n - 1);
    }
}

/// The portion of `s` after its last `/`, the whole of it if none occurs.
pub open spec fn after_last_slash(s: Seq<char>) -> Seq<char>
    decreases s.len(),
{
    if s.len() == 0 {
        s
    } else if s.last() == '/' {
        Seq::empty()
    } else {
        after_last_slash(s.drop_last()).push(s.last())
    }
}

pub proof fn lemma_after_last_slash(s: Seq<char>, j: int)
    requires
        0 <= j <= s.len(),
        forall|k: int| j <= k < s.len() ==> s[k] != '/',
        j > 0 ==> s[j - 1] == '/',
    ensures
        after_last_slash(s) == s.subrange(j, s.len() as int),
    decreases s.len(),
{
    if s.len() == 0 {
        assert(s.subrange(0, 0) =~= s);
    } else if s.last() == '/' {
        assert(j == s.len());
        assert(s.subrange(j, s.len() as int) =~= Seq::<char>::empty());
    } else {
        assert(j < s.len());
        assert forall|k: int| j <= k < s.drop_last().len() implies s.drop_last()[k] != '/' by {
            assert(s.drop_last()[k] == s[k]);
        }
        lemma_after_last_slash(s.drop_last(), j);
        assert(after_last_slash(s) =~= s.subrange(j, s.len() as int)) by {
            assert(s.drop_last().subrange(j, s.drop_last().len() as int) =~= s.subrange(
                j,
                s.len() - 1,
            ));
            assert(s.subrange(j, s.len() - 1).push(s.last()) =~= s.subrange(j, s.len() as int));
        }
    }
}

pub open spec fn has_char(s: Seq<char>, c: char) -> bool {
    exists|i: int| 0 <= i < s.len() && s[i] == c
}

/// `s` without its last `.`-separated extension, `s` itself if it has none.
pub open spec fn strip_ext(s: Seq<char>) -> Seq<char>
    decreases s.len(),
{
    if !has_char(s, '.') {
        s
    } else if s.last() == '.' {
        s.drop_last()
    } else {
        strip_ext(s.drop_last())
    }
}

pub proof fn lemma_strip_ext(s: Seq<char>, j: int)
    requires
        0 <= j <= s.len(),
        forall|k: int| j <= k < s.len() ==> s[k] != '.',
        j > 0 ==> s[j - 1] == '.',
    ensures
        strip_ext(s) == if j > 0 {
            s.subrange(0, j - 1)
        } else {
            s
        },
    decreases s.len(),
{
    if j == 0 {
        assert(!has_char(s, '.'));
    } else {
        assert(has_char(s, '.')) by {
            assert(s[j - 1] == '.');
        }
        if s.last() == '.' {
            assert(j == s.len()) by {
                if j < s.len() {
                    assert(s[s.len() - 1] != '.');
                }
            }
            assert(s.drop_last() =~= s.subrange(0, j - 1));
        } else {
            assert(j < s.len());
            assert forall|k: int| j <= k < s.drop_last().len() implies s.drop_last()[k] != '.' by {
                assert(s.drop_last()[k] == s[k]);
            }
            lemma_strip_ext(s.drop_last(), j);
            assert(s.drop_last().subrange(0, j - 1) =~= s.subrange(0, j - 1));
        }
    }
}

/// The filename stem of a path: after the last `/`, before the last `.`.
pub open spec fn spec_stem(path: Seq<char>) -> Seq<char> {
    strip_ext(after_last_slash(path))
}

/// The stem of `path`, pinned to `spec_stem`.
pub fn stem_of(path: &str) -> (r: String)
    ensures
        r@ == spec_stem(path@),
{
    let n: usize = path.unicode_len();
    let mut j: usize = n;
    while j > 0 && path.get_char(j - 1) != '/'
        invariant
            0 <= j <= n,
            n as nat == path@.len(),
            forall|k: int| j <= k < n ==> path@[k] != '/',
        decreases j,
    {
        j = j - 1;
    }
    proof {
        lemma_after_last_slash(path@, j as int);
    }
    let base = path.substring_char(j, n);
    proof {
        assert(base@ =~= after_last_slash(path@));
    }
    let bn: usize = n - j;
    let mut e: usize = bn;
    while e > 0 && base.get_char(e - 1) != '.'
        invariant
            0 <= e <= bn,
            bn as nat == base@.len(),
            forall|k: int| e <= k < bn ==> base@[k] != '.',
        decreases e,
    {
        e = e - 1;
    }
    proof {
        lemma_strip_ext(base@, e as int);
    }
    if e > 0 {
        let r = base.substring_char(0, e - 1);
        r.to_owned()
    } else {
        base.to_owned()
    }
}

/// Resolution of the gathered fields into a `Document` image: a missing id
/// falls back to the filename stem, a missing title to the id, and a
/// missing or unrecognized phase to `"Unknown"`.
pub open spec fn spec_resolve(
    st: HeaderState,
    path: Seq<char>,
    es: Seq<(Seq<char>, Seq<char>)>,
) -> DocView {
    let id = match st.id {
        Some(v) => v,
        None => spec_stem(path),
    };
    let title = match st.title {
        Some(t) => t,
        None => id,
    };
    let phase = match st.phase {
        Some(p) => if has_key(es, p) {
            p
        } else {
            "Unknown"@
        },
        None => "Unknown"@,
    };
    DocView { id, title, phase, prerequisites: st.prereqs, file_path: path }
}

/// What extraction yields for one file against the phase table `es`.
pub open spec fn spec_parse_document(
    path: Seq<char>,
    contents: Seq<char>,
    es: Seq<(Seq<char>, Seq<char>)>,
) -> Result<DocView, ParseErrorKind> {
    let lines = spec_lines(contents);
    if spec_trim(lines[0]) != "---"@ {
        Err(ParseErrorKind::MissingDelimiter)
    } else {
        let c = close_scan(lines.skip(1)) as int;
        if c >= lines.len() - 1 {
            Err(ParseErrorKind::UnterminatedHeader)
        } else {
            match spec_run(lines.subrange(1, 1 + c), init_state()) {
                Ok(st) => Ok(spec_resolve(st, path, es)),
                Err(e) => Err(e),
            }
        }
    }
}

/// Whether `x` occurs among the strings of `v`.
fn vec_contains_str(v: &Vec<String>, x: &str) -> (r: bool)
    ensures
        r == v@.map_values(|s: String| s@).contains(x@),
{
    let mut i: usize = 0;
    while i < v.len()
        invariant
            0 <= i <= v.len(),
            forall|k: int| 0 <= k < i ==> v@[k]@ != x@,
        decreases v.len() - i,
    {
        if str_eq(v[i].as_str(), x) {
            proof {
                assert(v@.map_values(|s: String| s@)[i as int] == x@);
            }
            return true;
        }
        i = i + 1;
    }
    proof {
        let m = v@.map_values(|s: String| s@);
        assert forall|k: int| 0 <= k < m.len() implies m[k] != x@ by {
            assert(m[k] == v@[k]@);
        }
    }
    false
}

/// One header line applied to the gathered fields, pinned to `spec_step`.
fn step_line(st: HeaderFields, line: &str) -> (r: Result<HeaderFields, ParseErrorKind>)
    ensures
        match r {
            Ok(s2) => spec_step(st@, line@) == Ok::<HeaderState, ParseErrorKind>(s2@),
            Err(e) => spec_step(st@, line@) == Err::<HeaderState, ParseErrorKind>(e),
        },
{
    let t = trim_str(line);
    let ts: &str = t.as_str();
    let tn: usize = ts.unicode_len();
    if tn == 0 {
        return Ok(st);
    }
    let c0 = ts.get_char(0);
    if c0 == '#' {
        return Ok(st);
    }
    if c0 == '-' {
        match st.ctx {
            ListCtx::NoList => {
                return Err(ParseErrorKind::MalformedEntry);
            },
            ListCtx::OtherList => {
                return Ok(st);
            },
            ListCtx::PrereqList => {
                let rest = ts.substring_char(1, tn);
                proof {
                    assert(rest@ =~= spec_trim(line@).skip(1));
                }
                let entry = trim_str(rest);
                if entry.as_str().unicode_len() == 0 || vec_contains_str(&st.prereqs, entry.as_str()) {
                    return Ok(st);
                }
                let mut pr = st.prereqs;
                let ghost pre = pr@.map_values(|p: String| p@);
                pr.push(entry);
                let s2 = HeaderFields {
                    id: st.id,
                    title: st.title,
                    phase: st.phase,
                    prereqs: pr,
                    ctx: st.ctx,
                };
                proof {
                    assert(s2@.prereqs =~= pre.push(spec_trim(spec_trim(line@).skip(1))));
                }
                return Ok(s2);
            },
        }
    }
    let n = find_first(ts, ':');
    if n >= tn {
        return Err(ParseErrorKind::MalformedEntry);
    }
    let key_raw = ts.substring_char(0, n);
    let val_raw = ts.substring_char(n + 1, tn);
    proof {
        assert(key_raw@ =~= spec_trim(line@).subrange(0, scan_len(spec_trim(line@), ':') as int));
        assert(val_raw@ =~= spec_trim(line@).subrange(
            scan_len(spec_trim(line@), ':') as int + 1,
            spec_trim(line@).len() as int,
        ));
    }
    let key = trim_str(key_raw);
    let val = trim_str(val_raw);
    let kn: usize = key.as_str().unicode_len();
    let vn: usize = val.as_str().unicode_len();
    if kn == 0 {
        return Err(ParseErrorKind::MalformedEntry);
    }
    if str_eq(key.as_str(), "id") {
        let id = if vn > 0 {
            Some(val)
        } else {
            st.id
        };
        return Ok(
            HeaderFields {
                id,
                title: st.title,
                phase: st.phase,
                prereqs: st.prereqs,
                ctx: ListCtx::NoList,
            },
        );
    }
    if str_eq(key.as_str(), "title") {
        let title = if vn > 0 {
            Some(val)
        } else {
            st.title
        };
        return Ok(
            HeaderFields {
                id: st.id,
                title,
                phase: st.phase,
                prereqs: st.prereqs,
                ctx: ListCtx::NoList,
            },
        );
    }
    if str_eq(key.as_str(), "phase") {
        let phase = if vn > 0 {
            Some(val)
        } else {
            st.phase
        };
        return Ok(
            HeaderFields {
                id: st.id,
                title: st.title,
                phase,
                prereqs: st.prereqs,
                ctx: ListCtx::NoList,
            },
        );
    }
    if str_eq(key.as_str(), "prerequisites") {
        if vn > 0 {
            return Err(ParseErrorKind::MalformedEntry);
        }
        return Ok(
            HeaderFields {
                id: st.id,
                title: st.title,
                phase: st.phase,
                prereqs: st.prereqs,
                ctx: ListCtx::PrereqList,
            },
        );
    }
    Ok(
        HeaderFields {
            id: st.id,
            title: st.title,
            phase: st.phase,
            prereqs: st.prereqs,
            ctx: ListCtx::OtherList,
        },
    )
}

impl Config {
    /// Whether `name` is a phase the table knows.
    pub fn has_phase(&self, name: &str) -> (r: bool)
        requires
            self.wf(),
        ensures
            r == has_key(self.entries(), name@),
    {
        let ghost es = self.entries();
        match crate::phase_table::pt_get(&self.phase, name) {
            Some(v) => {
                proof {
                    let i = choose|i: int| 0 <= i < es.len() && es[i] == (name@, v.face@);
                    crate::config::lemma_key_index_of_match(es, name@, i);
                }
                true
            },
            None => {
                proof {
                    crate::config::lemma_key_index(es, name@);
                    if has_key(es, name@) {
                        assert(es[crate::config::key_index(es, name@) as int].0 == name@);
                    }
                }
                false
            },
        }
    }
}

/// Whether a line's trimmed text is the `---` delimiter.
fn is_delim_line(line: &str) -> (r: bool)
    ensures
        r == (spec_trim(line@) == "---"@),
{
    let t = trim_str(line);
    str_eq(t.as_str(), "---")
}

/// Extract a `Document` from one file's contents, pinned to
/// `spec_parse_document`.
pub fn parse_document(path: &str, contents: &str, config: &Config) -> (r: Result<
    Document,
    ParseErrorKind,
>)
    requires
        config.wf(),
    ensures
        match r {
            Ok(d) => spec_parse_document(path@, contents@, config.entries()) == Ok::<
                DocView,
                ParseErrorKind,
            >(d@),
            Err(e) => spec_parse_document(path@, contents@, config.entries()) == Err::<
                DocView,
                ParseErrorKind,
            >(e),
        },
{
    let lines = split_lines(contents);
    let ghost sl = spec_lines(contents@);
    if !is_delim_line(lines[0].as_str()) {
        return Err(ParseErrorKind::MissingDelimiter);
    }
    // find the closing delimiter
    let mut j: usize = 1;
    while j < lines.len() && !is_delim_line(lines[j].as_str())
        invariant
            1 <= j <= lines.len(),
            lines@.map_values(|l: String| l@) == sl,
            lines@.len() == sl.len(),
            forall|k: int| 1 <= k < j ==> spec_trim(sl[k]) != "---"@,
        decreases lines.len() - j,
    {
        j = j + 1;
    }
    proof {
        assert forall|k: int| 0 <= k < j - 1 implies spec_trim(sl.skip(1)[k]) != "---"@ by {
            assert(sl.skip(1)[k] == sl[k + 1]);
        }
        if j < sl.len() {
            assert(sl.skip(1)[j - 1] == sl[j as int]);
        }
        lemma_close_scan_unique(sl.skip(1), j - 1);
    }
    if j >= lines.len() {
        return Err(ParseErrorKind::UnterminatedHeader);
    }
    // fold the header lines
    let ghost hl = sl.subrange(1, j as int);
    let mut st = HeaderFields {
        id: None,
        title: None,
        phase: None,
        prereqs: Vec::new(),
        ctx: ListCtx::NoList,
    };
    proof {
        assert(st@.prereqs =~= init_state().prereqs);
        assert(st@ == init_state());
        assert(hl.skip(0) =~= hl);
    }
    let mut k: usize = 1;
    while k < j
        invariant
            1 <= k <= j,
            j < lines.len(),
            lines@.map_values(|l: String| l@) == sl,
            lines@.len() == sl.len(),
            sl == spec_lines(contents@),
            spec_trim(sl[0]) == "---"@,
            close_scan(sl.skip(1)) == j - 1,
            hl == sl.subrange(1, j as int),
            spec_run(hl.skip(k - 1), st@) == spec_run(hl, init_state()),
        decreases j - k,
    {
        let ghost pre = st@;
        let res = step_line(st, lines[k].as_str());
        proof {
            assert(lines@.map_values(|l: String| l@)[k as int] == lines@[k as int]@);
            assert(hl.skip(k - 1)[0] == hl[k - 1] && hl[k - 1] == sl[k as int]);
            assert(hl.skip(k - 1).skip(1) =~= hl.skip(k as int));
        }
        match res {
            Ok(s2) => {
                st = s2;
            },
            Err(e) => {
                proof {
                    assert(spec_run(hl.skip(k - 1), pre) == Err::<HeaderState, ParseErrorKind>(e));
                    assert(spec_run(hl, init_state()) == Err::<HeaderState, ParseErrorKind>(e));
                    assert(spec_parse_document(path@, contents@, config.entries()) == Err::<
                        DocView,
                        ParseErrorKind,
                    >(e));
                }
                return Err(e);
            },
        }
        k = k + 1;
    }
    proof {
        assert(hl.skip(j - 1) =~= Seq::<Seq<char>>::empty());
        assert(spec_run(hl, init_state()) == Ok::<HeaderState, ParseErrorKind>(st@));
    }
    // resolve defaults
    let id: String = match st.id {
        Some(v) => v,
        None => stem_of(path),
    };
    let title: String = match st.title {
        Some(t) => t,
        None => id.clone(),
    };
    let phase: String = match st.phase {
        Some(p) => {
            if config.has_phase(p.as_str()) {
                p
            } else {
                "Unknown".to_owned()
            }
        },
        None => "Unknown".to_owned(),
    };
    let d = Document { id, title, phase, prerequisites: st.prereqs, file_path: path.to_owned() };
    proof {
        assert(d@ == spec_resolve(st@, path@, config.entries()));
    }
    Ok(d)
}

/// One input to the pipeline: a path and the text found there.
pub struct SourceFile {
    pub path: String,
    pub contents: String,
}

/// What extraction yields over a whole file list: the documents of the
/// files whose header parses, in order, and one warning per file whose
/// header does not.
pub open spec fn spec_extract(
    files: Seq<(Seq<char>, Seq<char>)>,
    es: Seq<(Seq<char>, Seq<char>)>,
) -> (Seq<DocView>, Seq<WarnView>)
    decreases files.len(),
{
    if files.len() == 0 {
        (Seq::empty(), Seq::empty())
    } else {
        let prev = spec_extract(files.drop_last(), es);
        let f = files.last();
        match spec_parse_document(f.0, f.1, es) {
            Ok(d) => (prev.0.push(d), prev.1),
            Err(e) => (prev.0, prev.1.push(WarnView::Parse { file_path: f.0, reason: e })),
        }
    }
}

/// Extract every file in order; a file whose header fails to parse is
/// recorded as a warning and skipped, never aborting the stage.
pub fn parse_documents(files: &Vec<SourceFile>, config: &Config) -> (r: (
    Vec<Document>,
    Vec<Warning>,
))
    requires
        config.wf(),
    ensures
        r.0@.map_values(|d: Document| d@) == spec_extract(
            files@.map_values(|f: SourceFile| (f.path@, f.contents@)),
            config.entries(),
        ).0,
        r.1@.map_values(|w: Warning| w@) == spec_extract(
            files@.map_values(|f: SourceFile| (f.path@, f.contents@)),
            config.entries(),
        ).1,
{
    let ghost all = files@.map_values(|f: SourceFile| (f.path@, f.contents@));
    let mut docs: Vec<Document> = Vec::new();
    let mut warns: Vec<Warning> = Vec::new();
    let mut i: usize = 0;
    proof {
        assert(all.subrange(0, 0) =~= Seq::<(Seq<char>, Seq<char>)>::empty());
        assert(docs@.map_values(|d: Document| d@) =~= Seq::<DocView>::empty());
        assert(warns@.map_values(|w: Warning| w@) =~= Seq::<WarnView>::empty());
    }
    while i < files.len()
        invariant
            0 <= i <= files.len(),
            config.wf(),
            all == files@.map_values(|f: SourceFile| (f.path@, f.contents@)),
            all.len() == files@.len(),
            docs@.map_values(|d: Document| d@) == spec_extract(
                all.subrange(0, i as int),
                config.entries(),
            ).0,
            warns@.map_values(|w: Warning| w@) == spec_extract(
                all.subrange(0, i as int),
                config.entries(),
            ).1,
        decreases files.len() - i,
    {
        let ghost dpre = docs@.map_values(|d: Document| d@);
        let ghost wpre = warns@.map_values(|w: Warning| w@);
        proof {
            assert(all.subrange(0, i + 1).drop_last() =~= all.subrange(0, i as int));
            assert(all.subrange(0, i + 1).last() == all[i as int]);
            assert(all[i as int] == (files@[i as int].path@, files@[i as int].contents@));
        }
        match parse_document(files[i].path.as_str(), files[i].contents.as_str(), config) {
            Ok(d) => {
                let ghost dv = d@;
                docs.push(d);
                proof {
                    assert(docs@.map_values(|d: Document| d@) =~= dpre.push(dv));
                }
            },
            Err(e) => {
                let w = Warning::Parse { file_path: files[i].path.clone(), reason: e };
                let ghost wv = w@;
                warns.push(w);
                proof {
                    assert(warns@.map_values(|w: Warning| w@) =~= wpre.push(wv));
                }
            },
        }
        i = i + 1;
    }
    proof {
        assert(all.subrange(0, files@.len() as int) =~= all);
    }
    (docs, warns)
}

} // verus!
