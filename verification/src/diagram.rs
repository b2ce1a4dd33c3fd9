//! The diagram model and the line-oriented parser.
//!
//! A diagram is a title and an ordered list of flows.  The parser
//! walks the document line by line: a line containing the marker
//! `title:` sets the title (the last such line wins); any other line
//! that is non-empty after trimming becomes one flow — a directed
//! `Standard` flow when it contains `->`, a `Standalone` node
//! declaration otherwise.  A line whose source or target is empty is
//! malformed and skipped; parsing itself never fails.

use crate::chars::chars_of;
use crate::chars::span_string;
use crate::chars::subvec;
use crate::chars::trim_ws_bounds;
use crate::chars::trim_ws_spec;
use crate::chars::trimmed_ws_string;
use vstd::prelude::*;
use vstd::string::StringExecFns;

verus! {

/// One parsed statement: a standalone node declaration, or a directed
/// flow from a source to a target with an optional label (empty when
/// none was given).
#[derive(Debug, PartialEq, Eq)]
pub enum FlowType {
    Standalone(String),
    Standard(String, String, String),
}

/// The mathematical shape of a flow.
pub ghost enum FlowModel {
    Standalone(Seq<char>),
    Standard(Seq<char>, Seq<char>, Seq<char>),
}

impl View for FlowType {
    type V = FlowModel;

    open spec fn view(&self) -> FlowModel {
        match self {
            FlowType::Standalone(name) => FlowModel::Standalone(name@),
            FlowType::Standard(source, target, label) => FlowModel::Standard(
                source@,
                target@,
                label@,
            ),
        }
    }
}

impl DeepView for FlowType {
    type V = FlowModel;

    open spec fn deep_view(&self) -> FlowModel {
        self@
    }
}

/// A parsed diagram: its title (defaulting to `Untitled`) and its
/// flows in document order.
#[derive(Debug)]
pub struct Diagram {
    pub title: String,
    pub flows: Vec<FlowType>,
}

/// The mathematical shape of a diagram.
pub ghost struct DiagramModel {
    pub title: Seq<char>,
    pub flows: Seq<FlowModel>,
}

impl View for Diagram {
    type V = DiagramModel;

    open spec fn view(&self) -> DiagramModel {
        DiagramModel { title: self.title@, flows: self.flows.deep_view() }
    }
}

/// The first position at or after `i` holding a newline, or the length
/// of `s` when there is none.
pub open spec fn newline_from(s: Seq<char>, i: int) -> int
    decreases s.len() - i,
    when 0 <= i <= s.len()
{
    if i == s.len() {
        i
    } else if s[i] == '\n' {
        i
    } else {
        newline_from(s, i + 1)
    }
}

pub proof fn lemma_newline_from(s: Seq<char>, i: int)
    requires
        0 <= i <= s.len(),
    ensures
        i <= newline_from(s, i) <= s.len(),
        newline_from(s, i) < s.len() ==> s[newline_from(s, i)] == '\n',
    decreases s.len() - i,
{
    if i < s.len() && s[i] != '\n' {
        lemma_newline_from(s, i + 1);
    }
}

/// The lines of `s` from position `i` onward.  A line ends at a
/// newline or at a carriage return followed by a newline; there is no
/// trailing empty line when `s` ends in a line break.
pub open spec fn lines_from(s: Seq<char>, i: int) -> Seq<Seq<char>>
    decreases s.len() - i,
    when 0 <= i <= s.len()
    via lines_from_decreases
{
    if i == s.len() {
        Seq::empty()
    } else {
        let k = newline_from(s, i);
        if k == s.len() {
            seq![s.subrange(i, k)]
        } else {
            let e = if k > i && s[k - 1] == '\r' {
                k - 1
            } else {
                k
            };
            seq![s.subrange(i, e)] + lines_from(s, k + 1)
        }
    }
}

#[via_fn]
proof fn lines_from_decreases(s: Seq<char>, i: int) {
    if 0 <= i && i < s.len() {
        lemma_newline_from(s, i);
    }
}

/// The lines of a document.
pub open spec fn lines_of(s: Seq<char>) -> Seq<Seq<char>> {
    lines_from(s, 0)
}

/// The first position at or after `i` where `pat` occurs in `l`.
pub open spec fn find_from(l: Seq<char>, pat: Seq<char>, i: int) -> Option<int>
    decreases l.len() - i,
    when 0 <= i && pat.len() > 0
{
    if i + pat.len() > l.len() {
        None
    } else if l.subrange(i, i + pat.len()) == pat {
        Some(i)
    } else {
        find_from(l, pat, i + 1)
    }
}

pub proof fn lemma_find_from(l: Seq<char>, pat: Seq<char>, i: int)
    requires
        0 <= i,
        pat.len() > 0,
    ensures
        find_from(l, pat, i) matches Some(j) ==> i <= j && j + pat.len() <= l.len()
            && l.subrange(j, j + pat.len()) == pat,
    decreases l.len() - i,
{
    if i + pat.len() > l.len() {
    } else if l.subrange(i, i + pat.len()) == pat {
    } else {
        lemma_find_from(l, pat, i + 1);
    }
}

/// The marker that makes a line a title line.
pub open spec fn title_marker() -> Seq<char> {
    seq!['t', 'i', 't', 'l', 'e', ':']
}

/// The two characters of a directed flow.
pub open spec fn arrow_pat() -> Seq<char> {
    seq!['-', '>']
}

/// The separator between a flow's target and its label.
pub open spec fn colon_pat() -> Seq<char> {
    seq![':']
}

/// The title of a diagram with no title line.
pub open spec fn default_title() -> Seq<char> {
    seq!['U', 'n', 't', 'i', 't', 'l', 'e', 'd']
}

/// The title a line assigns, if it contains the `title:` marker: the
/// trimmed text after the marker's first occurrence.
pub open spec fn line_title(l: Seq<char>) -> Option<Seq<char>> {
    match find_from(l, title_marker(), 0) {
        Some(p) => Some(trim_ws_spec(l.skip(p + 6))),
        None => None,
    }
}

/// The target named by the text after an arrow: the trimmed text up
/// to the first colon, or the whole trimmed text when there is none.
pub open spec fn flow_target(rest: Seq<char>) -> Seq<char> {
    match find_from(rest, colon_pat(), 0) {
        Some(m) => trim_ws_spec(rest.take(m)),
        None => trim_ws_spec(rest),
    }
}

/// The label named by the text after an arrow: the trimmed text after
/// the first colon, or empty when there is none.
pub open spec fn flow_label(rest: Seq<char>) -> Seq<char> {
    match find_from(rest, colon_pat(), 0) {
        Some(m) => trim_ws_spec(rest.skip(m + 1)),
        None => Seq::empty(),
    }
}

/// The flow a line contributes, if any.  Title lines and lines that
/// are blank after trimming contribute none; an arrow line whose
/// trimmed source or target is empty is malformed and contributes
/// none; every other line contributes exactly one flow.
pub open spec fn line_flow(l: Seq<char>) -> Option<FlowModel> {
    if line_title(l) is Some {
        None
    } else {
        let t = trim_ws_spec(l);
        if t.len() == 0 {
            None
        } else {
            match find_from(t, arrow_pat(), 0) {
                Some(k) => {
                    let source = trim_ws_spec(t.take(k));
                    let rest = t.skip(k + 2);
                    if source.len() == 0 || flow_target(rest).len() == 0 {
                        None
                    } else {
                        Some(FlowModel::Standard(source, flow_target(rest), flow_label(rest)))
                    }
                },
                None => Some(FlowModel::Standalone(t)),
            }
        }
    }
}

/// The effective title of a document: the assignment of the last
/// title line, or the default when no line carries the marker.
pub open spec fn title_of_lines(ls: Seq<Seq<char>>) -> Seq<char>
    decreases ls.len(),
{
    if ls.len() == 0 {
        default_title()
    } else {
        match line_title(ls.last()) {
            Some(t) => t,
            None => title_of_lines(ls.drop_last()),
        }
    }
}

/// The flows of a document, in line order.
pub open spec fn flows_of_lines(ls: Seq<Seq<char>>) -> Seq<FlowModel>
    decreases ls.len(),
{
    if ls.len() == 0 {
        Seq::empty()
    } else {
        flows_of_lines(ls.drop_last()) + (match line_flow(ls.last()) {
            Some(f) => seq![f],
            None => Seq::empty(),
        })
    }
}

/// What parsing a document returns.
pub open spec fn parse_spec(s: Seq<char>) -> DiagramModel {
    DiagramModel { title: title_of_lines(lines_of(s)), flows: flows_of_lines(lines_of(s)) }
}

fn match_at(l: &Vec<char>, pat: &Vec<char>, i: usize) -> (r: bool)
    requires
        i + pat@.len() <= l@.len(),
    ensures
        r == (l@.subrange(i as int, i as int + pat@.len() as int) == pat@),
{
    let ghost sub = l@.subrange(i as int, i as int + pat@.len() as int);
    let n = l.len();
    let mut k: usize = 0;
    while k < pat.len()
        invariant
            n == l@.len(),
            i + pat@.len() <= l@.len(),
            k <= pat@.len(),
            sub == l@.subrange(i as int, i as int + pat@.len() as int),
            forall|m: int| 0 <= m < k ==> l@[i + m] == pat@[m],
        decreases pat@.len() - k,
    {
        proof {
            assert(i + k < l@.len());
        }
        if l[i + k] != pat[k] {
            proof {
                assert(sub[k as int] == l@[i + k]);
                assert(sub != pat@);
            }
            return false;
        }
        k = k + 1;
    }
    proof {
        assert(sub =~= pat@);
    }
    true
}

fn find_in(l: &Vec<char>, pat: &Vec<char>) -> (r: Option<usize>)
    requires
        pat@.len() >= 1,
    ensures
        r matches Some(p) ==> find_from(l@, pat@, 0) == Some(p as int),
        r is None ==> find_from(l@, pat@, 0) is None,
{
    if pat.len() > l.len() {
        return None;
    }
    let last = l.len() - pat.len();
    let mut i: usize = 0;
    while i <= last
        invariant
            pat@.len() >= 1,
            l@.len() <= usize::MAX,
            last == l@.len() - pat@.len(),
            i <= last + 1,
            find_from(l@, pat@, 0) == find_from(l@, pat@, i as int),
        decreases last + 1 - i,
    {
        if match_at(l, pat, i) {
            return Some(i);
        }
        proof {
            assert(i + 1 <= last + 1 <= l@.len());
        }
        i = i + 1;
    }
    None
}

/// Splits a document into its lines.  A line ends at a newline or at
/// a carriage return followed by a newline; there is no trailing
/// empty line when the text ends in a line break.
fn split_lines(v: &Vec<char>) -> (lines: Vec<Vec<char>>)
    ensures
        lines.deep_view() == lines_of(v@),
{
    let n = v.len();
    let mut lines: Vec<Vec<char>> = Vec::new();
    let mut i: usize = 0;
    proof {
        assert(lines.deep_view() =~= Seq::<Seq<char>>::empty());
        assert(lines.deep_view() + lines_from(v@, 0) =~= lines_from(v@, 0));
    }
    while i < n
        invariant
            i <= n,
            n == v@.len(),
            lines_of(v@) == lines.deep_view() + lines_from(v@, i as int),
        decreases n - i,
    {
        let ghost i0 = i as int;
        let mut j: usize = i;
        while j < n && v[j] != '\n'
            invariant
                i <= j <= n,
                n == v@.len(),
                newline_from(v@, i as int) == newline_from(v@, j as int),
            decreases n - j,
        {
            proof {
                assert(newline_from(v@, j as int) == newline_from(v@, j as int + 1));
            }
            j = j + 1;
        }
        proof {
            assert(newline_from(v@, j as int) == j as int);
        }
        let e = if j < n && j > i && v[j - 1] == '\r' {
            j - 1
        } else {
            j
        };
        let line = subvec(v, i, e);
        let ghost pre = lines.deep_view();
        lines.push(line);
        proof {
            assert(lines.deep_view() =~= pre.push(line.deep_view()));
            assert(line.deep_view() =~= v@.subrange(i0, e as int));
        }
        if j < n {
            i = j + 1;
            proof {
                assert(lines_from(v@, i0) == seq![v@.subrange(i0, e as int)] + lines_from(
                    v@,
                    j as int + 1,
                ));
                assert(pre.push(v@.subrange(i0, e as int)) + lines_from(v@, j as int + 1)
                    =~= pre + lines_from(v@, i0));
            }
        } else {
            i = n;
            proof {
                assert(e == j);
                assert(lines_from(v@, i0) == seq![v@.subrange(i0, j as int)]);
                assert(pre.push(v@.subrange(i0, j as int)) + lines_from(v@, n as int) =~= pre
                    + lines_from(v@, i0));
            }
        }
    }
    proof {
        assert(lines_from(v@, n as int) =~= Seq::<Seq<char>>::empty());
        assert(lines.deep_view() =~= lines_of(v@));
    }
    lines
}

proof fn lemma_fold_step(ls: Seq<Seq<char>>, idx: int)
    requires
        0 <= idx < ls.len(),
    ensures
        title_of_lines(ls.take(idx + 1)) == (match line_title(ls[idx]) {
            Some(t) => t,
            None => title_of_lines(ls.take(idx)),
        }),
        flows_of_lines(ls.take(idx + 1)) == flows_of_lines(ls.take(idx)) + (match line_flow(
            ls[idx],
        ) {
            Some(f) => seq![f],
            None => Seq::<FlowModel>::empty(),
        }),
{
    let p = ls.take(idx + 1);
    assert(p.last() == ls[idx]);
    assert(p.drop_last() =~= ls.take(idx));
}

/// A statement line: one that carries no `title:` marker and is not
/// blank after trimming.
pub open spec fn is_statement_line(l: Seq<char>) -> bool {
    line_title(l) is None && trim_ws_spec(l).len() > 0
}

/// Whether a line's arrow, if it has one, names a non-empty source
/// and a non-empty target.  Lines without an arrow are always well
/// formed.
pub open spec fn flow_line_well_formed(l: Seq<char>) -> bool {
    match find_from(trim_ws_spec(l), arrow_pat(), 0) {
        Some(k) => trim_ws_spec(trim_ws_spec(l).take(k)).len() > 0 && flow_target(
            trim_ws_spec(l).skip(k + 2),
        ).len() > 0,
        None => true,
    }
}

/// How many statement lines a document's lines hold.
pub open spec fn count_statement_lines(ls: Seq<Seq<char>>) -> int
    decreases ls.len(),
{
    if ls.len() == 0 {
        0
    } else {
        count_statement_lines(ls.drop_last()) + (if is_statement_line(ls.last()) {
            1int
        } else {
            0int
        })
    }
}

proof fn lemma_flow_count_lines(ls: Seq<Seq<char>>)
    requires
        forall|i: int| 0 <= i < ls.len() ==> flow_line_well_formed(#[trigger] ls[i]),
    ensures
        flows_of_lines(ls).len() == count_statement_lines(ls),
    decreases ls.len(),
{
    if ls.len() > 0 {
        let d = ls.drop_last();
        assert(forall|i: int| 0 <= i < d.len() ==> d[i] == ls[i]);
        lemma_flow_count_lines(d);
        let l = ls.last();
        assert(flow_line_well_formed(l));
        if is_statement_line(l) {
            assert(line_flow(l) is Some);
        } else {
            assert(line_flow(l) is None);
        }
    }
}

/// Flow-counting law: the number of flows a document parses to equals
/// the number of its statement lines — its non-empty, non-title
/// trimmed lines — provided every arrow line names a non-empty source
/// and target.  (A malformed arrow line such as `->x` is skipped and
/// contributes no flow, so it is left out here.)
pub proof fn lemma_flow_count(s: Seq<char>)
    requires
        forall|i: int|
            0 <= i < lines_of(s).len() ==> flow_line_well_formed(#[trigger] lines_of(s)[i]),
    ensures
        parse_spec(s).flows.len() == count_statement_lines(lines_of(s)),
{
    lemma_flow_count_lines(lines_of(s));
}

/// Parses a diagram description, line by line.  Parsing is total:
/// the result is always `Ok`, and a malformed statement line is
/// skipped rather than reported as a failure.
pub fn parse_diagram(diagram_description: &str) -> (r: Result<Diagram, ()>)
    ensures
        r matches Ok(d) && d@ == parse_spec(diagram_description@),
{
    let v = chars_of(diagram_description);
    let lines = split_lines(&v);
    let ghost ls = lines_of(v@);
    let title_pat = chars_of("title:");
    let arrow = chars_of("->");
    let colon = chars_of(":");
    let mut title = String::from_str("Untitled");
    proof {
        reveal_strlit("title:");
        reveal_strlit("->");
        reveal_strlit(":");
        reveal_strlit("Untitled");
        assert(title_pat@ =~= title_marker());
        assert(arrow@ =~= arrow_pat());
        assert(colon@ =~= colon_pat());
        assert(title@ =~= default_title());
        assert(ls.take(0) =~= Seq::<Seq<char>>::empty());
    }
    let mut flows: Vec<FlowType> = Vec::new();
    let n = lines.len();
    let mut idx: usize = 0;
    proof {
        assert(flows.deep_view() =~= Seq::<FlowModel>::empty());
    }
    while idx < n
        invariant
            idx <= n,
            n == lines@.len(),
            lines.deep_view() == ls,
            title_pat@ == title_marker(),
            arrow@ == arrow_pat(),
            colon@ == colon_pat(),
            title@ == title_of_lines(ls.take(idx as int)),
            flows.deep_view() == flows_of_lines(ls.take(idx as int)),
        decreases n - idx,
    {
        let line = &lines[idx];
        let linelen = line.len();
        let ghost l = ls[idx as int];
        proof {
            assert(lines.deep_view()[idx as int] == lines@[idx as int].deep_view());
            assert(lines@[idx as int].deep_view() =~= lines@[idx as int]@);
            assert(l == line@);
            lemma_fold_step(ls, idx as int);
        }
        if let Some(p) = find_in(line, &title_pat) {
            proof {
                lemma_find_from(l, title_marker(), 0);
            }
            title = trimmed_ws_string(line, p + 6, linelen);
            proof {
                assert(l.skip(p + 6) =~= l.subrange(p + 6, l.len() as int));
                assert(line_title(l) == Some(title@));
            }
        } else {
            proof {
                assert(line_title(l) is None);
            }
            let (lo, hi) = trim_ws_bounds(line, 0, linelen);
            let t = subvec(line, lo, hi);
            let tlen = t.len();
            proof {
                assert(l.subrange(0, l.len() as int) =~= l);
                assert(t@ == trim_ws_spec(l));
            }
            if tlen == 0 {
                proof {
                    assert(line_flow(l) is None);
                }
            } else if let Some(k) = find_in(&t, &arrow) {
                proof {
                    lemma_find_from(t@, arrow_pat(), 0);
                }
                let (slo, shi) = trim_ws_bounds(&t, 0, k);
                proof {
                    assert(t@.take(k as int) =~= t@.subrange(0, k as int));
                }
                let rest = subvec(&t, k + 2, tlen);
                let restlen = rest.len();
                proof {
                    assert(rest@ =~= t@.skip(k + 2));
                }
                let m_opt = find_in(&rest, &colon);
                let (tlo, thi) = if let Some(m) = m_opt {
                    proof {
                        lemma_find_from(rest@, colon_pat(), 0);
                        assert(rest@.take(m as int) =~= rest@.subrange(0, m as int));
                    }
                    trim_ws_bounds(&rest, 0, m)
                } else {
                    proof {
                        assert(rest@.subrange(0, rest@.len() as int) =~= rest@);
                    }
                    trim_ws_bounds(&rest, 0, restlen)
                };
                proof {
                    assert(rest@.subrange(tlo as int, thi as int) == flow_target(rest@));
                }
                if slo == shi || tlo == thi {
                    proof {
                        assert(trim_ws_spec(t@.take(k as int)).len() == 0 || flow_target(
                            rest@,
                        ).len() == 0);
                        assert(line_flow(l) is None);
                    }
                } else {
                    let source = span_string(&t, slo, shi);
                    let target = span_string(&rest, tlo, thi);
                    let label = if let Some(m) = m_opt {
                        proof {
                            assert(rest@.skip(m + 1) =~= rest@.subrange(
                                m + 1,
                                rest@.len() as int,
                            ));
                        }
                        trimmed_ws_string(&rest, m + 1, restlen)
                    } else {
                        String::new()
                    };
                    let ghost pre = flows.deep_view();
                    let f = FlowType::Standard(source, target, label);
                    proof {
                        assert(label@ == flow_label(rest@));
                        assert(line_flow(l) == Some(f@));
                    }
                    flows.push(f);
                    proof {
                        assert(flows.deep_view() =~= pre.push(f@));
                        assert(pre.push(f@) =~= pre + seq![f@]);
                    }
                }
            } else {
                let ghost pre = flows.deep_view();
                proof {
                    assert(t@.subrange(0, t@.len() as int) =~= t@);
                }
                let name = span_string(&t, 0, tlen);
                let f = FlowType::Standalone(name);
                proof {
                    assert(line_flow(l) == Some(f@));
                }
                flows.push(f);
                proof {
                    assert(flows.deep_view() =~= pre.push(f@));
                    assert(pre.push(f@) =~= pre + seq![f@]);
                }
            }
        }
        idx = idx + 1;
    }
    proof {
        assert(ls.take(n as int) =~= ls);
    }
    Ok(Diagram { title, flows })
}

} // verus!
