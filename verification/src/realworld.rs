//! Sequences from a corpus of real code: each corpus sequence whose
//! functions are all in the graph is replayed call by call for as long as
//! the calls fit.
use vstd::prelude::*;
use crate::corpus::CorpusLine;
use crate::graph::{ApiGraph, search_frame};
use crate::model::{ApiDependency, ApiFunction, ApiType};
use crate::satisfy::spec_is_fun_satisfied;
use crate::sequence::{ApiSequence, SequenceView, name_insert, names_view};
use crate::graph::insert_name;
use crate::model::contains_name;
use crate::traverse::{lemma_push_visited, views, visited_matches};
use crate::satisfy::{calls_fit, lemma_fun_satisfied_extends, lemma_fun_satisfied_fits};

verus! {

/// A line of the corpus as values: its frequency and its names.
pub open spec fn line_view(l: CorpusLine) -> (i32, Seq<Seq<char>>) {
    (l.frequency, names_view(l.functions@))
}

pub open spec fn lines_view(lines: Seq<CorpusLine>) -> Seq<(i32, Seq<Seq<char>>)> {
    lines.map_values(|l: CorpusLine| line_view(l))
}

/// Some function of the graph has the name `name`.
pub open spec fn known(fns: Seq<ApiFunction>, name: Seq<char>) -> bool {
    exists|i: int| 0 <= i < fns.len() && fns[i].full_name@ == name
}

pub open spec fn all_known(fns: Seq<ApiFunction>, names: Seq<Seq<char>>) -> bool {
    forall|k: int| 0 <= k < names.len() ==> known(fns, #[trigger] names[k])
}

/// The corpus lines whose functions are all in the graph.
pub open spec fn kept_lines(fns: Seq<ApiFunction>, lines: Seq<(i32, Seq<Seq<char>>)>) -> Seq<(i32, Seq<Seq<char>>)> {
    lines.filter(|l: (i32, Seq<Seq<char>>)| all_known(fns, l.1))
}

/// The position of the first function named `name`.
#[verifier::opaque]
pub open spec fn first_named(fns: Seq<ApiFunction>, name: Seq<char>) -> int {
    choose|i: int| 0 <= i < fns.len() && fns[i].full_name@ == name && forall|j: int| 0 <= j < i ==> fns[j].full_name@ != name
}

proof fn lemma_first_named_exists(fns: Seq<ApiFunction>, name: Seq<char>, i: int)
    requires
        0 <= i < fns.len(),
        fns[i].full_name@ == name,
    ensures
        exists|c: int| 0 <= c < fns.len() && fns[c].full_name@ == name && forall|j: int| 0 <= j < c ==> fns[j].full_name@ != name,
    decreases i,
{
    if exists|j: int| 0 <= j < i && fns[j].full_name@ == name {
        let j = choose|j: int| 0 <= j < i && fns[j].full_name@ == name;
        lemma_first_named_exists(fns, name, j);
    } else {
        assert(forall|j: int| 0 <= j < i ==> fns[j].full_name@ != name);
    }
}

proof fn lemma_first_named(fns: Seq<ApiFunction>, name: Seq<char>)
    requires
        known(fns, name),
    ensures
        0 <= first_named(fns, name) < fns.len(),
        fns[first_named(fns, name)].full_name@ == name,
{
    reveal(first_named);
    let i = choose|i: int| 0 <= i < fns.len() && fns[i].full_name@ == name;
    lemma_first_named_exists(fns, name, i);
}

/// A name of the corpus with the sum of the frequencies of the lines it
/// occurs in (once per occurrence, added as `i32` with wrap-around).
pub struct CorpusApi {
    pub name: String,
    pub frequency: i32,
}

pub open spec fn api_view(a: CorpusApi) -> (Seq<char>, i32) {
    (a.name@, a.frequency)
}

pub open spec fn apis_view(apis: Seq<CorpusApi>) -> Seq<(Seq<char>, i32)> {
    apis.map_values(|a: CorpusApi| api_view(a))
}

/// The position of `name` in `apis`, if it is there.
pub open spec fn api_position(apis: Seq<(Seq<char>, i32)>, name: Seq<char>) -> Option<int> {
    if exists|p: int| 0 <= p < apis.len() && apis[p].0 == name {
        Some(choose|p: int| 0 <= p < apis.len() && apis[p].0 == name && forall|q: int| 0 <= q < p ==> apis[q].0 != name)
    } else {
        None
    }
}

/// Adds one occurrence of `name` with frequency `f`.
pub open spec fn add_occurrence(apis: Seq<(Seq<char>, i32)>, name: Seq<char>, f: i32) -> Seq<(Seq<char>, i32)> {
    match api_position(apis, name) {
        Some(p) => apis.update(p, (name, apis[p].1.wrapping_add(f))),
        None => apis.push((name, f)),
    }
}

/// Adds the occurrences of `names[k..]`.
pub open spec fn add_names(apis: Seq<(Seq<char>, i32)>, names: Seq<Seq<char>>, f: i32, k: int) -> Seq<(Seq<char>, i32)>
    decreases names.len() - k,
{
    if k >= names.len() || k < 0 {
        apis
    } else {
        add_names(add_occurrence(apis, names[k], f), names, f, k + 1)
    }
}

/// The names of the kept lines with their summed frequencies, in the order
/// of their first occurrence.
pub open spec fn corpus_apis(lines: Seq<(i32, Seq<Seq<char>>)>) -> Seq<(Seq<char>, i32)>
    decreases lines.len(),
{
    if lines.len() == 0 {
        Seq::empty()
    } else {
        add_names(corpus_apis(lines.drop_last()), lines.last().1, lines.last().0, 0)
    }
}

/// No name occurs twice in `apis`.
pub open spec fn distinct_names(apis: Seq<(Seq<char>, i32)>) -> bool {
    forall|i: int, j: int| 0 <= i < apis.len() && 0 <= j < apis.len() && i != j ==> apis[i].0 != apis[j].0
}

proof fn lemma_add_occurrence_distinct(apis: Seq<(Seq<char>, i32)>, name: Seq<char>, f: i32)
    requires
        distinct_names(apis),
    ensures
        distinct_names(add_occurrence(apis, name, f)),
{
    match api_position(apis, name) {
        Some(p) => {
            let r = add_occurrence(apis, name, f);
            assert(apis[p].0 == name);
            assert forall|i: int, j: int| 0 <= i < r.len() && 0 <= j < r.len() && i != j implies r[i].0 != r[j].0 by {
                if i != p && j != p {
                    assert(r[i] == apis[i] && r[j] == apis[j]);
                } else if i == p {
                    assert(r[j] == apis[j]);
                } else {
                    assert(r[i] == apis[i]);
                }
            }
        },
        None => {
            let r = apis.push((name, f));
            assert forall|i: int, j: int| 0 <= i < r.len() && 0 <= j < r.len() && i != j implies r[i].0 != r[j].0 by {
                if i < apis.len() && j < apis.len() {
                    assert(r[i] == apis[i] && r[j] == apis[j]);
                } else if i < apis.len() {
                    assert(r[i] == apis[i]);
                } else {
                    assert(r[j] == apis[j]);
                }
            }
        },
    }
}

proof fn lemma_add_names_distinct(apis: Seq<(Seq<char>, i32)>, names: Seq<Seq<char>>, f: i32, k: int)
    requires
        distinct_names(apis),
    ensures
        distinct_names(add_names(apis, names, f, k)),
    decreases names.len() - k,
{
    if 0 <= k < names.len() {
        lemma_add_occurrence_distinct(apis, names[k], f);
        lemma_add_names_distinct(add_occurrence(apis, names[k], f), names, f, k + 1);
    }
}

/// Each name of the corpus is listed once, as the keys of a map are.
pub proof fn lemma_corpus_apis_distinct(lines: Seq<(i32, Seq<Seq<char>>)>)
    ensures
        distinct_names(corpus_apis(lines)),
    decreases lines.len(),
{
    if lines.len() > 0 {
        lemma_corpus_apis_distinct(lines.drop_last());
        lemma_add_names_distinct(corpus_apis(lines.drop_last()), lines.last().1, lines.last().0, 0);
    }
}

/// The state while the corpus is replayed.
pub struct ReplayState {
    pub seqs: Seq<SequenceView>,
    pub visited: Seq<bool>,
    pub category1: Seq<Seq<char>>,
}

/// Replays `names[k..]` after `cur`: each call that fits is appended as a
/// new sequence, marks its function visited and its name reached; the
/// replay of the line stops at the first call that does not fit.
pub open spec fn replay_line(
    fns: Seq<ApiFunction>,
    deps: Seq<ApiDependency>,
    st: ReplayState,
    names: Seq<Seq<char>>,
    k: int,
    cur: SequenceView,
) -> ReplayState
    decreases names.len() - k,
{
    if k >= names.len() || k < 0 {
        st
    } else {
        let f = first_named(fns, names[k]);
        match spec_is_fun_satisfied(fns, deps, ApiType::BareFunction, f as usize, cur) {
            Some(ns) => replay_line(
                fns,
                deps,
                ReplayState {
                    seqs: st.seqs.push(ns),
                    visited: st.visited.update(f, true),
                    category1: name_insert(st.category1, names[k]),
                },
                names,
                k + 1,
                ns,
            ),
            None => st,
        }
    }
}

pub open spec fn replay_lines(
    fns: Seq<ApiFunction>,
    deps: Seq<ApiDependency>,
    st: ReplayState,
    lines: Seq<(i32, Seq<Seq<char>>)>,
    t: int,
) -> ReplayState
    decreases lines.len() - t,
{
    if t >= lines.len() || t < 0 {
        st
    } else {
        replay_lines(fns, deps, replay_line(fns, deps, st, lines[t].1, 0, SequenceView::empty()), lines, t + 1)
    }
}

/// The replay of the kept lines, from no sequence and no visited function.
pub open spec fn spec_replay(fns: Seq<ApiFunction>, deps: Seq<ApiDependency>, lines: Seq<(i32, Seq<Seq<char>>)>) -> ReplayState {
    replay_lines(
        fns,
        deps,
        ReplayState { seqs: Seq::empty(), visited: Seq::new(fns.len(), |i: int| false), category1: Seq::empty() },
        kept_lines(fns, lines),
        0,
    )
}

/// `s` is a call of function `f` of the graph made after `base`.
pub open spec fn made_by(fns: Seq<ApiFunction>, deps: Seq<ApiDependency>, base: SequenceView, f: usize, s: SequenceView) -> bool {
    f < fns.len() && s.last_func_index() == Some(f) && spec_is_fun_satisfied(fns, deps, ApiType::BareFunction, f, base)
        == Some(s)
}

/// Sequence `s` of `seqs` is a call made after the empty sequence or after
/// the sequence just before it.
pub open spec fn replayed_at(fns: Seq<ApiFunction>, deps: Seq<ApiDependency>, seqs: Seq<SequenceView>, s: int) -> bool {
    exists|f: usize| #[trigger] replayed_by(fns, deps, seqs, s, f)
}

/// Sequence `s` of `seqs` is a call of function `f` made after the empty
/// sequence or after the sequence just before it.
pub open spec fn replayed_by(fns: Seq<ApiFunction>, deps: Seq<ApiDependency>, seqs: Seq<SequenceView>, s: int, f: usize) -> bool {
    made_by(fns, deps, SequenceView::empty(), f, seqs[s]) || (s > 0 && made_by(fns, deps, seqs[s - 1], f, seqs[s]))
}

/// Every sequence of `seqs` is a call of a function of the graph made
/// after the empty sequence or after the sequence just before it.
pub open spec fn replayed_from(fns: Seq<ApiFunction>, deps: Seq<ApiDependency>, seqs: Seq<SequenceView>) -> bool {
    forall|s: int| 0 <= s < seqs.len() ==> #[trigger] replayed_at(fns, deps, seqs, s)
}

pub open spec fn replay_ok(fns: Seq<ApiFunction>, deps: Seq<ApiDependency>, st: ReplayState) -> bool {
    &&& st.visited.len() == fns.len()
    &&& replayed_from(fns, deps, st.seqs)
    &&& visited_matches(st.seqs, st.visited, 0)
}

proof fn lemma_replayed_push(
    fns: Seq<ApiFunction>,
    deps: Seq<ApiDependency>,
    seqs: Seq<SequenceView>,
    cur: SequenceView,
    f: usize,
    ns: SequenceView,
)
    requires
        replayed_from(fns, deps, seqs),
        cur == SequenceView::empty() || (seqs.len() > 0 && cur == seqs.last()),
        made_by(fns, deps, cur, f, ns),
    ensures
        replayed_from(fns, deps, seqs.push(ns)),
{
    let nv = seqs.push(ns);
    assert forall|s: int| 0 <= s < nv.len() implies #[trigger] replayed_at(fns, deps, nv, s) by {
        if s < seqs.len() {
            assert(replayed_at(fns, deps, seqs, s));
            let g = choose|g: usize| replayed_by(fns, deps, seqs, s, g);
            assert(nv[s] == seqs[s]);
            if s > 0 {
                assert(nv[s - 1] == seqs[s - 1]);
            }
            assert(replayed_by(fns, deps, nv, s, g));
        } else {
            assert(nv[s] == ns);
            if cur != SequenceView::empty() {
                assert(nv[s - 1] == seqs.last());
            }
            assert(replayed_by(fns, deps, nv, s, f));
        }
    }
}

proof fn lemma_replay_line_grows(
    fns: Seq<ApiFunction>,
    deps: Seq<ApiDependency>,
    st: ReplayState,
    names: Seq<Seq<char>>,
    k: int,
    cur: SequenceView,
)
    requires
        replay_ok(fns, deps, st),
        fns.len() <= usize::MAX,
        all_known(fns, names),
        cur == SequenceView::empty() || (st.seqs.len() > 0 && cur == st.seqs.last()),
        0 <= k,
    ensures
        replay_ok(fns, deps, replay_line(fns, deps, st, names, k, cur)),
    decreases names.len() - k,
{
    if k < names.len() {
        let f = first_named(fns, names[k]);
        assert(known(fns, names[k]));
        lemma_first_named(fns, names[k]);
        match spec_is_fun_satisfied(fns, deps, ApiType::BareFunction, f as usize, cur) {
            Some(ns) => {
                lemma_fun_satisfied_extends(fns, deps, ApiType::BareFunction, f as usize, cur);
                assert(made_by(fns, deps, cur, f as usize, ns));
                let st1 = ReplayState {
                    seqs: st.seqs.push(ns),
                    visited: st.visited.update(f, true),
                    category1: name_insert(st.category1, names[k]),
                };
                lemma_push_visited(st.seqs, st.visited, 0, f, ns);
                lemma_replayed_push(fns, deps, st.seqs, cur, f as usize, ns);
                assert(st1.seqs.last() == ns);
                lemma_replay_line_grows(fns, deps, st1, names, k + 1, ns);
            },
            None => {},
        }
    }
}

proof fn lemma_replay_lines_grows(
    fns: Seq<ApiFunction>,
    deps: Seq<ApiDependency>,
    st: ReplayState,
    lines: Seq<(i32, Seq<Seq<char>>)>,
    t: int,
)
    requires
        replay_ok(fns, deps, st),
        fns.len() <= usize::MAX,
        forall|i: int| 0 <= i < lines.len() ==> all_known(fns, (#[trigger] lines[i]).1),
        0 <= t,
    ensures
        replay_ok(fns, deps, replay_lines(fns, deps, st, lines, t)),
    decreases lines.len() - t,
{
    if t < lines.len() {
        lemma_replay_line_grows(fns, deps, st, lines[t].1, 0, SequenceView::empty());
        lemma_replay_lines_grows(fns, deps, replay_line(fns, deps, st, lines[t].1, 0, SequenceView::empty()), lines, t + 1);
    }
}

/// Replaying a corpus gives only sequences that make a call of a function
/// of the graph after the empty sequence or after the sequence just before
/// them (the first call of a line, or the next one of the same line); and a
/// function is marked visited exactly when a replayed sequence ends with a
/// call of it.
pub proof fn lemma_replay_grows(fns: Seq<ApiFunction>, deps: Seq<ApiDependency>, lines: Seq<(i32, Seq<Seq<char>>)>)
    requires
        fns.len() <= usize::MAX,
    ensures
        replay_ok(fns, deps, spec_replay(fns, deps, lines)),
{
    let st0 = ReplayState { seqs: Seq::empty(), visited: Seq::new(fns.len(), |i: int| false), category1: Seq::empty() };
    let pred = |l: (i32, Seq<Seq<char>>)| all_known(fns, l.1);
    let kept = kept_lines(fns, lines);
    assert(kept == lines.filter(pred));
    assert forall|i: int| 0 <= i < kept.len() implies all_known(fns, (#[trigger] kept[i]).1) by {
        #[allow(deprecated)]
        lines.filter_lemma(pred);
    }
    lemma_replay_lines_grows(fns, deps, st0, kept, 0);
}

proof fn lemma_replayed_fit_at(fns: Seq<ApiFunction>, deps: Seq<ApiDependency>, seqs: Seq<SequenceView>, s: int)
    requires
        replayed_from(fns, deps, seqs),
        deps.len() <= usize::MAX,
        0 <= s < seqs.len(),
    ensures
        calls_fit(fns, deps, seqs[s]),
    decreases s,
{
    assert(replayed_at(fns, deps, seqs, s));
    let f = choose|f: usize| replayed_by(fns, deps, seqs, s, f);
    if made_by(fns, deps, SequenceView::empty(), f, seqs[s]) {
        assert(calls_fit(fns, deps, SequenceView::empty()));
        lemma_fun_satisfied_fits(fns, deps, ApiType::BareFunction, f, SequenceView::empty());
    } else {
        lemma_replayed_fit_at(fns, deps, seqs, s - 1);
        lemma_fun_satisfied_fits(fns, deps, ApiType::BareFunction, f, seqs[s - 1]);
    }
}

/// Replaying a corpus gives only sequences whose calls all fit.
pub proof fn lemma_replay_calls_fit(fns: Seq<ApiFunction>, deps: Seq<ApiDependency>, lines: Seq<(i32, Seq<Seq<char>>)>)
    requires
        fns.len() <= usize::MAX,
        deps.len() <= usize::MAX,
    ensures
        forall|s: int| 0 <= s < spec_replay(fns, deps, lines).seqs.len() ==> calls_fit(
            fns,
            deps,
            #[trigger] spec_replay(fns, deps, lines).seqs[s],
        ),
{
    lemma_replay_grows(fns, deps, lines);
    let seqs = spec_replay(fns, deps, lines).seqs;
    assert forall|s: int| 0 <= s < seqs.len() implies calls_fit(fns, deps, #[trigger] seqs[s]) by {
        lemma_replayed_fit_at(fns, deps, seqs, s);
    }
}

/// What the replay found: the names of the corpus with their frequencies,
/// the names reached by the replay, and the others.
pub struct RealWorldReport {
    pub corpus_apis: Vec<CorpusApi>,
    pub category1: Vec<String>,
    pub category2: Vec<String>,
}

/// The report on replaying `lines`: the corpus names with their summed
/// frequencies, the names the replay reached, and the others.
pub open spec fn report_matches(
    fns: Seq<ApiFunction>,
    deps: Seq<ApiDependency>,
    lines: Seq<(i32, Seq<Seq<char>>)>,
    r: RealWorldReport,
) -> bool {
    &&& apis_view(r.corpus_apis@) == corpus_apis(kept_lines(fns, lines))
    &&& names_view(r.category1@) == spec_replay(fns, deps, lines).category1
    &&& names_view(r.category2@) == corpus_apis(kept_lines(fns, lines)).filter(
        |a: (Seq<char>, i32)| !spec_replay(fns, deps, lines).category1.contains(a.0),
    ).map_values(|a: (Seq<char>, i32)| a.0)
}

/// The position of the first function named `name`, if any.
fn find_named(fns: &Vec<ApiFunction>, name: &String) -> (r: Option<usize>)
    ensures
        match r {
            Some(i) => known(fns@, name@) && i == first_named(fns@, name@) && i < fns@.len()
                && fns@[i as int].full_name@ == name@,
            None => !known(fns@, name@),
        },
{
    let mut i: usize = 0;
    while i < fns.len()
        invariant
            i <= fns@.len(),
            forall|j: int| 0 <= j < i ==> fns@[j].full_name@ != name@,
        decreases fns.len() - i,
    {
        if fns[i].full_name == *name {
            proof {
                reveal(first_named);
                let c = choose|c: int| 0 <= c < fns@.len() && fns@[c].full_name@ == name@ && forall|j: int| 0 <= j < c
                    ==> fns@[j].full_name@ != name@;
                assert(0 <= i < fns@.len() && fns@[i as int].full_name@ == name@ && forall|j: int| 0 <= j < i
                    ==> fns@[j].full_name@ != name@);
                if c < i {
                } else if c > i {
                    assert(fns@[i as int].full_name@ != name@);
                }
            }
            return Some(i);
        }
        i = i + 1;
    }
    None
}

/// Adds one occurrence of `name` with frequency `f` to `apis`.
fn add_api_occurrence(apis: &mut Vec<CorpusApi>, name: &String, f: i32)
    ensures
        apis_view(final(apis)@) == add_occurrence(apis_view(old(apis)@), name@, f),
{
    let ghost v = apis_view(apis@);
    let mut p: usize = 0;
    while p < apis.len()
        invariant
            p <= apis@.len(),
            *apis == *old(apis),
            v == apis_view(apis@),
            forall|q: int| 0 <= q < p ==> v[q].0 != name@,
        decreases apis.len() - p,
    {
        if apis[p].name == *name {
            proof {
                assert(v[p as int].0 == name@);
            }
            let total = apis[p].frequency.wrapping_add(f);
            let entry_name = apis[p].name.clone();
            apis.set(p, CorpusApi { name: entry_name, frequency: total });
            proof {
                let c = choose|c: int| 0 <= c < v.len() && v[c].0 == name@ && forall|q: int| 0 <= q < c ==> v[q].0 != name@;
                assert(0 <= p < v.len() && v[p as int].0 == name@ && forall|q: int| 0 <= q < p ==> v[q].0 != name@);
                if c < p {
                } else if c > p {
                    assert(v[p as int].0 != name@);
                }
                assert(api_position(v, name@) == Some(p as int));
                assert(apis_view(apis@) =~= v.update(p as int, (name@, v[p as int].1.wrapping_add(f))));
            }
            return;
        }
        p = p + 1;
    }
    apis.push(CorpusApi { name: name.clone(), frequency: f });
    proof {
        assert(apis_view(apis@) =~= v.push((name@, f)));
    }
}

/// Whether every name of `names` is the name of a function of `fns`.
pub fn all_names_known(fns: &Vec<ApiFunction>, names: &Vec<String>) -> (r: bool)
    ensures
        r == all_known(fns@, names_view(names@)),
{
    let mut k: usize = 0;
    while k < names.len()
        invariant
            k <= names@.len(),
            forall|j: int| 0 <= j < k ==> known(fns@, #[trigger] names_view(names@)[j]),
        decreases names.len() - k,
    {
        proof {
            assert(names_view(names@)[k as int] == names@[k as int]@);
        }
        if find_named(fns, &names[k]).is_none() {
            return false;
        }
        k = k + 1;
    }
    true
}

impl ApiGraph {
    /// Replays one corpus line from the empty sequence.
    #[verifier::rlimit(40)]
    fn replay_line(&mut self, names: &Vec<String>, category1: &mut Vec<String>)
        requires
            old(self).well_formed(),
            old(self).visited_ok(),
            all_known(old(self).api_functions@, names_view(names@)),
        ensures
            (ReplayState {
                seqs: final(self).sequences_view(),
                visited: final(self).api_functions_visited@,
                category1: names_view(final(category1)@),
            }) == replay_line(
                old(self).api_functions@,
                old(self).api_dependencies@,
                ReplayState {
                    seqs: old(self).sequences_view(),
                    visited: old(self).api_functions_visited@,
                    category1: names_view(old(category1)@),
                },
                names_view(names@),
                0,
                SequenceView::empty(),
            ),
            final(self).well_formed(),
            final(self).visited_ok(),
            final(self).api_functions@ == old(self).api_functions@,
            final(self).api_dependencies@ == old(self).api_dependencies@,
            final(self)._crate_name == old(self)._crate_name,
            search_frame(*old(self), *final(self)),
    {
        let ghost fns = self.api_functions@;
        let ghost deps = self.api_dependencies@;
        let ghost nv = names_view(names@);
        let mut sequence = ApiSequence::new();
        let mut k: usize = 0;
        while k < names.len()
            invariant
                search_frame(*old(self), *self),
                k <= names@.len(),
                nv == names_view(names@),
                fns == self.api_functions@,
                deps == self.api_dependencies@,
                fns == old(self).api_functions@,
                deps == old(self).api_dependencies@,
                self._crate_name == old(self)._crate_name,
                self.well_formed(),
                self.visited_ok(),
                all_known(fns, nv),
                sequence@.consistent(),
                sequence@.refers_within(fns.len()),
                replay_line(
                    fns,
                    deps,
                    ReplayState {
                        seqs: old(self).sequences_view(),
                        visited: old(self).api_functions_visited@,
                        category1: names_view(old(category1)@),
                    },
                    nv,
                    0,
                    SequenceView::empty(),
                ) == replay_line(
                    fns,
                    deps,
                    ReplayState {
                        seqs: self.sequences_view(),
                        visited: self.api_functions_visited@,
                        category1: names_view(category1@),
                    },
                    nv,
                    k as int,
                    sequence@,
                ),
            decreases names.len() - k,
        {
            proof {
                assert(nv[k as int] == names@[k as int]@);
                assert(known(fns, nv[k as int]));
            }
            let f = match find_named(&self.api_functions, &names[k]) {
                Some(f) => f,
                None => {
                    return;
                },
            };
            let ghost cur = ReplayState {
                seqs: self.sequences_view(),
                visited: self.api_functions_visited@,
                category1: names_view(category1@),
            };
            let ghost cur_seq = sequence@;
            let res = self.is_fun_satisfied(&ApiType::BareFunction, f, &sequence);
            proof {
                assert(f == first_named(fns, nv[k as int]));
                assert(replay_line(fns, deps, cur, nv, k as int, cur_seq) == match spec_is_fun_satisfied(
                    fns,
                    deps,
                    ApiType::BareFunction,
                    f,
                    cur_seq,
                ) {
                    Some(ns) => replay_line(
                        fns,
                        deps,
                        ReplayState {
                            seqs: cur.seqs.push(ns),
                            visited: cur.visited.update(f as int, true),
                            category1: name_insert(cur.category1, nv[k as int]),
                        },
                        nv,
                        k + 1,
                        ns,
                    ),
                    None => cur,
                });
            }
            match res {
                Some(new_sequence) => {
                    self.api_functions_visited.set(f, true);
                    insert_name(category1, &names[k]);
                    let copy = new_sequence.duplicate();
                    let ghost before = self.api_sequences@;
                    self.api_sequences.push(copy);
                    proof {
                        assert(self.sequences_view() =~= views(before).push(copy@));
                        assert forall|s: int| 0 <= s < self.api_sequences@.len() implies {
                            &&& (#[trigger] self.api_sequences@[s])@.consistent()
                            &&& self.api_sequences@[s]@.refers_within(self.api_functions@.len())
                        } by {
                            if s < before.len() {
                                assert(self.api_sequences@[s] == before[s]);
                            }
                        }
                    }
                    sequence = new_sequence;
                },
                None => {
                    return;
                },
            }
            k = k + 1;
        }
    }

    /// Generates sequences from a corpus of real code. The sequences there
    /// were are dropped; each corpus line whose functions are all in the
    /// graph is replayed call by call while the calls fit, each prefix that
    /// fits becoming a sequence. The report gives the corpus names with
    /// their frequencies, the names reached, and the others.
    pub fn real_world(&mut self, corpus: &Vec<CorpusLine>) -> (r: RealWorldReport)
        ensures
            report_matches(old(self).api_functions@, old(self).api_dependencies@, lines_view(corpus@), r),
            apis_view(r.corpus_apis@) == corpus_apis(kept_lines(old(self).api_functions@, lines_view(corpus@))),
            final(self).sequences_view() == spec_replay(old(self).api_functions@, old(self).api_dependencies@, lines_view(corpus@)).seqs,
            final(self).api_functions_visited@ == spec_replay(old(self).api_functions@, old(self).api_dependencies@, lines_view(corpus@)).visited,
            names_view(r.category1@) == spec_replay(old(self).api_functions@, old(self).api_dependencies@, lines_view(corpus@)).category1,
            names_view(r.category2@) == corpus_apis(kept_lines(old(self).api_functions@, lines_view(corpus@))).filter(
                |a: (Seq<char>, i32)| !spec_replay(old(self).api_functions@, old(self).api_dependencies@, lines_view(corpus@)).category1.contains(a.0),
            ).map_values(|a: (Seq<char>, i32)| a.0),
            final(self).well_formed(),
            final(self).visited_ok(),
            final(self).api_functions@ == old(self).api_functions@,
            final(self).api_dependencies@ == old(self).api_dependencies@,
            final(self)._crate_name == old(self)._crate_name,
            search_frame(*old(self), *final(self)),
    {
        let ghost fns = self.api_functions@;
        let ghost deps = self.api_dependencies@;
        let ghost lines = lines_view(corpus@);
        let ghost kpred = |l: (i32, Seq<Seq<char>>)| all_known(fns, l.1);
        let ghost kept = kept_lines(fns, lines);
        let mut kept_indexes: Vec<usize> = Vec::new();
        let mut apis: Vec<CorpusApi> = Vec::new();
        let mut t: usize = 0;
        while t < corpus.len()
            invariant
                search_frame(*old(self), *self),
                t <= corpus@.len(),
                fns == self.api_functions@,
                lines == lines_view(corpus@),
                kpred == (|l: (i32, Seq<Seq<char>>)| all_known(fns, l.1)),
                kept_indexes@.map_values(|i: usize| lines[i as int]) == lines.take(t as int).filter(kpred),
                forall|j: int| 0 <= j < kept_indexes@.len() ==> (#[trigger] kept_indexes@[j]) < corpus@.len(),
                apis_view(apis@) == corpus_apis(lines.take(t as int).filter(kpred)),
            decreases corpus.len() - t,
        {
            let line = &corpus[t];
            proof {
                assert(lines[t as int] == line_view(*line));
                assert(lines.take(t + 1) =~= lines.take(t as int).push(lines[t as int]));
                lines.take(t as int).lemma_filter_push(lines[t as int], kpred);
            }
            if all_names_known(&self.api_functions, &line.functions) {
                let ghost prev = kept_indexes@;
                kept_indexes.push(t);
                proof {
                    assert(kept_indexes@.map_values(|i: usize| lines[i as int]) =~= prev.map_values(|i: usize| lines[i as int]).push(
                        lines[t as int]));
                }
                let ghost base = apis_view(apis@);
                let mut k: usize = 0;
                while k < line.functions.len()
                    invariant
                        search_frame(*old(self), *self),
                        k <= line.functions@.len(),
                        add_names(base, names_view(line.functions@), line.frequency, 0) == add_names(
                            apis_view(apis@),
                            names_view(line.functions@),
                            line.frequency,
                            k as int,
                        ),
                    decreases line.functions.len() - k,
                {
                    proof {
                        assert(names_view(line.functions@)[k as int] == line.functions@[k as int]@);
                    }
                    add_api_occurrence(&mut apis, &line.functions[k], line.frequency);
                    k = k + 1;
                }
                proof {
                    let kept_t = lines.take(t + 1).filter(kpred);
                    assert(kept_t.drop_last() =~= lines.take(t as int).filter(kpred));
                    assert(kept_t.last() == lines[t as int]);
                }
            }
            t = t + 1;
        }
        proof {
            assert(lines.take(t as int) =~= lines);
        }
        self.api_sequences.clear();
        self.reset_visited();
        proof {
            assert(self.sequences_view() =~= Seq::<SequenceView>::empty());
            assert(self.api_functions_visited@ =~= Seq::new(fns.len(), |i: int| false));
        }
        let mut category1: Vec<String> = Vec::new();
        proof {
            assert(names_view(category1@) =~= Seq::<Seq<char>>::empty());
        }
        let ghost start = ReplayState { seqs: Seq::empty(), visited: Seq::new(fns.len(), |i: int| false), category1: Seq::empty() };
        let ghost kept_views = kept_indexes@.map_values(|i: usize| lines[i as int]);
        let mut j: usize = 0;
        while j < kept_indexes.len()
            invariant
                search_frame(*old(self), *self),
                j <= kept_indexes@.len(),
                fns == self.api_functions@,
                deps == self.api_dependencies@,
                fns == old(self).api_functions@,
                deps == old(self).api_dependencies@,
                self._crate_name == old(self)._crate_name,
                self.well_formed(),
                self.visited_ok(),
                lines == lines_view(corpus@),
                kept_views == kept_indexes@.map_values(|i: usize| lines[i as int]),
                kept_views == kept,
                kept == kept_lines(fns, lines),
                forall|m: int| 0 <= m < kept_indexes@.len() ==> (#[trigger] kept_indexes@[m]) < corpus@.len(),
                forall|m: int| 0 <= m < kept.len() ==> all_known(fns, (#[trigger] kept[m]).1),
                replay_lines(fns, deps, start, kept, 0) == replay_lines(
                    fns,
                    deps,
                    ReplayState {
                        seqs: self.sequences_view(),
                        visited: self.api_functions_visited@,
                        category1: names_view(category1@),
                    },
                    kept,
                    j as int,
                ),
            decreases kept_indexes.len() - j,
        {
            let line = &corpus[kept_indexes[j]];
            proof {
                assert(kept[j as int] == lines[kept_indexes@[j as int] as int]);
                assert(lines[kept_indexes@[j as int] as int] == line_view(*line));
                assert(all_known(fns, kept[j as int].1));
            }
            self.replay_line(&line.functions, &mut category1);
            j = j + 1;
        }
        let mut category2: Vec<String> = Vec::new();
        let ghost cat1 = names_view(category1@);
        let ghost cpred = |a: (Seq<char>, i32)| !cat1.contains(a.0);
        let mut a: usize = 0;
        while a < apis.len()
            invariant
                search_frame(*old(self), *self),
                a <= apis@.len(),
                cat1 == names_view(category1@),
                cpred == (|a: (Seq<char>, i32)| !cat1.contains(a.0)),
                names_view(category2@) == apis_view(apis@).take(a as int).filter(cpred).map_values(|x: (Seq<char>, i32)| x.0),
            decreases apis.len() - a,
        {
            let ghost av = apis_view(apis@);
            proof {
                assert(av.take(a + 1) =~= av.take(a as int).push(av[a as int]));
                av.take(a as int).lemma_filter_push(av[a as int], cpred);
                assert(av[a as int] == api_view(apis@[a as int]));
            }
            let reached = contains_name(&category1, &apis[a].name);
            proof {
                assert(reached == cat1.contains(apis@[a as int].name@)) by {
                    if cat1.contains(apis@[a as int].name@) {
                        let i = choose|i: int| 0 <= i < cat1.len() && cat1[i] == apis@[a as int].name@;
                        assert(category1@[i]@ == apis@[a as int].name@);
                    }
                    if reached {
                        let i = choose|i: int| 0 <= i < category1@.len() && category1@[i]@ == apis@[a as int].name@;
                        assert(cat1[i] == apis@[a as int].name@);
                    }
                }
            }
            if !reached {
                let ghost prev = category2@;
                category2.push(apis[a].name.clone());
                proof {
                    assert(names_view(category2@) =~= names_view(prev).push(apis@[a as int].name@));
                }
            }
            a = a + 1;
        }
        proof {
            assert(apis_view(apis@).take(a as int) =~= apis_view(apis@));
        }
        RealWorldReport { corpus_apis: apis, category1, category2 }
    }
}

} // verus!
