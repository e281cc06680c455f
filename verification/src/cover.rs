//! Reaching the functions the forward search missed: for each parameter of
//! such a function an existing sequence whose last call can supply it is
//! picked, the picked sequences are merged, and the function is called
//! after them.
use vstd::prelude::*;
use crate::graph::{ApiGraph, search_frame, spec_check_dependency};
use crate::model::{ApiDependency, ApiFunction, ApiType};
use crate::satisfy::{
    arg_fits, call_fits, calls_fit, lemma_fun_satisfied_extends, lemma_fun_satisfied_fits, spec_is_fun_satisfied,
};
use crate::graph::dep_matches;
use crate::sequence::{ApiSequence, ParamType, SequenceView, merge_all, merge_two, shift_call, shift_param};
use crate::traverse::{keeps_prefix, seq_ended, views};
use crate::util::{contains_index, remove_index};

verus! {

/// A sequence can be merged into another when it does not end in an end
/// function, is not empty, and uses the result of every call but the last.
pub open spec fn mergeable(fns: Seq<ApiFunction>, s: SequenceView) -> bool {
    !seq_ended(fns, s) && s.len() >= 1 && !s.contains_dead_code_except_last_one()
}

/// The positions of the sequences that can be merged, in order.
pub open spec fn merge_candidates(fns: Seq<ApiFunction>, seqs: Seq<SequenceView>) -> Seq<usize> {
    Seq::new(seqs.len(), |i: int| i as usize).filter(|i: usize| mergeable(fns, seqs[i as int]))
}

/// The candidate, from position `c` of `cands` on, that supplies parameter
/// `k` of function `u`: the first one with fuzzer inputs whose last call
/// has a dependency to the parameter, else the last one with such a
/// dependency (`acc` holds the last found so far).
pub open spec fn pick_source(
    deps: Seq<ApiDependency>,
    seqs: Seq<SequenceView>,
    cands: Seq<usize>,
    u: usize,
    k: usize,
    c: int,
    acc: Option<usize>,
) -> Option<usize>
    decreases cands.len() - c,
{
    if c >= cands.len() || c < 0 {
        acc
    } else {
        let ci = cands[c];
        let out = seqs[ci as int].last_func_index().unwrap();
        if spec_check_dependency(deps, (ApiType::BareFunction, out), (ApiType::BareFunction, u), k) is Some {
            if seqs[ci as int].fuzzable_params.len() != 0 {
                Some(ci)
            } else {
                pick_source(deps, seqs, cands, u, k, c + 1, Some(ci))
            }
        } else {
            pick_source(deps, seqs, cands, u, k, c + 1, acc)
        }
    }
}

/// The sources picked for the parameters of `u` from parameter `k` on that
/// a fuzzer cannot supply, in order; `None` when one has no source.
pub open spec fn dependent_sources(
    fns: Seq<ApiFunction>,
    deps: Seq<ApiDependency>,
    seqs: Seq<SequenceView>,
    cands: Seq<usize>,
    u: usize,
    k: int,
) -> Option<Seq<usize>>
    decreases fns[u as int].inputs@.len() - k,
{
    if k >= fns[u as int].inputs@.len() || k < 0 {
        Some(Seq::empty())
    } else if fns[u as int].inputs@[k].fuzzable_plain {
        dependent_sources(fns, deps, seqs, cands, u, k + 1)
    } else {
        match pick_source(deps, seqs, cands, u, k as usize, 0, None) {
            None => None,
            Some(c) => match dependent_sources(fns, deps, seqs, cands, u, k + 1) {
                None => None,
                Some(rest) => Some(seq![c] + rest),
            },
        }
    }
}

/// The state of a round: the sequences, the visited functions, and the
/// functions covered in the round.
pub struct CoverState {
    pub seqs: Seq<SequenceView>,
    pub visited: Seq<bool>,
    pub covered: Seq<usize>,
}

/// Tries to reach function `u`: merges its sources and calls it after them.
pub open spec fn try_cover(fns: Seq<ApiFunction>, deps: Seq<ApiDependency>, st: CoverState, cands: Seq<usize>, u: usize) -> CoverState {
    match dependent_sources(fns, deps, st.seqs, cands, u, 0) {
        None => st,
        Some(ds) => {
            let merged = merge_all(ds.map_values(|c: usize| st.seqs[c as int]));
            match spec_is_fun_satisfied(fns, deps, ApiType::BareFunction, u, merged) {
                Some(g) => CoverState { seqs: st.seqs.push(g), visited: st.visited.update(u as int, true), covered: st.covered.push(u) },
                None => st,
            }
        }
    }
}

/// One round over the functions `unvisited` from position `t` on.
pub open spec fn cover_round(
    fns: Seq<ApiFunction>,
    deps: Seq<ApiDependency>,
    st: CoverState,
    unvisited: Seq<usize>,
    cands: Seq<usize>,
    t: int,
) -> CoverState
    decreases unvisited.len() - t,
{
    if t >= unvisited.len() || t < 0 {
        st
    } else {
        cover_round(fns, deps, try_cover(fns, deps, st, cands, unvisited[t]), unvisited, cands, t + 1)
    }
}

/// Up to `rounds` rounds; each picks the candidates anew and drops the
/// functions it reached; the search ends after a round that reaches none.
pub open spec fn cover_rounds(
    fns: Seq<ApiFunction>,
    deps: Seq<ApiDependency>,
    seqs: Seq<SequenceView>,
    visited: Seq<bool>,
    unvisited: Seq<usize>,
    rounds: int,
) -> (Seq<SequenceView>, Seq<bool>)
    decreases rounds,
{
    if rounds <= 0 {
        (seqs, visited)
    } else {
        let cands = merge_candidates(fns, seqs);
        let st = cover_round(fns, deps, CoverState { seqs, visited, covered: Seq::empty() }, unvisited, cands, 0);
        if st.covered.len() == 0 {
            (st.seqs, st.visited)
        } else {
            cover_rounds(
                fns,
                deps,
                st.seqs,
                st.visited,
                unvisited.filter(|x: usize| !st.covered.contains(x)),
                rounds - 1,
            )
        }
    }
}

/// The first `n` functions that are not visited, in increasing order.
pub open spec fn spec_unvisited_nodes(n: nat, visited: Seq<bool>) -> Seq<usize> {
    Seq::new(n, |i: int| i as usize).filter(|i: usize| !visited[i as int])
}

/// The backward search: as many rounds as there are unvisited functions.
pub open spec fn spec_try_to_cover(
    fns: Seq<ApiFunction>,
    deps: Seq<ApiDependency>,
    seqs: Seq<SequenceView>,
    visited: Seq<bool>,
) -> (Seq<SequenceView>, Seq<bool>) {
    let unvisited = spec_unvisited_nodes(fns.len(), visited);
    cover_rounds(fns, deps, seqs, visited, unvisited, unvisited.len() as int)
}

/// What the backward search keeps, from `seqs0` and `vis0` to `seqs` and
/// `vis`: the earlier sequences stay in place, no mark is lost, and each
/// added sequence ends with a call of a function that is marked.
#[verifier::opaque]
pub open spec fn cover_kept(seqs0: Seq<SequenceView>, vis0: Seq<bool>, seqs: Seq<SequenceView>, vis: Seq<bool>) -> bool {
    &&& keeps_prefix(seqs0, seqs)
    &&& vis.len() == vis0.len()
    &&& forall|f: int| 0 <= f < vis0.len() && #[trigger] vis0[f] ==> vis[f]
    &&& forall|s: int| seqs0.len() <= s < seqs.len() ==> ends_marked(#[trigger] seqs[s], vis)
}

/// `s` ends with a call of a function marked in `vis`.
pub open spec fn ends_marked(s: SequenceView, vis: Seq<bool>) -> bool {
    exists|u: int| 0 <= u < vis.len() && s.last_func_index() == Some(u as usize) && #[trigger] vis[u]
}

proof fn lemma_ends_marked_grow(s: SequenceView, v1: Seq<bool>, v2: Seq<bool>)
    requires
        ends_marked(s, v1),
        v2.len() == v1.len(),
        forall|f: int| 0 <= f < v1.len() && #[trigger] v1[f] ==> v2[f],
    ensures
        ends_marked(s, v2),
{
    let u = choose|u: int| 0 <= u < v1.len() && s.last_func_index() == Some(u as usize) && #[trigger] v1[u];
    assert(v2[u]);
}

proof fn lemma_cover_kept_refl(seqs: Seq<SequenceView>, vis: Seq<bool>)
    ensures
        cover_kept(seqs, vis, seqs, vis),
{
    reveal(cover_kept);
}

proof fn lemma_cover_kept_trans(
    s0: Seq<SequenceView>,
    v0: Seq<bool>,
    s1: Seq<SequenceView>,
    v1: Seq<bool>,
    s2: Seq<SequenceView>,
    v2: Seq<bool>,
)
    requires
        cover_kept(s0, v0, s1, v1),
        cover_kept(s1, v1, s2, v2),
    ensures
        cover_kept(s0, v0, s2, v2),
{
    reveal(cover_kept);
    assert forall|s: int| s0.len() <= s < s2.len() implies ends_marked(#[trigger] s2[s], v2) by {
        if s < s1.len() {
            assert(s2[s] == s1[s]);
            assert(ends_marked(s1[s], v1));
            lemma_ends_marked_grow(s1[s], v1, v2);
        }
    }
}

proof fn lemma_try_cover_kept(fns: Seq<ApiFunction>, deps: Seq<ApiDependency>, st: CoverState, cands: Seq<usize>, u: usize)
    requires
        u < st.visited.len(),
    ensures
        cover_kept(st.seqs, st.visited, try_cover(fns, deps, st, cands, u).seqs, try_cover(fns, deps, st, cands, u).visited),
{
    reveal(cover_kept);
    match dependent_sources(fns, deps, st.seqs, cands, u, 0) {
        None => {},
        Some(ds) => {
            let merged = merge_all(ds.map_values(|c: usize| st.seqs[c as int]));
            lemma_fun_satisfied_extends(fns, deps, ApiType::BareFunction, u, merged);
            match spec_is_fun_satisfied(fns, deps, ApiType::BareFunction, u, merged) {
                Some(g) => {
                    let r = try_cover(fns, deps, st, cands, u);
                    assert(r.seqs == st.seqs.push(g));
                    assert(r.visited[u as int]);
                    assert(r.seqs[st.seqs.len() as int] == g);
                    assert(ends_marked(r.seqs[st.seqs.len() as int], r.visited));
                },
                None => {},
            }
        },
    }
}

proof fn lemma_cover_round_kept(
    fns: Seq<ApiFunction>,
    deps: Seq<ApiDependency>,
    st: CoverState,
    unvisited: Seq<usize>,
    cands: Seq<usize>,
    t: int,
)
    requires
        forall|i: int| 0 <= i < unvisited.len() ==> (#[trigger] unvisited[i]) < st.visited.len(),
    ensures
        cover_kept(
            st.seqs,
            st.visited,
            cover_round(fns, deps, st, unvisited, cands, t).seqs,
            cover_round(fns, deps, st, unvisited, cands, t).visited,
        ),
    decreases unvisited.len() - t,
{
    if 0 <= t < unvisited.len() {
        let st1 = try_cover(fns, deps, st, cands, unvisited[t]);
        lemma_try_cover_kept(fns, deps, st, cands, unvisited[t]);
        assert(st1.visited.len() == st.visited.len()) by {
            reveal(cover_kept);
        }
        lemma_cover_round_kept(fns, deps, st1, unvisited, cands, t + 1);
        lemma_cover_kept_trans(
            st.seqs,
            st.visited,
            st1.seqs,
            st1.visited,
            cover_round(fns, deps, st1, unvisited, cands, t + 1).seqs,
            cover_round(fns, deps, st1, unvisited, cands, t + 1).visited,
        );
    } else {
        lemma_cover_kept_refl(st.seqs, st.visited);
    }
}

proof fn lemma_cover_rounds_kept(
    fns: Seq<ApiFunction>,
    deps: Seq<ApiDependency>,
    seqs: Seq<SequenceView>,
    visited: Seq<bool>,
    unvisited: Seq<usize>,
    rounds: int,
)
    requires
        forall|i: int| 0 <= i < unvisited.len() ==> (#[trigger] unvisited[i]) < visited.len(),
    ensures
        cover_kept(
            seqs,
            visited,
            cover_rounds(fns, deps, seqs, visited, unvisited, rounds).0,
            cover_rounds(fns, deps, seqs, visited, unvisited, rounds).1,
        ),
    decreases rounds,
{
    if rounds <= 0 {
        lemma_cover_kept_refl(seqs, visited);
    } else {
        let cands = merge_candidates(fns, seqs);
        let st0 = CoverState { seqs, visited, covered: Seq::empty() };
        let st = cover_round(fns, deps, st0, unvisited, cands, 0);
        lemma_cover_round_kept(fns, deps, st0, unvisited, cands, 0);
        if st.covered.len() != 0 {
            let pred = |x: usize| !st.covered.contains(x);
            let rest = unvisited.filter(pred);
            assert(st.visited.len() == visited.len()) by {
                reveal(cover_kept);
            }
            assert forall|i: int| 0 <= i < rest.len() implies (#[trigger] rest[i]) < st.visited.len() by {
                assert(rest.contains(rest[i]));
                unvisited.lemma_filter_contains_rev(pred, rest[i]);
            }
            lemma_cover_rounds_kept(fns, deps, st.seqs, st.visited, rest, rounds - 1);
            lemma_cover_kept_trans(
                seqs,
                visited,
                st.seqs,
                st.visited,
                cover_rounds(fns, deps, st.seqs, st.visited, rest, rounds - 1).0,
                cover_rounds(fns, deps, st.seqs, st.visited, rest, rounds - 1).1,
            );
        }
    }
}

/// The backward search keeps every sequence there was at its place and
/// every mark of a visited function, and each sequence it adds ends with a
/// call of a function that it leaves marked visited.
pub proof fn lemma_try_to_cover_keeps(
    fns: Seq<ApiFunction>,
    deps: Seq<ApiDependency>,
    seqs: Seq<SequenceView>,
    visited: Seq<bool>,
)
    requires
        fns.len() <= visited.len(),
    ensures
        ({
            let (r, v) = spec_try_to_cover(fns, deps, seqs, visited);
            &&& keeps_prefix(seqs, r)
            &&& v.len() == visited.len()
            &&& forall|f: int| 0 <= f < visited.len() && #[trigger] visited[f] ==> v[f]
            &&& forall|s: int| seqs.len() <= s < r.len() ==> ends_marked(#[trigger] r[s], v)
        }),
{
    let unvisited = spec_unvisited_nodes(fns.len(), visited);
    let all = Seq::new(fns.len(), |i: int| i as usize);
    let pred = |i: usize| !visited[i as int];
    assert forall|i: int| 0 <= i < unvisited.len() implies (#[trigger] unvisited[i]) < visited.len() by {
        assert(unvisited.contains(unvisited[i]));
        all.lemma_filter_contains_rev(pred, unvisited[i]);
        let j = choose|j: int| 0 <= j < all.len() && all[j] == unvisited[i];
    }
    lemma_cover_rounds_kept(fns, deps, seqs, visited, unvisited, unvisited.len() as int);
    reveal(cover_kept);
}

/// Every sequence of `seqs` has only calls that fit.
pub open spec fn all_calls_fit(fns: Seq<ApiFunction>, deps: Seq<ApiDependency>, seqs: Seq<SequenceView>) -> bool {
    forall|s: int| 0 <= s < seqs.len() ==> calls_fit(fns, deps, #[trigger] seqs[s])
}

/// Merging two sequences whose calls fit, into one that can be held in
/// memory, gives a sequence whose calls fit.
pub proof fn lemma_merge_two_fits(fns: Seq<ApiFunction>, deps: Seq<ApiDependency>, a: SequenceView, b: SequenceView)
    requires
        calls_fit(fns, deps, a),
        calls_fit(fns, deps, b),
        a.functions.len() + b.functions.len() <= usize::MAX,
    ensures
        calls_fit(fns, deps, merge_two(a, b)),
{
    let m = merge_two(a, b).functions;
    let nf = a.functions.len();
    let nz = a.fuzzable_params.len();
    assert(m.len() == nf + b.functions.len());
    assert forall|c: int| 0 <= c < m.len() implies #[trigger] call_fits(fns, deps, m, c) by {
        if c < nf {
            assert(m[c] == a.functions[c]);
            assert(call_fits(fns, deps, a.functions, c));
            let call = a.functions[c];
            assert forall|q: int| 0 <= q < call.params.len() implies arg_fits(fns, deps, call.func.1, m, c, #[trigger] call.params[q], q) by {
                let arg = call.params[q];
                assert(arg_fits(fns, deps, call.func.1, a.functions, c, arg, q));
                if !fns[call.func.1 as int].inputs@[q].fuzzable {
                    let (j, d) = choose|j: int, d: int|
                        0 <= j < c && j as usize == arg.index && 0 <= d < deps.len() && dep_matches(
                            deps[d],
                            a.functions[j].func,
                            (ApiType::BareFunction, call.func.1),
                            q as usize,
                        ) && deps[d].call_type == arg.call_type;
                    assert(m[j] == a.functions[j]);
                }
            }
        } else {
            let i = c - nf;
            let bc = b.functions[i];
            assert(m[c] == shift_call(bc, nf, nz));
            assert(call_fits(fns, deps, b.functions, i));
            let call = m[c];
            assert forall|q: int| 0 <= q < call.params.len() implies arg_fits(fns, deps, call.func.1, m, c, #[trigger] call.params[q], q) by {
                let arg = bc.params[q];
                assert(call.params[q] == shift_param(arg, nf, nz));
                assert(arg_fits(fns, deps, bc.func.1, b.functions, i, arg, q));
                if !fns[bc.func.1 as int].inputs@[q].fuzzable {
                    let (j, d) = choose|j: int, d: int|
                        0 <= j < i && j as usize == arg.index && 0 <= d < deps.len() && dep_matches(
                            deps[d],
                            b.functions[j].func,
                            (ApiType::BareFunction, bc.func.1),
                            q as usize,
                        ) && deps[d].call_type == arg.call_type;
                    assert(arg.index == j);
                    assert(m[j + nf] == shift_call(b.functions[j], nf, nz));
                    assert((j + nf) as usize == shift_param(arg, nf, nz).index);
                    assert(arg_fits(fns, deps, call.func.1, m, c, call.params[q], q));
                }
            }
        }
    }
}

/// Merging sequences whose calls fit, into one that can be held in
/// memory, gives a sequence whose calls fit.
pub proof fn lemma_merge_all_fits(fns: Seq<ApiFunction>, deps: Seq<ApiDependency>, s: Seq<SequenceView>)
    requires
        forall|i: int| 0 <= i < s.len() ==> calls_fit(fns, deps, #[trigger] s[i]),
        merge_all(s).functions.len() <= usize::MAX,
    ensures
        calls_fit(fns, deps, merge_all(s)),
    decreases s.len(),
{
    if s.len() == 1 {
        assert(calls_fit(fns, deps, s[0]));
    } else if s.len() > 1 {
        let a = merge_all(s.drop_last());
        let b = s.last();
        assert(merge_all(s) == merge_two(a, b));
        assert(merge_two(a, b).functions.len() == a.functions.len() + b.functions.len());
        assert forall|i: int| 0 <= i < s.drop_last().len() implies calls_fit(fns, deps, #[trigger] s.drop_last()[i]) by {
            assert(s.drop_last()[i] == s[i]);
        }
        lemma_merge_all_fits(fns, deps, s.drop_last());
        assert(calls_fit(fns, deps, s[s.len() - 1]));
        lemma_merge_two_fits(fns, deps, a, b);
    }
}

/// Every entry of `cands` is the position of a sequence with a call.
pub open spec fn cands_ok(cands: Seq<usize>, seqs: Seq<SequenceView>) -> bool {
    forall|c: int| 0 <= c < cands.len() ==> {
        &&& (#[trigger] cands[c]) < seqs.len()
        &&& seqs[cands[c] as int].len() >= 1
    }
}

impl ApiGraph {
    /// The positions of the sequences that can be merged into another.
    pub fn _choose_candidate_sequence_for_merge(&self) -> (r: Vec<usize>)
        requires
            self.well_formed(),
        ensures
            r@ == merge_candidates(self.api_functions@, self.sequences_view()),
    {
        let ghost pred = |i: usize| mergeable(self.api_functions@, self.sequences_view()[i as int]);
        let ghost all = Seq::new(self.sequences_view().len(), |i: int| i as usize);
        let mut res: Vec<usize> = Vec::new();
        let all_sequence_number = self.api_sequences.len();
        let mut i: usize = 0;
        while i < all_sequence_number
            invariant
                self.well_formed(),
                all_sequence_number == self.api_sequences@.len(),
                i <= all_sequence_number,
                pred == (|i: usize| mergeable(self.api_functions@, self.sequences_view()[i as int])),
                all == Seq::new(self.sequences_view().len(), |i: int| i as usize),
                res@ == all.take(i as int).filter(pred),
            decreases all_sequence_number - i,
        {
            proof {
                assert(all.take(i + 1) =~= all.take(i as int).push(i));
                all.take(i as int).lemma_filter_push(i, pred);
                assert(self.api_sequences@[i as int]@.consistent());
            }
            let api_sequence = &self.api_sequences[i];
            proof {
                assert(self.sequences_view()[i as int] == api_sequence@);
            }
            if !self.is_sequence_ended(api_sequence) && api_sequence.len() >= 1
                && !api_sequence.contains_dead_code_except_last_one() {
                res.push(i);
            }
            i = i + 1;
        }
        proof {
            assert(all.take(i as int) =~= all);
        }
        res
    }

    /// The candidate that supplies parameter `k` of function `u`.
    fn pick_source(&self, cands: &Vec<usize>, u: usize, k: usize) -> (r: Option<usize>)
        requires
            cands_ok(cands@, self.sequences_view()),
        ensures
            r == pick_source(self.api_dependencies@, self.sequences_view(), cands@, u, k, 0, None),
    {
        let mut acc: Option<usize> = None;
        let mut c: usize = 0;
        while c < cands.len()
            invariant
                cands_ok(cands@, self.sequences_view()),
                c <= cands@.len(),
                pick_source(self.api_dependencies@, self.sequences_view(), cands@, u, k, 0, None)
                    == pick_source(self.api_dependencies@, self.sequences_view(), cands@, u, k, c as int, acc),
            decreases cands.len() - c,
        {
            let ci = cands[c];
            let candidate_sequence = &self.api_sequences[ci];
            proof {
                assert(self.sequences_view()[ci as int] == candidate_sequence@);
            }
            let output_index = match candidate_sequence.last_api_func_index() {
                Some(o) => o,
                None => {
                    return None;
                },
            };
            if self.check_dependency(&ApiType::BareFunction, output_index, &ApiType::BareFunction, u, k).is_some() {
                acc = Some(ci);
                if !candidate_sequence.has_no_fuzzables() {
                    return acc;
                }
            }
            c = c + 1;
        }
        acc
    }

    /// The sources for the parameters of `u` that a fuzzer cannot supply.
    fn dependent_sources(&self, cands: &Vec<usize>, u: usize) -> (r: Option<Vec<usize>>)
        requires
            u < self.api_functions@.len(),
            cands_ok(cands@, self.sequences_view()),
        ensures
            match r {
                Some(v) => dependent_sources(self.api_functions@, self.api_dependencies@, self.sequences_view(), cands@, u, 0)
                    == Some(v@),
                None => dependent_sources(self.api_functions@, self.api_dependencies@, self.sequences_view(), cands@, u, 0)
                    is None,
            },
            r matches Some(v) ==> forall|j: int| 0 <= j < v@.len() ==> (#[trigger] v@[j]) < self.api_sequences@.len(),
    {
        let ghost fns = self.api_functions@;
        let ghost deps = self.api_dependencies@;
        let ghost seqs = self.sequences_view();
        let inputs = &self.api_functions[u].inputs;
        let mut res: Vec<usize> = Vec::new();
        let mut k: usize = 0;
        while k < inputs.len()
            invariant
                u < fns.len(),
                fns == self.api_functions@,
                deps == self.api_dependencies@,
                seqs == self.sequences_view(),
                *inputs == fns[u as int].inputs,
                cands_ok(cands@, seqs),
                k <= inputs@.len(),
                dependent_sources(fns, deps, seqs, cands@, u, 0) == match dependent_sources(fns, deps, seqs, cands@, u, k as int) {
                    None => None,
                    Some(rest) => Some(res@ + rest),
                },
                forall|j: int| 0 <= j < res@.len() ==> (#[trigger] res@[j]) < seqs.len(),
            decreases inputs.len() - k,
        {
            if !inputs[k].fuzzable_plain {
                match self.pick_source(cands, u, k) {
                    None => {
                        return None;
                    },
                    Some(c) => {
                        proof {
                            let rest = dependent_sources(fns, deps, seqs, cands@, u, k + 1);
                            if rest is Some {
                                assert(res@ + (seq![c] + rest.unwrap()) =~= res@.push(c) + rest.unwrap());
                            }
                            lemma_pick_in_cands(deps, seqs, cands@, u, k, 0, None);
                        }
                        res.push(c);
                    },
                }
            }
            k = k + 1;
        }
        proof {
            assert(res@ + Seq::<usize>::empty() =~= res@);
        }
        Some(res)
    }

    /// Tries to reach function `u`.
    fn try_cover_node(&mut self, cands: &Vec<usize>, u: usize, covered: &mut Vec<usize>)
        requires
            old(self).well_formed(),
            old(self).flags_cover_functions(),
            u < old(self).api_functions@.len(),
            cands_ok(cands@, old(self).sequences_view()),
        ensures
            (CoverState {
                seqs: final(self).sequences_view(),
                visited: final(self).api_functions_visited@,
                covered: final(covered)@,
            }) == try_cover(
                old(self).api_functions@,
                old(self).api_dependencies@,
                CoverState {
                    seqs: old(self).sequences_view(),
                    visited: old(self).api_functions_visited@,
                    covered: old(covered)@,
                },
                cands@,
                u,
            ),
            final(self).well_formed(),
            final(self).api_functions_visited@.len() == old(self).api_functions_visited@.len(),
            cands_ok(cands@, final(self).sequences_view()),
            final(self).api_functions@ == old(self).api_functions@,
            final(self).api_dependencies@ == old(self).api_dependencies@,
            final(self)._crate_name == old(self)._crate_name,
            all_calls_fit(old(self).api_functions@, old(self).api_dependencies@, old(self).sequences_view()) ==> all_calls_fit(
                final(self).api_functions@,
                final(self).api_dependencies@,
                final(self).sequences_view(),
            ),
            search_frame(*old(self), *final(self)),
    {
        let ghost seqs = self.sequences_view();
        let ds = match self.dependent_sources(cands, u) {
            Some(ds) => ds,
            None => {
                return;
            },
        };
        let mut dependent_sequences: Vec<ApiSequence> = Vec::new();
        let mut j: usize = 0;
        while j < ds.len()
            invariant
                search_frame(*old(self), *self),
                self.well_formed(),
                seqs == self.sequences_view(),
                j <= ds@.len(),
                forall|m: int| 0 <= m < ds@.len() ==> (#[trigger] ds@[m]) < self.api_sequences@.len(),
                views(dependent_sequences@) == ds@.take(j as int).map_values(|c: usize| seqs[c as int]),
                forall|m: int| 0 <= m < dependent_sequences@.len() ==> {
                    &&& (#[trigger] dependent_sequences@[m])@.consistent()
                    &&& dependent_sequences@[m]@.refers_within(self.api_functions@.len())
                },
            decreases ds.len() - j,
        {
            let copy = self.api_sequences[ds[j]].duplicate();
            proof {
                assert(self.api_sequences@[ds@[j as int] as int]@.consistent());
                assert(self.api_sequences@[ds@[j as int] as int]@.refers_within(self.api_functions@.len()));
            }
            let ghost prev_deps = dependent_sequences@;
            proof {
                assert(copy@ == seqs[ds@[j as int] as int]);
            }
            dependent_sequences.push(copy);
            proof {
                assert(views(dependent_sequences@) =~= views(prev_deps).push(copy@));
                assert(ds@.take(j + 1).map_values(|c: usize| seqs[c as int]) =~= ds@.take(j as int).map_values(
                    |c: usize| seqs[c as int]).push(seqs[ds@[j as int] as int]));
            }
            j = j + 1;
        }
        proof {
            assert(ds@.take(j as int) =~= ds@);
        }
        let merged_sequence = ApiSequence::merge_sequences(&dependent_sequences);
        proof {
            assert(views(dependent_sequences@) == dependent_sequences@.map_values(|q: ApiSequence| q@));
        }
        let merged_length = merged_sequence.len();
        let dependency_number = self.api_dependencies.len();
        if let Some(generated_sequence) = self.is_fun_satisfied(&ApiType::BareFunction, u, &merged_sequence) {
            proof {
                let fns = self.api_functions@;
                let deps = self.api_dependencies@;
                assert(merged_sequence@.functions.len() == merged_length);
                assert(deps.len() == dependency_number);
                if all_calls_fit(fns, deps, seqs) {
                    let parts = dependent_sequences@.map_values(|q: ApiSequence| q@);
                    assert forall|i: int| 0 <= i < parts.len() implies calls_fit(fns, deps, #[trigger] parts[i]) by {
                        assert(parts[i] == views(dependent_sequences@)[i]);
                        assert(views(dependent_sequences@)[i] == seqs[ds@[i] as int]);
                    }
                    lemma_merge_all_fits(fns, deps, parts);
                    lemma_fun_satisfied_fits(fns, deps, ApiType::BareFunction, u, merged_sequence@);
                }
            }
            let ghost before = self.api_sequences@;
            self.api_sequences.push(generated_sequence);
            self.api_functions_visited.set(u, true);
            covered.push(u);
            proof {
                assert(self.sequences_view() =~= views(before).push(generated_sequence@));
                assert forall|s: int| 0 <= s < self.api_sequences@.len() implies {
                    &&& (#[trigger] self.api_sequences@[s])@.consistent()
                    &&& self.api_sequences@[s]@.refers_within(self.api_functions@.len())
                } by {
                    if s < before.len() {
                        assert(self.api_sequences@[s] == before[s]);
                    }
                }
                assert forall|c: int| 0 <= c < cands@.len() implies {
                    &&& (#[trigger] cands@[c]) < self.sequences_view().len()
                    &&& self.sequences_view()[cands@[c] as int].len() >= 1
                } by {
                    assert(self.sequences_view()[cands@[c] as int] == seqs[cands@[c] as int]);
                }
            }
        }
    }

    /// The backward search: in rounds, tries to reach each function no
    /// sequence calls yet by merging sequences that supply its parameters;
    /// stops after a round that reaches none, or after as many rounds as
    /// there were unvisited functions.
    pub fn _try_to_cover_unvisited_nodes(&mut self)
        requires
            old(self).well_formed(),
            old(self).flags_cover_functions(),
        ensures
            (final(self).sequences_view(), final(self).api_functions_visited@) == spec_try_to_cover(
                old(self).api_functions@,
                old(self).api_dependencies@,
                old(self).sequences_view(),
                old(self).api_functions_visited@,
            ),
            final(self).well_formed(),
            final(self).api_functions_visited@.len() == old(self).api_functions_visited@.len(),
            final(self).api_functions@ == old(self).api_functions@,
            final(self).api_dependencies@ == old(self).api_dependencies@,
            final(self)._crate_name == old(self)._crate_name,
            all_calls_fit(old(self).api_functions@, old(self).api_dependencies@, old(self).sequences_view()) ==> all_calls_fit(
                final(self).api_functions@,
                final(self).api_dependencies@,
                final(self).sequences_view(),
            ),
            search_frame(*old(self), *final(self)),
    {
        let ghost fns = self.api_functions@;
        let ghost deps = self.api_dependencies@;
        let api_fun_number = self.api_functions.len();
        let ghost all = Seq::new(api_fun_number as nat, |i: int| i as usize);
        let ghost vis0 = self.api_functions_visited@;
        let ghost upred = |i: usize| !vis0[i as int];
        let mut unvisited_nodes: Vec<usize> = Vec::new();
        let mut i: usize = 0;
        while i < api_fun_number
            invariant
                search_frame(*old(self), *self),
                api_fun_number == self.api_functions@.len(),
                self.flags_cover_functions(),
                self.api_functions_visited@.len() == old(self).api_functions_visited@.len(),
                vis0 == self.api_functions_visited@,
                i <= api_fun_number,
                all == Seq::new(api_fun_number as nat, |i: int| i as usize),
                upred == (|i: usize| !vis0[i as int]),
                unvisited_nodes@ == all.take(i as int).filter(upred),
            decreases api_fun_number - i,
        {
            proof {
                assert(all.take(i + 1) =~= all.take(i as int).push(i));
                all.take(i as int).lemma_filter_push(i, upred);
            }
            if !self.api_functions_visited[i] {
                unvisited_nodes.push(i);
            }
            i = i + 1;
        }
        proof {
            assert(all.take(i as int) =~= all);
            assert(unvisited_nodes@ == spec_unvisited_nodes(api_fun_number as nat, vis0));
            lemma_filter_below(all, upred, api_fun_number as int);
        }
        let rounds = unvisited_nodes.len();
        let mut round: usize = 0;
        while round < rounds
            invariant
                search_frame(*old(self), *self),
                round <= rounds,
                fns == self.api_functions@,
                deps == self.api_dependencies@,
                fns == old(self).api_functions@,
                deps == old(self).api_dependencies@,
                self._crate_name == old(self)._crate_name,
                self.well_formed(),
                self.flags_cover_functions(),
                self.api_functions_visited@.len() == old(self).api_functions_visited@.len(),
                forall|m: int| 0 <= m < unvisited_nodes@.len() ==> (#[trigger] unvisited_nodes@[m]) < fns.len(),
                all_calls_fit(fns, deps, old(self).sequences_view()) ==> all_calls_fit(fns, deps, self.sequences_view()),
                spec_try_to_cover(fns, deps, old(self).sequences_view(), old(self).api_functions_visited@) == cover_rounds(
                    fns,
                    deps,
                    self.sequences_view(),
                    self.api_functions_visited@,
                    unvisited_nodes@,
                    (rounds - round) as int,
                ),
            decreases rounds - round,
        {
            let candidate_sequences = self._choose_candidate_sequence_for_merge();
            proof {
                assert forall|c: int| 0 <= c < candidate_sequences@.len() implies {
                    &&& (#[trigger] candidate_sequences@[c]) < self.sequences_view().len()
                    &&& self.sequences_view()[candidate_sequences@[c] as int].len() >= 1
                } by {
                    let p = |i: usize| mergeable(fns, self.sequences_view()[i as int]);
                    let a = Seq::new(self.sequences_view().len(), |i: int| i as usize);
                    a.lemma_filter_contains_rev(p, candidate_sequences@[c]);
                    assert(candidate_sequences@.contains(candidate_sequences@[c]));
                    broadcast use vstd::seq_lib::group_filter_ensures;
                }
            }
            let mut covered: Vec<usize> = Vec::new();
            let ghost start = CoverState {
                seqs: self.sequences_view(),
                visited: self.api_functions_visited@,
                covered: Seq::empty(),
            };
            proof {
                assert(covered@ =~= Seq::<usize>::empty());
            }
            let mut t: usize = 0;
            while t < unvisited_nodes.len()
                invariant
                    search_frame(*old(self), *self),
                    t <= unvisited_nodes@.len(),
                    fns == self.api_functions@,
                    deps == self.api_dependencies@,
                    self._crate_name == old(self)._crate_name,
                    self.well_formed(),
                    self.flags_cover_functions(),
                self.api_functions_visited@.len() == old(self).api_functions_visited@.len(),
                    forall|m: int| 0 <= m < unvisited_nodes@.len() ==> (#[trigger] unvisited_nodes@[m]) < fns.len(),
                    cands_ok(candidate_sequences@, self.sequences_view()),
                    all_calls_fit(fns, deps, old(self).sequences_view()) ==> all_calls_fit(fns, deps, self.sequences_view()),
                    cover_round(fns, deps, start, unvisited_nodes@, candidate_sequences@, 0) == cover_round(
                        fns,
                        deps,
                        CoverState {
                            seqs: self.sequences_view(),
                            visited: self.api_functions_visited@,
                            covered: covered@,
                        },
                        unvisited_nodes@,
                        candidate_sequences@,
                        t as int,
                    ),
                decreases unvisited_nodes.len() - t,
            {
                self.try_cover_node(&candidate_sequences, unvisited_nodes[t], &mut covered);
                t = t + 1;
            }
            if covered.len() == 0 {
                return;
            }
            let ghost before = unvisited_nodes@;
            proof {
                lemma_filter_nothing(before, covered@);
            }
            let mut c: usize = 0;
            while c < covered.len()
                invariant
                    search_frame(*old(self), *self),
                    c <= covered@.len(),
                    fns == self.api_functions@,
                    forall|m: int| 0 <= m < before.len() ==> (#[trigger] before[m]) < fns.len(),
                    unvisited_nodes@ == before.filter(|x: usize| !covered@.take(c as int).contains(x)),
                decreases covered.len() - c,
            {
                let x = covered[c];
                remove_index(&mut unvisited_nodes, x);
                proof {
                    lemma_filter_filter(before, covered@, c as int, x);
                }
                c = c + 1;
            }
            proof {
                assert(covered@.take(c as int) =~= covered@);
                assert forall|m: int| 0 <= m < unvisited_nodes@.len() implies (#[trigger] unvisited_nodes@[m]) < fns.len() by {
                    let p = |x: usize| !covered@.contains(x);
                    before.lemma_filter_contains_rev(p, unvisited_nodes@[m]);
                    assert(unvisited_nodes@.contains(unvisited_nodes@[m]));
                    broadcast use vstd::seq_lib::group_filter_ensures;
                }
            }
            round = round + 1;
        }
    }
}

/// The candidate sequence at position `ci` ends with a call whose result
/// has a dependency to parameter `k` of function `u`.
pub open spec fn supplies(deps: Seq<ApiDependency>, seqs: Seq<SequenceView>, ci: usize, u: usize, k: usize) -> bool {
    spec_check_dependency(
        deps,
        (ApiType::BareFunction, seqs[ci as int].last_func_index().unwrap()),
        (ApiType::BareFunction, u),
        k,
    ) is Some
}

proof fn lemma_pick_source_from(
    deps: Seq<ApiDependency>,
    seqs: Seq<SequenceView>,
    cands: Seq<usize>,
    u: usize,
    k: usize,
    c: int,
    acc: Option<usize>,
)
    requires
        0 <= c,
        acc matches Some(a) ==> supplies(deps, seqs, a, u, k) && cands.contains(a) && seqs[a as int].fuzzable_params.len()
            == 0,
    ensures
        ({
            let r = pick_source(deps, seqs, cands, u, k, c, acc);
            &&& r matches Some(x) ==> supplies(deps, seqs, x, u, k) && cands.contains(x)
            &&& (r matches Some(x) && seqs[x as int].fuzzable_params.len() == 0) ==> forall|e: int|
                c <= e < cands.len() && supplies(deps, seqs, #[trigger] cands[e], u, k) ==> seqs[cands[e] as int].fuzzable_params.len()
                    == 0
            &&& r is None ==> acc is None && forall|e: int| c <= e < cands.len() ==> !supplies(deps, seqs, #[trigger] cands[e], u, k)
        }),
    decreases cands.len() - c,
{
    if c < cands.len() {
        let ci = cands[c];
        if supplies(deps, seqs, ci, u, k) {
            if seqs[ci as int].fuzzable_params.len() == 0 {
                lemma_pick_source_from(deps, seqs, cands, u, k, c + 1, Some(ci));
            }
        } else {
            lemma_pick_source_from(deps, seqs, cands, u, k, c + 1, acc);
        }
    }
}

/// Which candidate supplies a parameter: the one picked can supply it, and
/// a candidate without fuzzer inputs is picked only when no candidate with
/// fuzzer inputs can supply it (so the merged sequence keeps an input for
/// the fuzzer where there is one); nothing is picked only when no candidate
/// can supply it.
pub proof fn lemma_pick_source_prefers_fuzzable(
    deps: Seq<ApiDependency>,
    seqs: Seq<SequenceView>,
    cands: Seq<usize>,
    u: usize,
    k: usize,
)
    ensures
        ({
            let r = pick_source(deps, seqs, cands, u, k, 0, None);
            &&& r matches Some(x) ==> supplies(deps, seqs, x, u, k) && cands.contains(x)
            &&& (r matches Some(x) && seqs[x as int].fuzzable_params.len() == 0) ==> forall|e: int|
                0 <= e < cands.len() && supplies(deps, seqs, #[trigger] cands[e], u, k) ==> seqs[cands[e] as int].fuzzable_params.len()
                    == 0
            &&& r is None ==> forall|e: int| 0 <= e < cands.len() ==> !supplies(deps, seqs, #[trigger] cands[e], u, k)
        }),
{
    lemma_pick_source_from(deps, seqs, cands, u, k, 0, None);
}

pub proof fn lemma_pick_in_cands(
    deps: Seq<ApiDependency>,
    seqs: Seq<SequenceView>,
    cands: Seq<usize>,
    u: usize,
    k: usize,
    c: int,
    acc: Option<usize>,
)
    requires
        cands_ok(cands, seqs),
        0 <= c,
        acc matches Some(a) ==> a < seqs.len(),
    ensures
        pick_source(deps, seqs, cands, u, k, c, acc) matches Some(r) ==> r < seqs.len(),
    decreases cands.len() - c,
{
    if c < cands.len() {
        assert(cands[c] < seqs.len());
        lemma_pick_in_cands(deps, seqs, cands, u, k, c + 1, Some(cands[c]));
        lemma_pick_in_cands(deps, seqs, cands, u, k, c + 1, acc);
    }
}

/// Filtering out the first `c + 1` covered elements is filtering out the
/// first `c` and then the next one.
pub proof fn lemma_filter_filter(s: Seq<usize>, covered: Seq<usize>, c: int, v: usize)
    requires
        0 <= c < covered.len(),
        v == covered[c],
    ensures
        s.filter(|x: usize| !covered.take(c + 1).contains(x)) == s.filter(|x: usize| !covered.take(c).contains(x)).filter(
            |y: usize| y != v,
        ),
    decreases s.len(),
{
    let p1 = |x: usize| !covered.take(c + 1).contains(x);
    let p0 = |x: usize| !covered.take(c).contains(x);
    let q = |y: usize| y != v;
    assert forall|x: usize| #[trigger] p1(x) == (p0(x) && q(x)) by {
        if covered.take(c + 1).contains(x) && !covered.take(c).contains(x) {
            let j = choose|j: int| 0 <= j < c + 1 && #[trigger] covered.take(c + 1)[j] == x;
            if j < c {
                assert(covered.take(c)[j] == x);
            }
        }
        if covered.take(c).contains(x) {
            let j = choose|j: int| 0 <= j < c && #[trigger] covered.take(c)[j] == x;
            assert(covered.take(c + 1)[j] == x);
        }
        if x == covered[c] {
            assert(covered.take(c + 1)[c] == x);
        }
    }
    if s.len() > 0 {
        lemma_filter_filter(s.drop_last(), covered, c, v);
        reveal_with_fuel(Seq::<_>::filter, 1);
        assert(s.drop_last().filter(p1) == s.drop_last().filter(p0).filter(q));
        assert(s =~= s.drop_last().push(s.last()));
        s.drop_last().lemma_filter_push(s.last(), p1);
        s.drop_last().lemma_filter_push(s.last(), p0);
        s.drop_last().filter(p0).lemma_filter_push(s.last(), q);
    } else {
        assert(s.filter(p1) =~= Seq::<usize>::empty());
        assert(s.filter(p0) =~= Seq::<usize>::empty());
        assert(s.filter(p0).filter(q) =~= Seq::<usize>::empty());
    }
}

/// Filtering out nothing leaves the sequence as it is.
pub proof fn lemma_filter_nothing(s: Seq<usize>, covered: Seq<usize>)
    ensures
        s.filter(|x: usize| !covered.take(0).contains(x)) == s,
    decreases s.len(),
{
    let p = |x: usize| !covered.take(0).contains(x);
    if s.len() > 0 {
        lemma_filter_nothing(s.drop_last(), covered);
        assert(s =~= s.drop_last().push(s.last()));
        s.drop_last().lemma_filter_push(s.last(), p);
        assert(p(s.last()));
    } else {
        assert(s.filter(p) =~= s);
    }
}

/// Every element of a filtered sequence of indices below `n` is below `n`.
pub proof fn lemma_filter_below(all: Seq<usize>, p: spec_fn(usize) -> bool, n: int)
    requires
        all == Seq::new(n as nat, |i: int| i as usize),
        0 <= n <= usize::MAX + 1,
    ensures
        forall|m: int| 0 <= m < all.filter(p).len() ==> (#[trigger] all.filter(p)[m]) < n,
{
    assert forall|m: int| 0 <= m < all.filter(p).len() implies (#[trigger] all.filter(p)[m]) < n by {
        let x = all.filter(p)[m];
        assert(all.filter(p).contains(x));
        all.lemma_filter_contains_rev(p, x);
        let i = choose|i: int| 0 <= i < all.len() && all[i] == x;
        assert(all[i] == i as usize);
        assert(0 <= i < n);
        assert(i <= usize::MAX);
        assert((i as usize) as int == i);
    }
}

} // verus!
