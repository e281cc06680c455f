//! Choosing which of the generated sequences become fuzz targets, and
//! what they cover.
use vstd::prelude::*;
use crate::graph::ApiGraph;
use crate::rng::{gen_range, thread_rng};
use crate::sequence::{ApiSequence, SequenceView, contained_functions, merge_all, set_union, lemma_set_union_contains};
use crate::traverse::views;
use crate::util::{contains_index, insert_index, no_dups, seq_insert};

verus! {

/// The sequences that take some input from the fuzzer.
pub open spec fn fuzz_targets(seqs: Seq<SequenceView>) -> Seq<SequenceView> {
    seqs.filter(|s: SequenceView| s.fuzzable_params.len() != 0)
}

/// The distinct functions called by the sequences.
pub open spec fn all_nodes(seqs: Seq<SequenceView>) -> Seq<usize>
    decreases seqs.len(),
{
    if seqs.len() == 0 {
        Seq::empty()
    } else {
        set_union(all_nodes(seqs.drop_last()), contained_functions(seqs.last().functions))
    }
}

/// The distinct dependencies covered by the sequences.
pub open spec fn all_edges(seqs: Seq<SequenceView>) -> Seq<usize>
    decreases seqs.len(),
{
    if seqs.len() == 0 {
        Seq::empty()
    } else {
        set_union(all_edges(seqs.drop_last()), seqs.last().covered_dependencies)
    }
}

/// The total number of calls in the sequences.
pub open spec fn total_length(seqs: Seq<SequenceView>) -> int
    decreases seqs.len(),
{
    if seqs.len() == 0 {
        0
    } else {
        total_length(seqs.drop_last()) + seqs.last().len()
    }
}

/// Merging sequences keeps every call: the merged sequence makes as many
/// calls as all of them together.
pub proof fn lemma_merge_all_length(s: Seq<SequenceView>)
    ensures
        merge_all(s).len() == total_length(s),
    decreases s.len(),
{
    if s.len() == 1 {
        assert(s.drop_last().len() == 0);
        assert(total_length(s.drop_last()) == 0);
        assert(s.last() == s[0]);
    } else if s.len() > 1 {
        lemma_merge_all_length(s.drop_last());
        let a = merge_all(s.drop_last());
        let b = s.last();
        assert(merge_all(s) == crate::sequence::merge_two(a, b));
        assert(crate::sequence::merge_two(a, b).functions.len() == a.functions.len() + b.functions.len());
    }
}

/// Figures on a set of sequences.
pub struct CoverStats {
    /// How many sequences there are.
    pub targets: usize,
    /// How many calls they make in all.
    pub total_length: u128,
    /// How many distinct functions they call.
    pub covered_nodes: usize,
    /// How many distinct dependencies they use.
    pub covered_edges: usize,
}

/// The figures on `seqs`.
pub open spec fn spec_statistics(seqs: Seq<SequenceView>) -> CoverStats {
    CoverStats {
        targets: seqs.len() as usize,
        total_length: total_length(seqs) as u128,
        covered_nodes: all_nodes(seqs).len() as usize,
        covered_edges: all_edges(seqs).len() as usize,
    }
}

/// The figures on the sequences `seqs`.
pub fn statistics(seqs: &Vec<ApiSequence>) -> (r: CoverStats)
    ensures
        r == spec_statistics(views(seqs@)),
        r.covered_nodes == all_nodes(views(seqs@)).len(),
        r.covered_edges == all_edges(views(seqs@)).len(),
        r.total_length == total_length(views(seqs@)),
{
    let mut nodes: Vec<usize> = Vec::new();
    let mut edges: Vec<usize> = Vec::new();
    let mut total: u128 = 0;
    let mut i: usize = 0;
    while i < seqs.len()
        invariant
            i <= seqs@.len(),
            nodes@ == all_nodes(views(seqs@).take(i as int)),
            edges@ == all_edges(views(seqs@).take(i as int)),
            total == total_length(views(seqs@).take(i as int)),
            total <= i * (usize::MAX as int),
        decreases seqs.len() - i,
    {
        proof {
            assert(views(seqs@).take(i + 1).drop_last() =~= views(seqs@).take(i as int));
            assert(views(seqs@).take(i + 1).last() == seqs@[i as int]@);
            assert(i * (usize::MAX as int) + (usize::MAX as int) == (i + 1) * (usize::MAX as int)) by (nonlinear_arith);
            assert((i + 1) * (usize::MAX as int) <= (usize::MAX as int) * (usize::MAX as int)) by (nonlinear_arith)
                requires
                    i < usize::MAX,
            ;
            assert((usize::MAX as int) * (usize::MAX as int) < u128::MAX) by (nonlinear_arith);
        }
        let sequence = &seqs[i];
        let covered = sequence.get_contained_api_functions();
        let mut k: usize = 0;
        while k < covered.len()
            invariant
                k <= covered@.len(),
                nodes@ == set_union(all_nodes(views(seqs@).take(i as int)), covered@.take(k as int)),
            decreases covered.len() - k,
        {
            proof {
                assert(covered@.take(k + 1).drop_last() =~= covered@.take(k as int));
            }
            insert_index(&mut nodes, covered[k]);
            k = k + 1;
        }
        let mut e: usize = 0;
        while e < sequence.covered_dependencies.len()
            invariant
                e <= sequence.covered_dependencies@.len(),
                edges@ == set_union(all_edges(views(seqs@).take(i as int)), sequence.covered_dependencies@.take(e as int)),
            decreases sequence.covered_dependencies.len() - e,
        {
            proof {
                assert(sequence.covered_dependencies@.take(e + 1).drop_last() =~= sequence.covered_dependencies@.take(e as int));
            }
            insert_index(&mut edges, sequence.covered_dependencies[e]);
            e = e + 1;
        }
        proof {
            assert(covered@.take(k as int) =~= covered@);
            assert(sequence.covered_dependencies@.take(e as int) =~= sequence.covered_dependencies@);
        }
        total = total + sequence.len() as u128;
        i = i + 1;
    }
    proof {
        assert(views(seqs@).take(i as int) =~= views(seqs@));
    }
    CoverStats { targets: seqs.len(), total_length: total, covered_nodes: nodes.len(), covered_edges: edges.len() }
}

/// The first of the fuzz targets, at most `max_size` of them but at least
/// one when there is one.
pub open spec fn spec_first_choose(seqs: Seq<SequenceView>, max_size: int) -> Seq<SequenceView> {
    let f = fuzz_targets(seqs);
    let bound = if max_size < 1 { 1 } else { max_size };
    if f.len() <= bound {
        f
    } else {
        f.take(bound)
    }
}

impl ApiGraph {
    /// The sequences that take an input from the fuzzer.
    pub fn fuzz_target_sequences(&self) -> (r: Vec<ApiSequence>)
        ensures
            views(r@) == fuzz_targets(self.sequences_view()),
    {
        let ghost pred = |s: SequenceView| s.fuzzable_params.len() != 0;
        let mut res: Vec<ApiSequence> = Vec::new();
        let mut i: usize = 0;
        while i < self.api_sequences.len()
            invariant
                i <= self.api_sequences@.len(),
                pred == (|s: SequenceView| s.fuzzable_params.len() != 0),
                views(res@) == self.sequences_view().take(i as int).filter(pred),
            decreases self.api_sequences.len() - i,
        {
            let sequence = &self.api_sequences[i];
            proof {
                assert(self.sequences_view().take(i + 1) =~= self.sequences_view().take(i as int).push(sequence@));
                self.sequences_view().take(i as int).lemma_filter_push(sequence@, pred);
            }
            if !sequence.has_no_fuzzables() {
                let copy = sequence.duplicate();
                let ghost prev = res@;
                res.push(copy);
                proof {
                    assert(views(res@) =~= views(prev).push(copy@));
                }
            }
            i = i + 1;
        }
        proof {
            assert(self.sequences_view().take(i as int) =~= self.sequences_view());
        }
        res
    }

    /// The figures on the fuzz targets: how many there are, how many calls
    /// they make, and how many functions and dependencies they cover.
    pub fn fuzz_target_statistics(&self) -> (r: CoverStats)
        ensures
            r == spec_statistics(fuzz_targets(self.sequences_view())),
    {
        let targets = self.fuzz_target_sequences();
        statistics(&targets)
    }

    /// Takes the fuzz targets in order, at most `max_size` of them but at
    /// least one when there is one.
    pub fn _first_choose(&self, max_size: usize) -> (r: Vec<ApiSequence>)
        ensures
            views(r@) == spec_first_choose(self.sequences_view(), max_size as int),
    {
        let ghost f = fuzz_targets(self.sequences_view());
        let ghost bound = if max_size < 1 { 1int } else { max_size as int };
        let targets = self.fuzz_target_sequences();
        let mut res: Vec<ApiSequence> = Vec::new();
        let mut i: usize = 0;
        let mut full = false;
        while i < targets.len() && !full
            invariant
                i <= targets@.len(),
                views(targets@) == f,
                f == fuzz_targets(self.sequences_view()),
                bound == if max_size < 1 { 1int } else { max_size as int },
                views(res@) == f.take(i as int),
                res@.len() == i,
                full == (i >= bound),
                i <= bound,
            decreases targets.len() - i,
        {
            let copy = targets[i].duplicate();
            let ghost prev = res@;
            res.push(copy);
            proof {
                assert(views(res@) =~= views(prev).push(copy@));
                assert(f.take(i + 1) =~= f.take(i as int).push(f[i as int]));
            }
            if res.len() >= max_size {
                full = true;
            }
            i = i + 1;
        }
        proof {
            if f.len() <= bound {
                assert(f.take(i as int) =~= f);
            }
        }
        res
    }

    /// Moves position `chosen_index` of `sequence_indexes` to the selection:
    /// a copy of that sequence is appended to `res`.
    pub fn random_choose_step(&self, sequence_indexes: &mut Vec<usize>, chosen_index: usize, res: &mut Vec<ApiSequence>)
        requires
            chosen_index < old(sequence_indexes)@.len(),
            old(sequence_indexes)@[chosen_index as int] < self.api_sequences@.len(),
        ensures
            final(sequence_indexes)@ == old(sequence_indexes)@.remove(chosen_index as int),
            views(final(res)@) == views(old(res)@).push(
                self.sequences_view()[old(sequence_indexes)@[chosen_index as int] as int],
            ),
    {
        let sequence_index = sequence_indexes[chosen_index];
        let copy = self.api_sequences[sequence_index].duplicate();
        res.push(copy);
        sequence_indexes.remove(chosen_index);
        proof {
            assert(views(res@) =~= views(old(res)@).push(copy@));
        }
    }

    /// Picks at random, without repetition, `max_size` sequences (all of
    /// them when there are fewer).
    pub fn _random_choose(&self, max_size: usize) -> (r: Vec<ApiSequence>)
        ensures
            r@.len() == if max_size < self.api_sequences@.len() { max_size as int } else { self.api_sequences@.len() as int },
            exists|picked: Seq<usize>| {
                &&& picked.len() == r@.len()
                &&& no_dups(picked)
                &&& forall|k: int| 0 <= k < picked.len() ==> {
                    &&& (#[trigger] picked[k]) < self.api_sequences@.len()
                    &&& r@[k]@ == self.sequences_view()[picked[k] as int]
                }
            },
    {
        let total_sequence_size = self.api_sequences.len();
        let mut sequence_indexes: Vec<usize> = Vec::new();
        let mut i: usize = 0;
        while i < total_sequence_size
            invariant
                total_sequence_size == self.api_sequences@.len(),
                i <= total_sequence_size,
                sequence_indexes@ == Seq::new(i as nat, |j: int| j as usize),
            decreases total_sequence_size - i,
        {
            sequence_indexes.push(i);
            proof {
                assert(sequence_indexes@ =~= Seq::new((i + 1) as nat, |j: int| j as usize));
            }
            i = i + 1;
        }
        let mut res: Vec<ApiSequence> = Vec::new();
        let ghost mut picked: Seq<usize> = Seq::empty();
        let mut rng = thread_rng();
        let mut step: usize = 0;
        let mut exhausted = false;
        while step < max_size && !exhausted
            invariant
                total_sequence_size == self.api_sequences@.len(),
                step <= max_size,
                picked.len() == res@.len(),
                res@.len() == step,
                sequence_indexes@.len() + picked.len() == total_sequence_size,
                exhausted ==> sequence_indexes@.len() == 0,
                no_dups(picked),
                no_dups(sequence_indexes@),
                forall|k: int| 0 <= k < sequence_indexes@.len() ==> (#[trigger] sequence_indexes@[k]) < total_sequence_size
                    && !picked.contains(sequence_indexes@[k]),
                forall|k: int| 0 <= k < picked.len() ==> {
                    &&& (#[trigger] picked[k]) < total_sequence_size
                    &&& res@[k]@ == self.sequences_view()[picked[k] as int]
                },
            decreases max_size - step + (if exhausted { 0int } else { 1int }),
        {
            let rest_sequences_number = sequence_indexes.len();
            if rest_sequences_number == 0 {
                exhausted = true;
            } else {
                let chosen_index = gen_range(&mut rng, 0, rest_sequences_number);
                let ghost chosen = sequence_indexes@[chosen_index as int];
                let ghost prev_idx = sequence_indexes@;
                let ghost prev_res = res@;
                self.random_choose_step(&mut sequence_indexes, chosen_index, &mut res);
                proof {
                    assert(res@.len() == views(res@).len());
                    assert(views(res@).len() == views(prev_res).len() + 1);
                    assert forall|k: int| 0 <= k < res@.len() implies views(res@)[k] == (#[trigger] res@[k])@ by {}
                    assert forall|k: int| 0 <= k < prev_res.len() implies views(prev_res)[k] == (#[trigger] prev_res[k])@ by {}
                    picked = picked.push(chosen);
                    assert forall|k: int| 0 <= k < picked.len() implies {
                        &&& (#[trigger] picked[k]) < total_sequence_size
                        &&& res@[k]@ == self.sequences_view()[picked[k] as int]
                    } by {
                        if k < picked.len() - 1 {
                            assert(views(res@)[k] == views(prev_res)[k]);
                        } else {
                            assert(views(res@)[k] == self.sequences_view()[chosen as int]);
                        }
                    }
                    assert forall|k: int| 0 <= k < sequence_indexes@.len() implies (#[trigger] sequence_indexes@[k])
                        < total_sequence_size && !picked.contains(sequence_indexes@[k]) by {
                        let old_k = if k < chosen_index { k } else { k + 1 };
                        assert(sequence_indexes@[k] == prev_idx[old_k]);
                        if picked.contains(sequence_indexes@[k]) {
                            let j = choose|j: int| 0 <= j < picked.len() && picked[j] == sequence_indexes@[k];
                            if j == picked.len() - 1 {
                                assert(prev_idx[old_k] == prev_idx[chosen_index as int]);
                            } else {
                                assert(picked.drop_last().contains(prev_idx[old_k]));
                            }
                        }
                    }
                    assert forall|a: int, b: int| 0 <= a < sequence_indexes@.len() && 0 <= b < sequence_indexes@.len()
                        && a != b implies sequence_indexes@[a] != sequence_indexes@[b] by {
                        let oa = if a < chosen_index { a } else { a + 1 };
                        let ob = if b < chosen_index { b } else { b + 1 };
                        assert(sequence_indexes@[a] == prev_idx[oa]);
                        assert(sequence_indexes@[b] == prev_idx[ob]);
                    }
                    assert forall|a: int, b: int| 0 <= a < picked.len() && 0 <= b < picked.len() && a != b implies picked[a]
                        != picked[b] by {
                        if a == picked.len() - 1 {
                            assert(!picked.drop_last().contains(chosen));
                            assert(picked.drop_last()[b] == picked[b]);
                        } else if b == picked.len() - 1 {
                            assert(!picked.drop_last().contains(chosen));
                            assert(picked.drop_last()[a] == picked[a]);
                        } else {
                            assert(picked.drop_last()[a] == picked[a]);
                            assert(picked.drop_last()[b] == picked[b]);
                        }
                    }
                }
                step = step + 1;
            }
        }
        proof {
            assert(picked.len() == res@.len());
        }
        res
    }
}

/// The positions of the sequences that call function `x`.
pub open spec fn node_candidates(seqs: Seq<SequenceView>, x: usize) -> Seq<usize> {
    Seq::new(seqs.len(), |i: int| i as usize).filter(|i: usize| contained_functions(seqs[i as int].functions).contains(x))
}

/// The visited functions, in increasing order.
pub open spec fn visited_nodes(visited: Seq<bool>) -> Seq<usize> {
    Seq::new(visited.len(), |i: int| i as usize).filter(|i: usize| visited[i as int])
}

/// A sequence that takes an input from the fuzzer and uses the result of
/// every call but the last.
pub open spec fn valid_target(s: SequenceView) -> bool {
    s.fuzzable_params.len() != 0 && !s.contains_dead_code_except_last_one()
}

/// How many elements of `items` are not in `set`.
pub open spec fn count_new(set: Seq<usize>, items: Seq<usize>) -> nat {
    items.filter(|x: usize| !set.contains(x)).len()
}

/// The best sequence found so far in a round of the heuristic choice.
pub struct Best {
    pub index: int,
    pub nodes: int,
    pub edges: int,
    pub len: int,
}

/// A round of the heuristic choice from position `j` on: among the valid
/// sequences not chosen yet whose fuzzer inputs are of dynamic length (in
/// the first phase) or of fixed length (in the second), the one that adds
/// the most new functions, then the most new dependencies, then is the
/// shortest; the first such in order wins ties.
pub open spec fn heur_scan(
    seqs: Seq<SequenceView>,
    nodes: Seq<usize>,
    edges: Seq<usize>,
    chosen: Seq<usize>,
    dynamic_phase: bool,
    j: int,
    best: Best,
) -> Best
    decreases seqs.len() - j,
{
    if j >= seqs.len() || j < 0 {
        best
    } else {
        let s = seqs[j];
        if chosen.contains(j as usize) || !valid_target(s) || (dynamic_phase && s.is_fuzzables_fixed_length()) || (
        !dynamic_phase && !s.is_fuzzables_fixed_length()) {
            heur_scan(seqs, nodes, edges, chosen, dynamic_phase, j + 1, best)
        } else {
            let un = count_new(nodes, contained_functions(s.functions)) as int;
            let ue = count_new(edges, s.covered_dependencies) as int;
            if un < best.nodes || (un == best.nodes && ue < best.edges) {
                heur_scan(seqs, nodes, edges, chosen, dynamic_phase, j + 1, best)
            } else if un > best.nodes || ue > best.edges || s.len() < best.len {
                heur_scan(seqs, nodes, edges, chosen, dynamic_phase, j + 1, Best { index: j, nodes: un, edges: ue, len: s.len() as int })
            } else {
                heur_scan(seqs, nodes, edges, chosen, dynamic_phase, j + 1, best)
            }
        }
    }
}

/// The state of the heuristic choice.
pub struct HeurState {
    pub nodes: Seq<usize>,
    pub edges: Seq<usize>,
    pub chosen: Seq<usize>,
    pub dynamic_phase: bool,
}

/// Up to `remaining` rounds of the heuristic choice; the positions chosen,
/// in order. The first phase ends with a round that adds no function; the
/// choice ends with a round of the second phase that adds nothing, once
/// every valid sequence is chosen, once every dependency is covered (when
/// there are any), or, when `stop_at_visit_all_nodes`, once every function
/// the valid sequences call is covered.
pub open spec fn heur_rounds(
    seqs: Seq<SequenceView>,
    ndeps: int,
    to_cover_nodes: int,
    valid_count: int,
    stop_at_visit_all_nodes: bool,
    st: HeurState,
    remaining: int,
) -> Seq<usize>
    decreases remaining,
{
    if remaining <= 0 {
        st.chosen
    } else {
        let b = heur_scan(seqs, st.nodes, st.edges, st.chosen, st.dynamic_phase, 0, Best { index: 0, nodes: 0, edges: 0, len: 0 });
        if st.dynamic_phase && b.nodes <= 0 {
            heur_rounds(seqs, ndeps, to_cover_nodes, valid_count, stop_at_visit_all_nodes, HeurState { dynamic_phase: false, ..st }, remaining - 1)
        } else if !st.dynamic_phase && b.edges <= 0 && b.nodes <= 0 {
            st.chosen
        } else {
            let s = seqs[b.index];
            let st2 = HeurState {
                nodes: set_union(st.nodes, contained_functions(s.functions)),
                edges: set_union(st.edges, s.covered_dependencies),
                chosen: st.chosen.push(b.index as usize),
                ..st
            };
            if st2.chosen.len() == valid_count || (ndeps != 0 && st2.edges.len() == ndeps) || (stop_at_visit_all_nodes
                && st2.nodes.len() == to_cover_nodes) {
                st2.chosen
            } else {
                heur_rounds(seqs, ndeps, to_cover_nodes, valid_count, stop_at_visit_all_nodes, st2, remaining - 1)
            }
        }
    }
}

/// The heuristic choice of fuzz targets: the sequences chosen, in the
/// order chosen, over at most `max_size + 1` rounds.
pub open spec fn spec_heuristic_choose(seqs: Seq<SequenceView>, ndeps: int, max_size: int, stop_at_visit_all_nodes: bool) -> Seq<SequenceView> {
    let valid = seqs.filter(|s: SequenceView| valid_target(s));
    if valid.len() == 0 {
        Seq::empty()
    } else {
        let chosen = heur_rounds(
            seqs,
            ndeps,
            all_nodes(valid).len() as int,
            valid.len() as int,
            stop_at_visit_all_nodes,
            HeurState { nodes: Seq::empty(), edges: Seq::empty(), chosen: Seq::empty(), dynamic_phase: true },
            max_size + 1,
        );
        chosen.map_values(|i: usize| seqs[i as int])
    }
}

/// `(an, ae)` is at most `(bn, be)` in lexicographic order.
pub open spec fn lex_le(an: int, ae: int, bn: int, be: int) -> bool {
    an < bn || (an == bn && ae <= be)
}

/// Sequence `j` may be taken in a round of the given phase: it is valid,
/// not chosen yet, and its fuzzer inputs are of dynamic length in the first
/// phase and of fixed length in the second.
pub open spec fn eligible(seqs: Seq<SequenceView>, chosen: Seq<usize>, dynamic_phase: bool, j: int) -> bool {
    &&& !chosen.contains(j as usize)
    &&& valid_target(seqs[j])
    &&& dynamic_phase != seqs[j].is_fuzzables_fixed_length()
}

proof fn lemma_heur_scan_best(
    seqs: Seq<SequenceView>,
    nodes: Seq<usize>,
    edges: Seq<usize>,
    chosen: Seq<usize>,
    dynamic_phase: bool,
    j: int,
    best: Best,
)
    requires
        0 <= j,
    ensures
        ({
            let b = heur_scan(seqs, nodes, edges, chosen, dynamic_phase, j, best);
            &&& lex_le(best.nodes, best.edges, b.nodes, b.edges)
            &&& forall|i: int| j <= i < seqs.len() && #[trigger] eligible(seqs, chosen, dynamic_phase, i) ==> lex_le(
                count_new(nodes, contained_functions(seqs[i].functions)) as int,
                count_new(edges, seqs[i].covered_dependencies) as int,
                b.nodes,
                b.edges,
            )
        }),
    decreases seqs.len() - j,
{
    if j < seqs.len() {
        let s = seqs[j];
        if chosen.contains(j as usize) || !valid_target(s) || (dynamic_phase && s.is_fuzzables_fixed_length()) || (
        !dynamic_phase && !s.is_fuzzables_fixed_length()) {
            lemma_heur_scan_best(seqs, nodes, edges, chosen, dynamic_phase, j + 1, best);
        } else {
            let un = count_new(nodes, contained_functions(s.functions)) as int;
            let ue = count_new(edges, s.covered_dependencies) as int;
            if un < best.nodes || (un == best.nodes && ue < best.edges) {
                lemma_heur_scan_best(seqs, nodes, edges, chosen, dynamic_phase, j + 1, best);
            } else if un > best.nodes || ue > best.edges || s.len() < best.len {
                let nb = Best { index: j, nodes: un, edges: ue, len: s.len() as int };
                lemma_heur_scan_best(seqs, nodes, edges, chosen, dynamic_phase, j + 1, nb);
            } else {
                lemma_heur_scan_best(seqs, nodes, edges, chosen, dynamic_phase, j + 1, best);
            }
        }
    }
}

/// Each round of the heuristic choice is greedy: no sequence that may be
/// taken in the round adds more new functions than the one found, nor as
/// many new functions and more new dependencies.
pub proof fn lemma_heuristic_round_is_greedy(
    seqs: Seq<SequenceView>,
    nodes: Seq<usize>,
    edges: Seq<usize>,
    chosen: Seq<usize>,
    dynamic_phase: bool,
)
    ensures
        ({
            let b = heur_scan(seqs, nodes, edges, chosen, dynamic_phase, 0, Best { index: 0, nodes: 0, edges: 0, len: 0 });
            forall|i: int| 0 <= i < seqs.len() && #[trigger] eligible(seqs, chosen, dynamic_phase, i) ==> lex_le(
                count_new(nodes, contained_functions(seqs[i].functions)) as int,
                count_new(edges, seqs[i].covered_dependencies) as int,
                b.nodes,
                b.edges,
            )
        }),
{
    lemma_heur_scan_best(seqs, nodes, edges, chosen, dynamic_phase, 0, Best { index: 0, nodes: 0, edges: 0, len: 0 });
}

/// What the best sequence found so far records: nothing yet, or an
/// eligible sequence with the counts of what it adds and its length.
pub open spec fn best_recorded(
    seqs: Seq<SequenceView>,
    nodes: Seq<usize>,
    edges: Seq<usize>,
    chosen: Seq<usize>,
    dynamic_phase: bool,
    best: Best,
) -> bool {
    ||| best.nodes == 0 && best.edges == 0
    ||| {
        &&& 0 <= best.index < seqs.len()
        &&& eligible(seqs, chosen, dynamic_phase, best.index)
        &&& best.nodes == count_new(nodes, contained_functions(seqs[best.index].functions))
        &&& best.edges == count_new(edges, seqs[best.index].covered_dependencies)
        &&& best.len == seqs[best.index].len()
    }
}

proof fn lemma_heur_scan_shortest(
    seqs: Seq<SequenceView>,
    nodes: Seq<usize>,
    edges: Seq<usize>,
    chosen: Seq<usize>,
    dynamic_phase: bool,
    j: int,
    best: Best,
)
    requires
        0 <= j,
        best_recorded(seqs, nodes, edges, chosen, dynamic_phase, best),
    ensures
        ({
            let b = heur_scan(seqs, nodes, edges, chosen, dynamic_phase, j, best);
            &&& best_recorded(seqs, nodes, edges, chosen, dynamic_phase, b)
            &&& lex_le(best.nodes, best.edges, b.nodes, b.edges)
            &&& (b.nodes == best.nodes && b.edges == best.edges) ==> b.len <= best.len
            &&& forall|i: int|
                j <= i < seqs.len() && #[trigger] eligible(seqs, chosen, dynamic_phase, i) && count_new(
                    nodes,
                    contained_functions(seqs[i].functions),
                ) == b.nodes && count_new(edges, seqs[i].covered_dependencies) == b.edges ==> b.len <= seqs[i].len()
        }),
    decreases seqs.len() - j,
{
    if j < seqs.len() {
        let s = seqs[j];
        if chosen.contains(j as usize) || !valid_target(s) || (dynamic_phase && s.is_fuzzables_fixed_length()) || (
        !dynamic_phase && !s.is_fuzzables_fixed_length()) {
            lemma_heur_scan_shortest(seqs, nodes, edges, chosen, dynamic_phase, j + 1, best);
        } else {
            let un = count_new(nodes, contained_functions(s.functions)) as int;
            let ue = count_new(edges, s.covered_dependencies) as int;
            assert(eligible(seqs, chosen, dynamic_phase, j));
            if un < best.nodes || (un == best.nodes && ue < best.edges) {
                lemma_heur_scan_shortest(seqs, nodes, edges, chosen, dynamic_phase, j + 1, best);
            } else if un > best.nodes || ue > best.edges || s.len() < best.len {
                let nb = Best { index: j, nodes: un, edges: ue, len: s.len() as int };
                lemma_heur_scan_shortest(seqs, nodes, edges, chosen, dynamic_phase, j + 1, nb);
            } else {
                lemma_heur_scan_shortest(seqs, nodes, edges, chosen, dynamic_phase, j + 1, best);
            }
        }
    }
}

/// Ties in a round of the heuristic choice go to the shortest sequence:
/// when the round finds something to add, the sequence it takes may be
/// taken in the round, the counts it reports are what that sequence adds,
/// and no other sequence that may be taken and adds as many new functions
/// and as many new dependencies is shorter.
pub proof fn lemma_heuristic_round_prefers_shorter(
    seqs: Seq<SequenceView>,
    nodes: Seq<usize>,
    edges: Seq<usize>,
    chosen: Seq<usize>,
    dynamic_phase: bool,
)
    ensures
        ({
            let b = heur_scan(seqs, nodes, edges, chosen, dynamic_phase, 0, Best { index: 0, nodes: 0, edges: 0, len: 0 });
            (b.nodes > 0 || b.edges > 0) ==> {
                &&& 0 <= b.index < seqs.len()
                &&& eligible(seqs, chosen, dynamic_phase, b.index)
                &&& b.nodes == count_new(nodes, contained_functions(seqs[b.index].functions))
                &&& b.edges == count_new(edges, seqs[b.index].covered_dependencies)
                &&& forall|i: int|
                    0 <= i < seqs.len() && #[trigger] eligible(seqs, chosen, dynamic_phase, i) && count_new(
                        nodes,
                        contained_functions(seqs[i].functions),
                    ) == b.nodes && count_new(edges, seqs[i].covered_dependencies) == b.edges ==> seqs[b.index].len()
                        <= seqs[i].len()
            }
        }),
{
    lemma_heur_scan_shortest(seqs, nodes, edges, chosen, dynamic_phase, 0, Best { index: 0, nodes: 0, edges: 0, len: 0 });
}

/// Position `i` is a valid fuzz target not chosen yet.
pub open spec fn fit_choice(seqs: Seq<SequenceView>, chosen: Seq<usize>, i: int) -> bool {
    0 <= i < seqs.len() && valid_target(seqs[i]) && !chosen.contains(i as usize)
}

proof fn lemma_heur_scan_fit(
    seqs: Seq<SequenceView>,
    nodes: Seq<usize>,
    edges: Seq<usize>,
    chosen: Seq<usize>,
    dynamic_phase: bool,
    j: int,
    best: Best,
)
    requires
        (best.nodes > 0 || best.edges > 0) ==> fit_choice(seqs, chosen, best.index),
        seqs.len() <= usize::MAX,
    ensures
        ({
            let b = heur_scan(seqs, nodes, edges, chosen, dynamic_phase, j, best);
            (b.nodes > 0 || b.edges > 0) ==> fit_choice(seqs, chosen, b.index)
        }),
    decreases seqs.len() - j,
{
    if 0 <= j < seqs.len() {
        let s = seqs[j];
        if chosen.contains(j as usize) || !valid_target(s) || (dynamic_phase && s.is_fuzzables_fixed_length()) || (
        !dynamic_phase && !s.is_fuzzables_fixed_length()) {
            lemma_heur_scan_fit(seqs, nodes, edges, chosen, dynamic_phase, j + 1, best);
        } else {
            let un = count_new(nodes, contained_functions(s.functions)) as int;
            let ue = count_new(edges, s.covered_dependencies) as int;
            if un < best.nodes || (un == best.nodes && ue < best.edges) {
                lemma_heur_scan_fit(seqs, nodes, edges, chosen, dynamic_phase, j + 1, best);
            } else if un > best.nodes || ue > best.edges || s.len() < best.len {
                let nb = Best { index: j, nodes: un, edges: ue, len: s.len() as int };
                assert(fit_choice(seqs, chosen, j));
                lemma_heur_scan_fit(seqs, nodes, edges, chosen, dynamic_phase, j + 1, nb);
            } else {
                lemma_heur_scan_fit(seqs, nodes, edges, chosen, dynamic_phase, j + 1, best);
            }
        }
    }
}

proof fn lemma_heur_rounds_fit(
    seqs: Seq<SequenceView>,
    ndeps: int,
    to_cover_nodes: int,
    valid_count: int,
    stop_at_visit_all_nodes: bool,
    st: HeurState,
    remaining: int,
)
    requires
        seqs.len() <= usize::MAX,
        no_dups(st.chosen),
        forall|k: int| 0 <= k < st.chosen.len() ==> (#[trigger] st.chosen[k]) < seqs.len() && valid_target(
            seqs[st.chosen[k] as int],
        ),
    ensures
        ({
            let c = heur_rounds(seqs, ndeps, to_cover_nodes, valid_count, stop_at_visit_all_nodes, st, remaining);
            &&& no_dups(c)
            &&& forall|k: int| 0 <= k < c.len() ==> (#[trigger] c[k]) < seqs.len() && valid_target(seqs[c[k] as int])
        }),
    decreases remaining,
{
    if remaining > 0 {
        let b0 = Best { index: 0, nodes: 0, edges: 0, len: 0 };
        lemma_heur_scan_fit(seqs, st.nodes, st.edges, st.chosen, st.dynamic_phase, 0, b0);
        let b = heur_scan(seqs, st.nodes, st.edges, st.chosen, st.dynamic_phase, 0, b0);
        if st.dynamic_phase && b.nodes <= 0 {
            lemma_heur_rounds_fit(
                seqs,
                ndeps,
                to_cover_nodes,
                valid_count,
                stop_at_visit_all_nodes,
                HeurState { dynamic_phase: false, ..st },
                remaining - 1,
            );
        } else if !st.dynamic_phase && b.edges <= 0 && b.nodes <= 0 {
        } else {
            let s = seqs[b.index];
            let st2 = HeurState {
                nodes: set_union(st.nodes, contained_functions(s.functions)),
                edges: set_union(st.edges, s.covered_dependencies),
                chosen: st.chosen.push(b.index as usize),
                ..st
            };
            assert(fit_choice(seqs, st.chosen, b.index));
            assert forall|k: int| 0 <= k < st2.chosen.len() implies (#[trigger] st2.chosen[k]) < seqs.len()
                && valid_target(seqs[st2.chosen[k] as int]) by {
                if k < st.chosen.len() {
                    assert(st2.chosen[k] == st.chosen[k]);
                }
            }
            assert forall|i: int, j: int| 0 <= i < st2.chosen.len() && 0 <= j < st2.chosen.len() && i != j implies st2.chosen[i]
                != st2.chosen[j] by {
                if i < st.chosen.len() && j < st.chosen.len() {
                } else if i < st.chosen.len() {
                    assert(st.chosen.contains(st.chosen[i]));
                } else if j < st.chosen.len() {
                    assert(st.chosen.contains(st.chosen[j]));
                }
            }
            if !(st2.chosen.len() == valid_count || (ndeps != 0 && st2.edges.len() == ndeps) || (stop_at_visit_all_nodes
                && st2.nodes.len() == to_cover_nodes)) {
                lemma_heur_rounds_fit(
                    seqs,
                    ndeps,
                    to_cover_nodes,
                    valid_count,
                    stop_at_visit_all_nodes,
                    st2,
                    remaining - 1,
                );
            }
        }
    }
}

/// Every sequence the heuristic choice takes is a valid fuzz target (it
/// takes an input from the fuzzer and uses the result of every call but
/// the last), and no position is taken twice.
pub proof fn lemma_heuristic_choice_valid(seqs: Seq<SequenceView>, ndeps: int, max_size: int, stop_at_visit_all_nodes: bool)
    requires
        seqs.len() <= usize::MAX,
    ensures
        exists|chosen: Seq<usize>|
            #![trigger no_dups(chosen)]
            {
            &&& no_dups(chosen)
            &&& spec_heuristic_choose(seqs, ndeps, max_size, stop_at_visit_all_nodes) == chosen.map_values(
                |i: usize| seqs[i as int],
            )
            &&& forall|k: int| 0 <= k < chosen.len() ==> (#[trigger] chosen[k]) < seqs.len() && valid_target(
                seqs[chosen[k] as int],
            )
        },
{
    let valid = seqs.filter(|s: SequenceView| valid_target(s));
    if valid.len() == 0 {
        let e = Seq::<usize>::empty();
        assert(spec_heuristic_choose(seqs, ndeps, max_size, stop_at_visit_all_nodes) =~= e.map_values(
            |i: usize| seqs[i as int],
        ));
        assert(no_dups(e));
    } else {
        let st0 = HeurState { nodes: Seq::empty(), edges: Seq::empty(), chosen: Seq::empty(), dynamic_phase: true };
        lemma_heur_rounds_fit(
            seqs,
            ndeps,
            all_nodes(valid).len() as int,
            valid.len() as int,
            stop_at_visit_all_nodes,
            st0,
            max_size + 1,
        );
        let chosen = heur_rounds(
            seqs,
            ndeps,
            all_nodes(valid).len() as int,
            valid.len() as int,
            stop_at_visit_all_nodes,
            st0,
            max_size + 1,
        );
        assert(spec_heuristic_choose(seqs, ndeps, max_size, stop_at_visit_all_nodes) == chosen.map_values(
            |i: usize| seqs[i as int],
        ));
        assert(no_dups(chosen));
    }
}

/// The number of elements of `items` not in `set`.
fn count_new_exec(set: &Vec<usize>, items: &Vec<usize>) -> (r: usize)
    ensures
        r == count_new(set@, items@),
{
    let ghost pred = |x: usize| !set@.contains(x);
    let mut r: usize = 0;
    let mut k: usize = 0;
    while k < items.len()
        invariant
            k <= items@.len(),
            pred == (|x: usize| !set@.contains(x)),
            r == items@.take(k as int).filter(pred).len(),
            r <= k,
        decreases items.len() - k,
    {
        proof {
            assert(items@.take(k + 1) =~= items@.take(k as int).push(items@[k as int]));
            items@.take(k as int).lemma_filter_push(items@[k as int], pred);
        }
        if !contains_index(set, items[k]) {
            r = r + 1;
        }
        k = k + 1;
    }
    proof {
        assert(items@.take(k as int) =~= items@);
    }
    r
}

/// Adds each of `items` to `set`.
fn union_into(set: &mut Vec<usize>, items: &Vec<usize>)
    ensures
        final(set)@ == set_union(old(set)@, items@),
{
    let mut k: usize = 0;
    while k < items.len()
        invariant
            k <= items@.len(),
            set@ == set_union(old(set)@, items@.take(k as int)),
        decreases items.len() - k,
    {
        proof {
            assert(items@.take(k + 1).drop_last() =~= items@.take(k as int));
        }
        insert_index(set, items[k]);
        k = k + 1;
    }
    proof {
        assert(items@.take(k as int) =~= items@);
    }
}

/// Sequence `k` of `picks` calls a visited function (among the first
/// `nfun`) that no earlier one of `picks` calls.
pub open spec fn covers_new(nfun: int, visited: Seq<bool>, picks: Seq<ApiSequence>, k: int) -> bool {
    exists|x: usize| #[trigger] newly_covered(nfun, visited, picks, k, x)
}

/// `x` is visited, sequence `k` of `picks` calls it, and no earlier one does.
pub open spec fn newly_covered(nfun: int, visited: Seq<bool>, picks: Seq<ApiSequence>, k: int, x: usize) -> bool {
    &&& x < nfun
    &&& visited[x as int]
    &&& contained_functions(picks[k]@.functions).contains(x)
    &&& forall|j: int| 0 <= j < k ==> !contained_functions((#[trigger] picks[j])@.functions).contains(x)
}

/// Function `x` (among the first `nfun`) is visited and no sequence of
/// `picks` calls it.
pub open spec fn uncovered_visited(nfun: int, visited: Seq<bool>, picks: Seq<ApiSequence>, x: usize) -> bool {
    &&& x < nfun
    &&& visited[x as int]
    &&& forall|k: int| 0 <= k < picks.len() ==> !contained_functions((#[trigger] picks[k])@.functions).contains(x)
}

/// `x` is the lowest visited function that no sequence of `picks` calls.
pub open spec fn first_uncovered(nfun: int, visited: Seq<bool>, picks: Seq<ApiSequence>, x: usize) -> bool {
    &&& uncovered_visited(nfun, visited, picks, x)
    &&& forall|y: usize| y < x ==> !#[trigger] uncovered_visited(nfun, visited, picks, y)
}

/// Pick `k` calls the lowest visited function that no earlier pick calls.
pub open spec fn picks_first(nfun: int, visited: Seq<bool>, picks: Seq<ApiSequence>, k: int) -> bool {
    exists|x: usize|
        #[trigger] first_uncovered(nfun, visited, picks.take(k), x) && contained_functions(picks[k]@.functions).contains(x)
}

/// Every sequence of `seqs` that calls `x` is at a position in `drawn`.
pub open spec fn callers_drawn(seqs: Seq<SequenceView>, x: usize, drawn: Seq<usize>) -> bool {
    forall|i: int| 0 <= i < seqs.len() && contained_functions((#[trigger] seqs[i]).functions).contains(x) ==> drawn.contains(
        i as usize,
    )
}

/// `s` is in increasing order.
pub open spec fn increasing(s: Seq<usize>) -> bool {
    forall|a: int, b: int| 0 <= a < b < s.len() ==> #[trigger] s[a] < #[trigger] s[b]
}

proof fn lemma_filter_increasing(s: Seq<usize>, p: spec_fn(usize) -> bool)
    requires
        increasing(s),
    ensures
        increasing(s.filter(p)),
    decreases s.len(),
{
    if s.len() > 0 {
        let t = s.drop_last();
        assert(increasing(t)) by {
            assert forall|a: int, b: int| 0 <= a < b < t.len() implies #[trigger] t[a] < #[trigger] t[b] by {
                assert(t[a] == s[a] && t[b] == s[b]);
            }
        }
        lemma_filter_increasing(t, p);
        assert(s =~= t.push(s.last()));
        t.lemma_filter_push(s.last(), p);
        let f = t.filter(p);
        assert forall|a: int| 0 <= a < f.len() implies #[trigger] f[a] < s.last() by {
            assert(f.contains(f[a]));
            t.lemma_filter_contains_rev(p, f[a]);
            let w = choose|w: int| 0 <= w < t.len() && t[w] == f[a];
            assert(s[w] < s[s.len() - 1]);
        }
        if p(s.last()) {
            let g = f.push(s.last());
            assert forall|a: int, b: int| 0 <= a < b < g.len() implies #[trigger] g[a] < #[trigger] g[b] by {
                if b < f.len() {
                    assert(g[a] == f[a] && g[b] == f[b]);
                } else {
                    assert(g[a] == f[a]);
                }
            }
        }
    } else {
        assert(s.filter(p) =~= Seq::<usize>::empty());
    }
}

impl ApiGraph {
    /// The positions of the sequences that call function `x` and are not
    /// flagged.
    pub fn naive_candidates(&self, x: usize, flags: &Vec<bool>) -> (r: Vec<usize>)
        requires
            flags@.len() == self.api_sequences@.len(),
        ensures
            r@ == node_candidates(self.sequences_view(), x).filter(|i: usize| !flags@[i as int]),
            r@.len() <= self.api_sequences@.len(),
            forall|k: int| 0 <= k < r@.len() ==> (#[trigger] r@[k]) < self.api_sequences@.len(),
    {
        let ghost all = Seq::new(self.sequences_view().len(), |i: int| i as usize);
        let ghost p1 = |i: usize| contained_functions(self.sequences_view()[i as int].functions).contains(x);
        let ghost p2 = |i: usize| !flags@[i as int];
        let ghost both = |i: usize| p1(i) && p2(i);
        let mut r: Vec<usize> = Vec::new();
        let mut i: usize = 0;
        while i < self.api_sequences.len()
            invariant
                i <= self.api_sequences@.len(),
                flags@.len() == self.api_sequences@.len(),
                all == Seq::new(self.sequences_view().len(), |i: int| i as usize),
                p1 == (|i: usize| contained_functions(self.sequences_view()[i as int].functions).contains(x)),
                p2 == (|i: usize| !flags@[i as int]),
                both == (|i: usize| p1(i) && p2(i)),
                r@ == all.take(i as int).filter(both),
                r@.len() <= i,
                forall|k: int| 0 <= k < r@.len() ==> (#[trigger] r@[k]) < i,
            decreases self.api_sequences.len() - i,
        {
            proof {
                assert(all.take(i + 1) =~= all.take(i as int).push(i));
                all.take(i as int).lemma_filter_push(i, both);
            }
            let contained = self.api_sequences[i].get_contained_api_functions();
            proof {
                assert(self.sequences_view()[i as int] == self.api_sequences@[i as int]@);
            }
            if contains_index(&contained, x) && !flags[i] {
                r.push(i);
            }
            i = i + 1;
        }
        proof {
            assert(all.take(i as int) =~= all);
            lemma_filter_and(all, p1, p2);
        }
        r
    }

    /// Takes sequence `chosen_index` into the selection: the functions it
    /// calls are no longer to be covered, and position `random_index` of
    /// the flags is set.
    pub fn naive_take(
        &self,
        to_cover_nodes: &mut Vec<usize>,
        chosen_sequence_flag: &mut Vec<bool>,
        chosen_index: usize,
        random_index: usize,
        res: &mut Vec<ApiSequence>,
    )
        requires
            chosen_index < self.api_sequences@.len(),
            random_index < old(chosen_sequence_flag)@.len(),
        ensures
            final(to_cover_nodes)@ == old(to_cover_nodes)@.filter(
                |x: usize| !contained_functions(self.sequences_view()[chosen_index as int].functions).contains(x),
            ),
            final(chosen_sequence_flag)@ == old(chosen_sequence_flag)@.update(random_index as int, true),
            views(final(res)@) == views(old(res)@).push(self.sequences_view()[chosen_index as int]),
            final(res)@.len() == old(res)@.len() + 1,
            final(res)@.drop_last() == old(res)@,
    {
        let chosen_sequence = &self.api_sequences[chosen_index];
        let covered_nodes = chosen_sequence.get_contained_api_functions();
        let ghost pred = |x: usize| !covered_nodes@.contains(x);
        let mut kept: Vec<usize> = Vec::new();
        let mut k: usize = 0;
        while k < to_cover_nodes.len()
            invariant
                k <= to_cover_nodes@.len(),
                *to_cover_nodes == *old(to_cover_nodes),
                pred == (|x: usize| !covered_nodes@.contains(x)),
                kept@ == to_cover_nodes@.take(k as int).filter(pred),
            decreases to_cover_nodes.len() - k,
        {
            proof {
                assert(to_cover_nodes@.take(k + 1) =~= to_cover_nodes@.take(k as int).push(to_cover_nodes@[k as int]));
                to_cover_nodes@.take(k as int).lemma_filter_push(to_cover_nodes@[k as int], pred);
            }
            if !contains_index(&covered_nodes, to_cover_nodes[k]) {
                kept.push(to_cover_nodes[k]);
            }
            k = k + 1;
        }
        proof {
            assert(to_cover_nodes@.take(k as int) =~= to_cover_nodes@);
            assert(self.sequences_view()[chosen_index as int] == chosen_sequence@);
        }
        *to_cover_nodes = kept;
        chosen_sequence_flag.set(random_index, true);
        let copy = chosen_sequence.duplicate();
        res.push(copy);
        proof {
            assert(views(res@) =~= views(old(res)@).push(copy@));
        }
    }

    /// The naive choice: while functions visited by the search remain
    /// uncovered (and at most `max_sequence_size` times), takes at random a
    /// not yet flagged sequence that calls the first of them and flags the
    /// position it was drawn at in the list of candidates. It stops early
    /// when no such sequence is left.
    pub fn _naive_choose_sequence(&self, max_sequence_size: usize) -> (r: Vec<ApiSequence>)
        requires
            self.api_functions@.len() <= self.api_functions_visited@.len(),
        ensures
            r@.len() <= max_sequence_size,
            exists|picked: Seq<usize>| #![trigger picked.len()] {
                &&& picked.len() == r@.len()
                &&& forall|k: int| 0 <= k < picked.len() ==> {
                    &&& (#[trigger] picked[k]) < self.api_sequences@.len()
                    &&& r@[k]@ == self.sequences_view()[picked[k] as int]
                }
            },
            forall|k: int| 0 <= k < r@.len() ==> covers_new(self.api_functions@.len() as int, self.api_functions_visited@, r@, k),
            forall|k: int| 0 <= k < r@.len() ==> picks_first(self.api_functions@.len() as int, self.api_functions_visited@, r@, k),
            r@.len() < max_sequence_size ==> (forall|x: usize| !#[trigger] uncovered_visited(
                self.api_functions@.len() as int,
                self.api_functions_visited@,
                r@,
                x,
            )) || (exists|x: usize, drawn: Seq<usize>|
                #![trigger first_uncovered(self.api_functions@.len() as int, self.api_functions_visited@, r@, x), callers_drawn(self.sequences_view(), x, drawn)]
                {
                &&& first_uncovered(self.api_functions@.len() as int, self.api_functions_visited@, r@, x)
                &&& drawn.len() == r@.len()
                &&& forall|k: int| 0 <= k < drawn.len() ==> (#[trigger] drawn[k]) < self.api_sequences@.len()
                &&& callers_drawn(self.sequences_view(), x, drawn)
            }),
    {
        let function_len = self.api_functions.len();
        let ghost nfun = function_len as int;
        let ghost vis = self.api_functions_visited@;
        let ghost empty_picks = Seq::<ApiSequence>::empty();
        let mut to_cover_nodes: Vec<usize> = Vec::new();
        let mut i: usize = 0;
        while i < function_len
            invariant
                function_len == self.api_functions@.len(),
                nfun == function_len,
                vis == self.api_functions_visited@,
                empty_picks == Seq::<ApiSequence>::empty(),
                function_len <= vis.len(),
                i <= function_len,
                forall|q: int| 0 <= q < to_cover_nodes@.len() ==> (#[trigger] to_cover_nodes@[q]) < i
                    && uncovered_visited(nfun, vis, empty_picks, to_cover_nodes@[q]),
                increasing(to_cover_nodes@),
                forall|x: usize| x < i && #[trigger] uncovered_visited(nfun, vis, empty_picks, x) ==> to_cover_nodes@.contains(x),
            decreases function_len - i,
        {
            let ghost before = to_cover_nodes@;
            if self.api_functions_visited[i] {
                to_cover_nodes.push(i);
                proof {
                    assert(to_cover_nodes@[before.len() as int] == i);
                    assert(uncovered_visited(nfun, vis, empty_picks, i));
                    assert forall|q: int| 0 <= q < to_cover_nodes@.len() implies (#[trigger] to_cover_nodes@[q]) < i + 1
                        && uncovered_visited(nfun, vis, empty_picks, to_cover_nodes@[q]) by {
                        if q < before.len() {
                            assert(to_cover_nodes@[q] == before[q]);
                        }
                    }
                    assert forall|x: usize| x < i + 1 && uncovered_visited(nfun, vis, empty_picks, x) implies to_cover_nodes@.contains(x) by {
                        if x < i {
                            assert(before.contains(x));
                            let w = choose|w: int| 0 <= w < before.len() && before[w] == x;
                            assert(to_cover_nodes@[w] == x);
                        }
                    }
                }
            } else {
                proof {
                    assert forall|x: usize| x < i + 1 && uncovered_visited(nfun, vis, empty_picks, x) implies to_cover_nodes@.contains(x) by {
                        if x == i {
                            assert(!vis[i as int]);
                        }
                    }
                }
            }
            i = i + 1;
        }
        let prepared_sequence_number = self.api_sequences.len();
        let mut chosen_sequence_flag: Vec<bool> = Vec::new();
        let mut j: usize = 0;
        while j < prepared_sequence_number
            invariant
                prepared_sequence_number == self.api_sequences@.len(),
                j <= prepared_sequence_number,
                chosen_sequence_flag@.len() == j,
                forall|q: int| 0 <= q < j ==> !chosen_sequence_flag@[q],
            decreases prepared_sequence_number - j,
        {
            chosen_sequence_flag.push(false);
            j = j + 1;
        }
        let mut res: Vec<ApiSequence> = Vec::new();
        let ghost mut picked: Seq<usize> = Seq::empty();
        let ghost mut drawn: Seq<usize> = Seq::empty();
        let ghost seqs = self.sequences_view();
        proof {
            assert(res@ =~= empty_picks);
        }
        let mut rng = thread_rng();
        let mut step: usize = 0;
        let mut done = false;
        while step < max_sequence_size && !done
            invariant
                prepared_sequence_number == self.api_sequences@.len(),
                seqs == self.sequences_view(),
                seqs.len() == prepared_sequence_number,
                chosen_sequence_flag@.len() == prepared_sequence_number,
                step <= max_sequence_size,
                res@.len() == step,
                picked.len() == res@.len(),
                forall|k: int| 0 <= k < picked.len() ==> {
                    &&& (#[trigger] picked[k]) < self.api_sequences@.len()
                    &&& res@[k]@ == self.sequences_view()[picked[k] as int]
                },
                nfun == self.api_functions@.len(),
                vis == self.api_functions_visited@,
                forall|k: int| 0 <= k < res@.len() ==> covers_new(nfun, vis, res@, k),
                forall|k: int| 0 <= k < res@.len() ==> picks_first(nfun, vis, res@, k),
                forall|q: int| 0 <= q < to_cover_nodes@.len() ==> uncovered_visited(
                    nfun,
                    vis,
                    res@,
                    #[trigger] to_cover_nodes@[q],
                ),
                increasing(to_cover_nodes@),
                forall|x: usize| #[trigger] uncovered_visited(nfun, vis, res@, x) ==> to_cover_nodes@.contains(x),
                drawn.len() == res@.len(),
                forall|k: int| 0 <= k < drawn.len() ==> (#[trigger] drawn[k]) < prepared_sequence_number,
                forall|q: int| 0 <= q < prepared_sequence_number ==> (#[trigger] chosen_sequence_flag@[q]) == drawn.contains(
                    q as usize,
                ),
                done ==> to_cover_nodes@.len() == 0 || callers_drawn(seqs, to_cover_nodes@[0], drawn),
            decreases max_sequence_size - step + (if done { 0int } else { 1int }),
        {
            if to_cover_nodes.len() == 0 {
                done = true;
            } else {
                let next_cover_node = to_cover_nodes[0];
                let unvisited_candidate_sequences = self.naive_candidates(next_cover_node, &chosen_sequence_flag);
                let candidate_number = unvisited_candidate_sequences.len();
                if candidate_number == 0 {
                    done = true;
                    proof {
                        let all = Seq::new(seqs.len(), |i: int| i as usize);
                        let p1 = |i: usize| contained_functions(seqs[i as int].functions).contains(next_cover_node);
                        let p2 = |i: usize| !chosen_sequence_flag@[i as int];
                        let cands = node_candidates(seqs, next_cover_node);
                        assert(cands == all.filter(p1));
                        assert forall|i: int| 0 <= i < seqs.len() && contained_functions((#[trigger] seqs[i]).functions).contains(
                            next_cover_node,
                        ) implies drawn.contains(i as usize) by {
                            assert(all[i] == i as usize);
                            all.lemma_filter_contains(p1, i);
                            if !chosen_sequence_flag@[i] {
                                let w = choose|w: int| 0 <= w < cands.len() && cands[w] == i as usize;
                                cands.lemma_filter_contains(p2, w);
                                assert(unvisited_candidate_sequences@.contains(i as usize));
                            }
                        }
                    }
                } else {
                    let random_index = gen_range(&mut rng, 0, candidate_number);
                    let chosen_index = unvisited_candidate_sequences[random_index];
                    let ghost prev = res@;
                    let ghost prev_cover = to_cover_nodes@;
                    let ghost prev_flag = chosen_sequence_flag@;
                    proof {
                        let all = Seq::new(self.sequences_view().len(), |i: int| i as usize);
                        let p1 = |i: usize| contained_functions(self.sequences_view()[i as int].functions).contains(next_cover_node);
                        let p2 = |i: usize| !chosen_sequence_flag@[i as int];
                        let cands = node_candidates(self.sequences_view(), next_cover_node);
                        assert(cands == all.filter(p1));
                        assert(unvisited_candidate_sequences@.contains(chosen_index));
                        cands.lemma_filter_contains_rev(p2, chosen_index);
                        let w = choose|w: int| 0 <= w < cands.len() && cands[w] == chosen_index;
                        #[allow(deprecated)]
                        all.filter_lemma(p1);
                        assert(p1(cands[w]));
                        assert(contained_functions(self.sequences_view()[chosen_index as int].functions).contains(next_cover_node));
                    }
                    proof {
                        let x = next_cover_node;
                        assert(uncovered_visited(nfun, vis, prev, x));
                        assert forall|y: usize| y < x implies !#[trigger] uncovered_visited(nfun, vis, prev, y) by {
                            if uncovered_visited(nfun, vis, prev, y) {
                                assert(prev_cover.contains(y));
                                let m = choose|m: int| 0 <= m < prev_cover.len() && prev_cover[m] == y;
                                if m > 0 {
                                    assert(prev_cover[0] < prev_cover[m]);
                                }
                            }
                        }
                        assert(first_uncovered(nfun, vis, prev, x));
                    }
                    self.naive_take(&mut to_cover_nodes, &mut chosen_sequence_flag, chosen_index, random_index, &mut res);
                    proof {
                        let nres = res@;
                        assert forall|k: int| 0 <= k < nres.len() implies picks_first(nfun, vis, nres, k) by {
                            if k < prev.len() {
                                assert(picks_first(nfun, vis, prev, k));
                                assert(nres.take(k) =~= prev.take(k));
                                assert(nres[k] == prev[k]);
                                let x = choose|x: usize| #[trigger] first_uncovered(nfun, vis, prev.take(k), x)
                                    && contained_functions(prev[k]@.functions).contains(x);
                                assert(first_uncovered(nfun, vis, nres.take(k), x));
                            } else {
                                assert(nres.take(k) =~= prev);
                                assert(views(nres)[k] == nres[k]@);
                                assert(first_uncovered(nfun, vis, nres.take(k), next_cover_node));
                            }
                        }
                        assert(views(nres).len() == nres.len());
                        assert(nres.len() == prev.len() + 1);
                        assert forall|k: int| 0 <= k < prev.len() implies #[trigger] nres[k]@ == prev[k]@ by {
                            assert(views(nres)[k] == nres[k]@);
                            assert(views(prev)[k] == prev[k]@);
                        }
                        assert(views(nres)[prev.len() as int] == nres[prev.len() as int]@);
                        let chosen_calls = contained_functions(self.sequences_view()[chosen_index as int].functions);
                        assert(nres[prev.len() as int]@ == self.sequences_view()[chosen_index as int]);
                        assert forall|k: int| 0 <= k < nres.len() implies covers_new(nfun, vis, nres, k) by {
                            if k < prev.len() {
                                assert(covers_new(nfun, vis, prev, k));
                                let x = choose|x: usize| newly_covered(nfun, vis, prev, k, x);
                                assert forall|j: int| 0 <= j < k implies !contained_functions((#[trigger] nres[j])@.functions).contains(x) by {
                                    assert(nres[j]@ == prev[j]@);
                                    assert(!contained_functions(prev[j]@.functions).contains(x));
                                }
                                assert(nres[k]@ == prev[k]@);
                                assert(newly_covered(nfun, vis, nres, k, x));
                            } else {
                                let x = next_cover_node;
                                assert(uncovered_visited(nfun, vis, prev, prev_cover[0]));
                                assert forall|j: int| 0 <= j < k implies !contained_functions((#[trigger] nres[j])@.functions).contains(x) by {
                                    assert(nres[j]@ == prev[j]@);
                                    assert(!contained_functions(prev[j]@.functions).contains(x));
                                }
                                assert(newly_covered(nfun, vis, nres, k, x));
                            }
                        }
                        let cpred = |y: usize| !contained_functions(self.sequences_view()[chosen_index as int].functions).contains(y);
                        assert(to_cover_nodes@ == prev_cover.filter(cpred));
                        lemma_filter_increasing(prev_cover, cpred);
                        assert forall|q: int| 0 <= q < to_cover_nodes@.len() implies uncovered_visited(
                            nfun,
                            vis,
                            nres,
                            #[trigger] to_cover_nodes@[q],
                        ) by {
                            let y = to_cover_nodes@[q];
                            assert(to_cover_nodes@.contains(y));
                            prev_cover.lemma_filter_contains_rev(cpred, y);
                            #[allow(deprecated)]
                            prev_cover.filter_lemma(cpred);
                            assert(cpred(y));
                            let qq = choose|qq: int| 0 <= qq < prev_cover.len() && prev_cover[qq] == y;
                            assert(uncovered_visited(nfun, vis, prev, prev_cover[qq]));
                            assert forall|j: int| 0 <= j < nres.len() implies !contained_functions((#[trigger] nres[j])@.functions).contains(y) by {
                                if j < prev.len() {
                                    assert(nres[j]@ == prev[j]@);
                                    assert(!contained_functions((prev[j])@.functions).contains(prev_cover[qq]));
                                }
                            }
                        }
                        assert forall|x: usize| uncovered_visited(nfun, vis, nres, x) implies to_cover_nodes@.contains(x) by {
                            assert forall|j: int| 0 <= j < prev.len() implies !contained_functions((#[trigger] prev[j])@.functions).contains(x) by {
                                assert(nres[j]@ == prev[j]@);
                                assert(!contained_functions(nres[j]@.functions).contains(x));
                            }
                            assert(uncovered_visited(nfun, vis, prev, x));
                            assert(!contained_functions(nres[prev.len() as int]@.functions).contains(x));
                            assert(prev_cover.contains(x));
                            let w = choose|w: int| 0 <= w < prev_cover.len() && prev_cover[w] == x;
                            prev_cover.lemma_filter_contains(cpred, w);
                        }
                        let nd = drawn.push(random_index);
                        assert forall|q: int| 0 <= q < prepared_sequence_number implies (#[trigger] chosen_sequence_flag@[q]) == nd.contains(
                            q as usize,
                        ) by {
                            if q == random_index as int {
                                assert(nd[drawn.len() as int] == random_index);
                            } else {
                                assert(prev_flag[q] == drawn.contains(q as usize));
                                if drawn.contains(q as usize) {
                                    let w = choose|w: int| 0 <= w < drawn.len() && drawn[w] == q as usize;
                                    assert(nd[w] == q as usize);
                                }
                                if nd.contains(q as usize) {
                                    let w = choose|w: int| 0 <= w < nd.len() && nd[w] == q as usize;
                                    if w < drawn.len() {
                                        assert(drawn[w] == q as usize);
                                    }
                                }
                            }
                        }
                        drawn = nd;
                    }
                    proof {
                        assert(views(res@).len() == res@.len());
                        assert(views(res@).len() == views(prev).len() + 1);
                        picked = picked.push(chosen_index);
                        assert forall|k: int| 0 <= k < picked.len() implies {
                            &&& (#[trigger] picked[k]) < self.api_sequences@.len()
                            &&& res@[k]@ == self.sequences_view()[picked[k] as int]
                        } by {
                            assert(views(res@)[k] == res@[k]@);
                            if k < prev.len() {
                                assert(views(prev)[k] == prev[k]@);
                                assert(res@[k]@ == prev[k]@);
                            }
                        }
                    }
                    step = step + 1;
                }
            }
        }
        proof {
            if res@.len() < max_sequence_size && to_cover_nodes@.len() > 0 {
                let x = to_cover_nodes@[0];
                assert(uncovered_visited(nfun, vis, res@, x));
                assert forall|y: usize| y < x implies !#[trigger] uncovered_visited(nfun, vis, res@, y) by {
                    if uncovered_visited(nfun, vis, res@, y) {
                        assert(to_cover_nodes@.contains(y));
                        let m = choose|m: int| 0 <= m < to_cover_nodes@.len() && to_cover_nodes@[m] == y;
                        if m > 0 {
                            assert(to_cover_nodes@[0] < to_cover_nodes@[m]);
                        }
                    }
                }
                assert(first_uncovered(nfun, vis, res@, x));
                assert(callers_drawn(seqs, x, drawn));
            }
        }
        res
    }

    /// The heuristic choice of fuzz targets among the sequences that take
    /// an input from the fuzzer and use the result of every call but the
    /// last: sequences adding the most functions, then dependencies, are
    /// taken first, those with inputs of dynamic length before the others.
    #[verifier::rlimit(40)]
    pub fn _heuristic_choose(&self, max_size: usize, stop_at_visit_all_nodes: bool) -> (r: Vec<ApiSequence>)
        requires
            self.well_formed(),
        ensures
            views(r@) == spec_heuristic_choose(
                self.sequences_view(),
                self.api_dependencies@.len() as int,
                max_size as int,
                stop_at_visit_all_nodes,
            ),
    {
        let ghost seqs = self.sequences_view();
        let ghost vpred = |s: SequenceView| valid_target(s);
        let total_sequence_number = self.api_sequences.len();
        let mut valid_targets: Vec<ApiSequence> = Vec::new();
        let mut i: usize = 0;
        while i < total_sequence_number
            invariant
                self.well_formed(),
                seqs == self.sequences_view(),
                total_sequence_number == seqs.len(),
                i <= total_sequence_number,
                vpred == (|s: SequenceView| valid_target(s)),
                views(valid_targets@) == seqs.take(i as int).filter(vpred),
            decreases total_sequence_number - i,
        {
            let sequence = &self.api_sequences[i];
            proof {
                assert(seqs.take(i + 1) =~= seqs.take(i as int).push(sequence@));
                seqs.take(i as int).lemma_filter_push(sequence@, vpred);
                assert(self.api_sequences@[i as int]@.consistent());
            }
            if !sequence.has_no_fuzzables() && !sequence.contains_dead_code_except_last_one() {
                let copy = sequence.duplicate();
                let ghost prev = valid_targets@;
                valid_targets.push(copy);
                proof {
                    assert(views(valid_targets@) =~= views(prev).push(copy@));
                }
            }
            i = i + 1;
        }
        proof {
            assert(seqs.take(i as int) =~= seqs);
        }
        let valid_fuzz_sequence_count = valid_targets.len();
        let mut res: Vec<ApiSequence> = Vec::new();
        if valid_fuzz_sequence_count == 0 {
            proof {
                assert(views(res@) =~= Seq::<SequenceView>::empty());
            }
            return res;
        }
        let to_cover_nodes_number = statistics(&valid_targets).covered_nodes;
        let to_cover_dependency_number = self.api_dependencies.len();
        let mut already_covered_nodes: Vec<usize> = Vec::new();
        let mut already_covered_edges: Vec<usize> = Vec::new();
        let mut sorted_chosen_sequences: Vec<usize> = Vec::new();
        let mut try_to_find_dynamic_length_flag = true;
        let ghost target = heur_rounds(
            seqs,
            to_cover_dependency_number as int,
            to_cover_nodes_number as int,
            valid_fuzz_sequence_count as int,
            stop_at_visit_all_nodes,
            HeurState { nodes: Seq::empty(), edges: Seq::empty(), chosen: Seq::empty(), dynamic_phase: true },
            max_size + 1,
        );
        proof {
            assert(already_covered_nodes@ =~= Seq::<usize>::empty());
            assert(already_covered_edges@ =~= Seq::<usize>::empty());
            assert(sorted_chosen_sequences@ =~= Seq::<usize>::empty());
        }
        let mut remaining: u128 = max_size as u128 + 1;
        let mut finished = false;
        while remaining > 0 && !finished
            invariant
                self.well_formed(),
                seqs == self.sequences_view(),
                total_sequence_number == seqs.len(),
                target == heur_rounds(
                    seqs,
                    to_cover_dependency_number as int,
                    to_cover_nodes_number as int,
                    valid_fuzz_sequence_count as int,
                    stop_at_visit_all_nodes,
                    HeurState { nodes: Seq::empty(), edges: Seq::empty(), chosen: Seq::empty(), dynamic_phase: true },
                    max_size + 1,
                ),
                finished ==> target == sorted_chosen_sequences@,
                !finished ==> target == heur_rounds(
                    seqs,
                    to_cover_dependency_number as int,
                    to_cover_nodes_number as int,
                    valid_fuzz_sequence_count as int,
                    stop_at_visit_all_nodes,
                    HeurState {
                        nodes: already_covered_nodes@,
                        edges: already_covered_edges@,
                        chosen: sorted_chosen_sequences@,
                        dynamic_phase: try_to_find_dynamic_length_flag,
                    },
                    remaining as int,
                ),
                forall|k: int| 0 <= k < sorted_chosen_sequences@.len() ==> (#[trigger] sorted_chosen_sequences@[k]) < seqs.len(),
            decreases remaining,
        {
            let best = self.heur_best(
                &already_covered_nodes,
                &already_covered_edges,
                &sorted_chosen_sequences,
                try_to_find_dynamic_length_flag,
            );
            let (current_chosen_sequence_index, current_max_covered_nodes, current_max_covered_edges) = best;
            let ghost st = HeurState {
                nodes: already_covered_nodes@,
                edges: already_covered_edges@,
                chosen: sorted_chosen_sequences@,
                dynamic_phase: try_to_find_dynamic_length_flag,
            };
            let ghost b = heur_scan(seqs, st.nodes, st.edges, st.chosen, st.dynamic_phase, 0, Best { index: 0, nodes: 0, edges: 0, len: 0 });
            let ghost rounds = |x: HeurState, r: int| heur_rounds(
                seqs,
                to_cover_dependency_number as int,
                to_cover_nodes_number as int,
                valid_fuzz_sequence_count as int,
                stop_at_visit_all_nodes,
                x,
                r,
            );
            proof {
                assert(rounds(st, remaining as int) == heur_rounds(
                    seqs,
                    to_cover_dependency_number as int,
                    to_cover_nodes_number as int,
                    valid_fuzz_sequence_count as int,
                    stop_at_visit_all_nodes,
                    st,
                    remaining as int,
                ));
            }
            if try_to_find_dynamic_length_flag && current_max_covered_nodes == 0 {
                try_to_find_dynamic_length_flag = false;
                proof {
                    assert(rounds(st, remaining as int) == rounds(HeurState { dynamic_phase: false, ..st }, remaining - 1));
                }
            } else if !try_to_find_dynamic_length_flag && current_max_covered_edges == 0 && current_max_covered_nodes == 0 {
                finished = true;
                proof {
                    assert(rounds(st, remaining as int) == st.chosen);
                }
            } else {
                sorted_chosen_sequences.push(current_chosen_sequence_index);
                let chosen_sequence = &self.api_sequences[current_chosen_sequence_index];
                proof {
                    assert(seqs[current_chosen_sequence_index as int] == chosen_sequence@);
                }
                let covered_nodes = chosen_sequence.get_contained_api_functions();
                union_into(&mut already_covered_nodes, &covered_nodes);
                union_into(&mut already_covered_edges, &chosen_sequence.covered_dependencies);
                let ghost st2 = HeurState {
                    nodes: already_covered_nodes@,
                    edges: already_covered_edges@,
                    chosen: sorted_chosen_sequences@,
                    dynamic_phase: try_to_find_dynamic_length_flag,
                };
                if sorted_chosen_sequences.len() == valid_fuzz_sequence_count || (to_cover_dependency_number != 0
                    && already_covered_edges.len() == to_cover_dependency_number) || (stop_at_visit_all_nodes
                    && already_covered_nodes.len() == to_cover_nodes_number) {
                    finished = true;
                    proof {
                        assert(rounds(st, remaining as int) == st2.chosen);
                    }
                } else {
                    proof {
                        assert(rounds(st, remaining as int) == rounds(st2, remaining - 1));
                    }
                }
            }
            remaining = remaining - 1;
            if remaining == 0 && !finished {
                finished = true;
                proof {
                    let st3 = HeurState {
                        nodes: already_covered_nodes@,
                        edges: already_covered_edges@,
                        chosen: sorted_chosen_sequences@,
                        dynamic_phase: try_to_find_dynamic_length_flag,
                    };
                    assert(rounds(st3, 0) == st3.chosen);
                }
            }
        }
        let mut c: usize = 0;
        while c < sorted_chosen_sequences.len()
            invariant
                seqs == self.sequences_view(),
                c <= sorted_chosen_sequences@.len(),
                forall|k: int| 0 <= k < sorted_chosen_sequences@.len() ==> (#[trigger] sorted_chosen_sequences@[k]) < seqs.len(),
                views(res@) == sorted_chosen_sequences@.take(c as int).map_values(|i: usize| seqs[i as int]),
            decreases sorted_chosen_sequences.len() - c,
        {
            let copy = self.api_sequences[sorted_chosen_sequences[c]].duplicate();
            let ghost prev = res@;
            res.push(copy);
            proof {
                assert(views(res@) =~= views(prev).push(copy@));
                assert(sorted_chosen_sequences@.take(c + 1).map_values(|i: usize| seqs[i as int]) =~= sorted_chosen_sequences@.take(
                    c as int).map_values(|i: usize| seqs[i as int]).push(seqs[sorted_chosen_sequences@[c as int] as int]));
            }
            c = c + 1;
        }
        proof {
            assert(sorted_chosen_sequences@.take(c as int) =~= sorted_chosen_sequences@);
            let valid = seqs.filter(|s: SequenceView| valid_target(s));
            assert(valid == seqs.filter(vpred));
            assert(views(valid_targets@) == valid);
            assert(to_cover_nodes_number == all_nodes(valid).len());
            assert(valid_fuzz_sequence_count == valid.len());
            assert(target == sorted_chosen_sequences@);
        }
        res
    }

    /// A round of the heuristic choice: the best sequence and what it adds.
    fn heur_best(
        &self,
        nodes: &Vec<usize>,
        edges: &Vec<usize>,
        chosen: &Vec<usize>,
        dynamic_phase: bool,
    ) -> (r: (usize, usize, usize))
        requires
            self.well_formed(),
        ensures
            ({
                let b = heur_scan(self.sequences_view(), nodes@, edges@, chosen@, dynamic_phase, 0, Best { index: 0, nodes: 0, edges: 0, len: 0 });
                &&& r.0 == b.index
                &&& r.1 == b.nodes
                &&& r.2 == b.edges
                &&& b.index < self.sequences_view().len() || (b.index == 0 && b.nodes == 0 && b.edges == 0)
            }),
    {
        let ghost seqs = self.sequences_view();
        let mut index: usize = 0;
        let mut best_nodes: usize = 0;
        let mut best_edges: usize = 0;
        let mut best_len: usize = 0;
        let mut j: usize = 0;
        while j < self.api_sequences.len()
            invariant
                self.well_formed(),
                seqs == self.sequences_view(),
                j <= seqs.len(),
                heur_scan(seqs, nodes@, edges@, chosen@, dynamic_phase, 0, Best { index: 0, nodes: 0, edges: 0, len: 0 })
                    == heur_scan(seqs, nodes@, edges@, chosen@, dynamic_phase, j as int, Best {
                    index: index as int,
                    nodes: best_nodes as int,
                    edges: best_edges as int,
                    len: best_len as int,
                }),
                index < seqs.len() || (index == 0 && best_nodes == 0 && best_edges == 0 && best_len == 0),
            decreases self.api_sequences.len() - j,
        {
            let s = &self.api_sequences[j];
            proof {
                assert(seqs[j as int] == s@);
                assert(self.api_sequences@[j as int]@.consistent());
            }
            let skip = contains_index(chosen, j) || s.has_no_fuzzables() || s.contains_dead_code_except_last_one()
                || (dynamic_phase && s.is_fuzzables_fixed_length()) || (!dynamic_phase && !s.is_fuzzables_fixed_length());
            if !skip {
                let covered = s.get_contained_api_functions();
                let un = count_new_exec(nodes, &covered);
                let ue = count_new_exec(edges, &s.covered_dependencies);
                let len = s.len();
                if un < best_nodes || (un == best_nodes && ue < best_edges) {
                } else if un > best_nodes || ue > best_edges || len < best_len {
                    index = j;
                    best_nodes = un;
                    best_edges = ue;
                    best_len = len;
                }
            }
            j = j + 1;
        }
        (index, best_nodes, best_edges)
    }
}

pub proof fn lemma_filter_and(s: Seq<usize>, p1: spec_fn(usize) -> bool, p2: spec_fn(usize) -> bool)
    ensures
        s.filter(|i: usize| p1(i) && p2(i)) == s.filter(p1).filter(p2),
    decreases s.len(),
{
    let both = |i: usize| p1(i) && p2(i);
    if s.len() > 0 {
        lemma_filter_and(s.drop_last(), p1, p2);
        assert(s =~= s.drop_last().push(s.last()));
        s.drop_last().lemma_filter_push(s.last(), both);
        s.drop_last().lemma_filter_push(s.last(), p1);
        s.drop_last().filter(p1).lemma_filter_push(s.last(), p2);
    } else {
        assert(s.filter(both) =~= Seq::<usize>::empty());
        assert(s.filter(p1) =~= Seq::<usize>::empty());
        assert(s.filter(p1).filter(p2) =~= Seq::<usize>::empty());
    }
}

} // verus!
