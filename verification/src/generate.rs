//! The choice of how sequences are generated.
use vstd::prelude::*;
use crate::corpus::CorpusLine;
use crate::cover::{all_calls_fit, spec_try_to_cover};
use crate::graph::{ApiGraph, random_walk_steps, search_frame, spec_random_walk_steps};
use crate::realworld::{RealWorldReport, lemma_replay_calls_fit, lines_view, report_matches, spec_replay};
use crate::satisfy::calls_fit;
use crate::sequence::SequenceView;
use crate::traverse::{
    draws_in_range, grown_from, lemma_bfs_calls_fit, lemma_deep_bfs_calls_fit, spec_bfs, spec_try_deep_bfs, spec_walk,
    visited_matches, walk_grown,
};

verus! {

/// The ways of generating sequences.
#[derive(Clone, Copy, Debug, Hash, PartialEq, Eq, Structural, PartialOrd, Ord)]
pub enum GraphTraverseAlgorithm {
    _Default,
    _Bfs,
    _FastBfs,
    _BfsEndPoint,
    _FastBfsEndPoint,
    _RandomWalk,
    _RandomWalkEndPoint,
    _TryDeepBfs,
    _DirectBackwardSearch,
    _UseRealWorld,
}

/// The length breadth-first search grows sequences to.
pub const BFS_MAX_LEN: usize = 3;

/// The bound on the deep search.
pub const MAX_SEQUENCE_NUMBER: usize = 100000;

/// The number of random walk steps for crates without their own number.
pub const DEFAULT_RANDOM_WALK_STEPS: usize = 100000;

/// The number of random walk steps for the crate `name`.
pub open spec fn walk_steps(name: Seq<char>) -> usize {
    match spec_random_walk_steps(name) {
        Some(n) => n,
        None => DEFAULT_RANDOM_WALK_STEPS,
    }
}

impl ApiGraph {
    /// Generates sequences in the way `algorithm` names: breadth first up
    /// to three calls (fast or not, stopping at end functions or not), deep
    /// breadth first, by random walk (stopping at end functions or not),
    /// backwards from scratch, or from the corpus `corpus`. Only the last
    /// gives a report.
    pub fn generate_all_possoble_sequences(
        &mut self,
        algorithm: GraphTraverseAlgorithm,
        corpus: &Vec<CorpusLine>,
    ) -> (r: Option<RealWorldReport>)
        requires
            old(self).well_formed(),
        ensures
            final(self).well_formed(),
            final(self).visited_ok(),
            final(self).api_functions@ == old(self).api_functions@,
            final(self).api_dependencies@ == old(self).api_dependencies@,
            all_calls_fit(old(self).api_functions@, old(self).api_dependencies@, old(self).sequences_view()) ==> all_calls_fit(
                final(self).api_functions@,
                final(self).api_dependencies@,
                final(self).sequences_view(),
            ),
            r is Some <==> algorithm == GraphTraverseAlgorithm::_UseRealWorld,
            r matches Some(report) ==> report_matches(
                old(self).api_functions@,
                old(self).api_dependencies@,
                lines_view(corpus@),
                report,
            ),
            match algorithm {
                GraphTraverseAlgorithm::_Bfs => (final(self).sequences_view(), final(self).api_functions_visited@) == spec_bfs(
                    old(self).api_functions@,
                    old(self).api_dependencies@,
                    old(self).sequences_view(),
                    BFS_MAX_LEN as int,
                    false,
                    false,
                ),
                GraphTraverseAlgorithm::_FastBfs => (final(self).sequences_view(), final(self).api_functions_visited@)
                    == spec_bfs(
                    old(self).api_functions@,
                    old(self).api_dependencies@,
                    old(self).sequences_view(),
                    BFS_MAX_LEN as int,
                    false,
                    true,
                ),
                GraphTraverseAlgorithm::_BfsEndPoint | GraphTraverseAlgorithm::_Default => (
                    final(self).sequences_view(),
                    final(self).api_functions_visited@,
                ) == spec_bfs(
                    old(self).api_functions@,
                    old(self).api_dependencies@,
                    old(self).sequences_view(),
                    BFS_MAX_LEN as int,
                    true,
                    false,
                ),
                GraphTraverseAlgorithm::_FastBfsEndPoint => (final(self).sequences_view(), final(self).api_functions_visited@)
                    == spec_bfs(
                    old(self).api_functions@,
                    old(self).api_dependencies@,
                    old(self).sequences_view(),
                    BFS_MAX_LEN as int,
                    true,
                    true,
                ),
                GraphTraverseAlgorithm::_TryDeepBfs => (final(self).sequences_view(), final(self).api_functions_visited@)
                    == spec_try_deep_bfs(old(self).api_functions@, old(self).api_dependencies@, MAX_SEQUENCE_NUMBER as int),
                GraphTraverseAlgorithm::_RandomWalk | GraphTraverseAlgorithm::_RandomWalkEndPoint => (old(self).api_functions@.len()
                    == 0 ==> final(self).sequences_view().len() == 0) && (old(self).api_functions@.len() > 0 ==> {
                    &&& final(self).sequences_view().len() >= 1
                    &&& final(self).sequences_view()[0] == SequenceView::empty()
                    &&& final(self).sequences_view().len() <= walk_steps(old(self)._crate_name@) + 1
                    &&& grown_from(old(self).api_functions@, old(self).api_dependencies@, final(self).sequences_view(), 1)
                    &&& walk_grown(
                        old(self).api_functions@,
                        old(self).api_dependencies@,
                        final(self).sequences_view(),
                        algorithm == GraphTraverseAlgorithm::_RandomWalkEndPoint,
                        0,
                    )
                    &&& visited_matches(final(self).sequences_view(), final(self).api_functions_visited@, 1)
                    &&& exists|draws: Seq<(int, int)>| {
                        &&& draws.len() == walk_steps(old(self)._crate_name@)
                        &&& draws_in_range(
                            old(self).api_functions@,
                            old(self).api_dependencies@,
                            draws,
                            algorithm == GraphTraverseAlgorithm::_RandomWalkEndPoint,
                            0,
                        )
                        &&& (final(self).sequences_view(), final(self).api_functions_visited@) == spec_walk(
                            old(self).api_functions@,
                            old(self).api_dependencies@,
                            draws,
                            algorithm == GraphTraverseAlgorithm::_RandomWalkEndPoint,
                            0,
                        )
                    }
                }),
                GraphTraverseAlgorithm::_DirectBackwardSearch => (final(self).sequences_view(), final(self).api_functions_visited@)
                    == spec_try_to_cover(
                    old(self).api_functions@,
                    old(self).api_dependencies@,
                    Seq::empty(),
                    Seq::new(old(self).api_functions@.len(), |i: int| false),
                ),
                GraphTraverseAlgorithm::_UseRealWorld => {
                    &&& final(self).sequences_view() == spec_replay(
                        old(self).api_functions@,
                        old(self).api_dependencies@,
                        lines_view(corpus@),
                    ).seqs
                    &&& final(self).api_functions_visited@ == spec_replay(
                        old(self).api_functions@,
                        old(self).api_dependencies@,
                        lines_view(corpus@),
                    ).visited
                },
            },
            search_frame(*old(self), *final(self)),
    {
        let random_walk_max_size = match random_walk_steps(&self._crate_name) {
            Some(n) => n,
            None => DEFAULT_RANDOM_WALK_STEPS,
        };
        let random_walk_max_depth: usize = 0;
        let function_number = self.api_functions.len();
        let dependency_number = self.api_dependencies.len();
        let ghost fns = self.api_functions@;
        let ghost deps = self.api_dependencies@;
        let ghost seqs = self.sequences_view();
        proof {
            assert(fns.len() == function_number && deps.len() == dependency_number);
            if all_calls_fit(fns, deps, seqs) {
                lemma_bfs_calls_fit(fns, deps, seqs, BFS_MAX_LEN as int, false, false);
                lemma_bfs_calls_fit(fns, deps, seqs, BFS_MAX_LEN as int, false, true);
                lemma_bfs_calls_fit(fns, deps, seqs, BFS_MAX_LEN as int, true, false);
                lemma_bfs_calls_fit(fns, deps, seqs, BFS_MAX_LEN as int, true, true);
            }
            lemma_deep_bfs_calls_fit(fns, deps, MAX_SEQUENCE_NUMBER as int);
            lemma_replay_calls_fit(fns, deps, lines_view(corpus@));
        }
        let r = match algorithm {
            GraphTraverseAlgorithm::_Bfs => {
                self.bfs(BFS_MAX_LEN, false, false);
                None
            },
            GraphTraverseAlgorithm::_FastBfs => {
                self.bfs(BFS_MAX_LEN, false, true);
                None
            },
            GraphTraverseAlgorithm::_BfsEndPoint | GraphTraverseAlgorithm::_Default => {
                self.bfs(BFS_MAX_LEN, true, false);
                None
            },
            GraphTraverseAlgorithm::_FastBfsEndPoint => {
                self.bfs(BFS_MAX_LEN, true, true);
                None
            },
            GraphTraverseAlgorithm::_TryDeepBfs => {
                self._try_deep_bfs(MAX_SEQUENCE_NUMBER);
                None
            },
            GraphTraverseAlgorithm::_RandomWalk => {
                self.random_walk(random_walk_max_size, false, random_walk_max_depth);
                None
            },
            GraphTraverseAlgorithm::_RandomWalkEndPoint => {
                self.random_walk(random_walk_max_size, true, random_walk_max_depth);
                None
            },
            GraphTraverseAlgorithm::_DirectBackwardSearch => {
                self.api_sequences.clear();
                self.reset_visited();
                proof {
                    assert(self.sequences_view() =~= Seq::<SequenceView>::empty());
                }
                self._try_to_cover_unvisited_nodes();
                None
            },
            GraphTraverseAlgorithm::_UseRealWorld => Some(self.real_world(corpus)),
        };
        proof {
            let fin = self.sequences_view();
            if all_calls_fit(fns, deps, seqs) {
                assert forall|s: int| 0 <= s < fin.len() implies calls_fit(fns, deps, #[trigger] fin[s]) by {
                    match algorithm {
                        GraphTraverseAlgorithm::_Bfs => {
                            assert(fin[s] == spec_bfs(fns, deps, seqs, BFS_MAX_LEN as int, false, false).0[s]);
                        },
                        GraphTraverseAlgorithm::_FastBfs => {
                            assert(fin[s] == spec_bfs(fns, deps, seqs, BFS_MAX_LEN as int, false, true).0[s]);
                        },
                        GraphTraverseAlgorithm::_BfsEndPoint | GraphTraverseAlgorithm::_Default => {
                            assert(fin[s] == spec_bfs(fns, deps, seqs, BFS_MAX_LEN as int, true, false).0[s]);
                        },
                        GraphTraverseAlgorithm::_FastBfsEndPoint => {
                            assert(fin[s] == spec_bfs(fns, deps, seqs, BFS_MAX_LEN as int, true, true).0[s]);
                        },
                        GraphTraverseAlgorithm::_TryDeepBfs => {
                            assert(fin[s] == spec_try_deep_bfs(fns, deps, MAX_SEQUENCE_NUMBER as int).0[s]);
                        },
                        GraphTraverseAlgorithm::_UseRealWorld => {
                            assert(fin[s] == spec_replay(fns, deps, lines_view(corpus@)).seqs[s]);
                        },
                        _ => {},
                    }
                }
            }
        }
        r
    }

    /// The default generation: breadth first, stopping at end functions,
    /// then backwards for the functions that remain unreached.
    pub fn _default_generate_sequences(&mut self)
        requires
            old(self).well_formed(),
        ensures
            final(self).well_formed(),
            final(self).visited_ok(),
            final(self).api_functions@ == old(self).api_functions@,
            final(self).api_dependencies@ == old(self).api_dependencies@,
            ({
                let (s1, v1) = spec_bfs(
                    old(self).api_functions@,
                    old(self).api_dependencies@,
                    old(self).sequences_view(),
                    BFS_MAX_LEN as int,
                    true,
                    false,
                );
                (final(self).sequences_view(), final(self).api_functions_visited@) == spec_try_to_cover(
                    old(self).api_functions@,
                    old(self).api_dependencies@,
                    s1,
                    v1,
                )
            }),
            all_calls_fit(old(self).api_functions@, old(self).api_dependencies@, old(self).sequences_view()) ==> all_calls_fit(
                final(self).api_functions@,
                final(self).api_dependencies@,
                final(self).sequences_view(),
            ),
            search_frame(*old(self), *final(self)),
    {
        let empty: Vec<CorpusLine> = Vec::new();
        self.generate_all_possoble_sequences(GraphTraverseAlgorithm::_BfsEndPoint, &empty);
        self._try_to_cover_unvisited_nodes();
    }
}

} // verus!
