//! Growing sequences through the graph: breadth first, breadth first with a
//! stop once coverage stops growing, and by random walk.
use vstd::prelude::*;
use crate::graph::{ApiGraph, search_frame};
use crate::model::{ApiDependency, ApiFunction, ApiType};
use crate::satisfy::{calls_fit, lemma_fun_satisfied_extends, lemma_fun_satisfied_fits, spec_is_fun_satisfied};
use crate::sequence::{ApiSequence, SequenceView, contained_functions, set_union, lemma_set_union_contains};
use crate::util::{contains_index, insert_index, count_true};
use crate::rng::{gen_range, thread_rng};

verus! {

/// The views of a list of sequences.
pub open spec fn views(v: Seq<ApiSequence>) -> Seq<SequenceView> {
    v.map_values(|s: ApiSequence| s@)
}

/// Whether the last call of `s` is of an end function.
pub open spec fn seq_ended(fns: Seq<ApiFunction>, s: SequenceView) -> bool {
    match s.last_func_index() {
        None => false,
        Some(i) => fns[i as int].is_end_function,
    }
}

/// Tries each function from `f` on as the next call after `base`; each
/// success is appended to `seqs` and marks its function visited. In fast
/// mode functions visited already are not tried.
pub open spec fn try_all_functions(
    fns: Seq<ApiFunction>,
    deps: Seq<ApiDependency>,
    seqs: Seq<SequenceView>,
    visited: Seq<bool>,
    base: SequenceView,
    fast: bool,
    f: int,
) -> (Seq<SequenceView>, Seq<bool>)
    decreases fns.len() - f,
{
    if f >= fns.len() || f < 0 {
        (seqs, visited)
    } else if fast && visited[f] {
        try_all_functions(fns, deps, seqs, visited, base, fast, f + 1)
    } else {
        match spec_is_fun_satisfied(fns, deps, ApiType::BareFunction, f as usize, base) {
            Some(ns) => try_all_functions(fns, deps, seqs.push(ns), visited.update(f, true), base, fast, f + 1),
            None => try_all_functions(fns, deps, seqs, visited, base, fast, f + 1),
        }
    }
}

/// `try_all_functions` after each sequence of `bases` from position `t` on.
pub open spec fn extend_each(
    fns: Seq<ApiFunction>,
    deps: Seq<ApiDependency>,
    seqs: Seq<SequenceView>,
    visited: Seq<bool>,
    bases: Seq<SequenceView>,
    fast: bool,
    t: int,
) -> (Seq<SequenceView>, Seq<bool>)
    decreases bases.len() - t,
{
    if t >= bases.len() || t < 0 {
        (seqs, visited)
    } else {
        let (s1, v1) = try_all_functions(fns, deps, seqs, visited, bases[t], fast, 0);
        extend_each(fns, deps, s1, v1, bases, fast, t + 1)
    }
}

/// The sequences of length `len` that may be extended: all of them, or,
/// when stopping at end functions, those that do not end in one.
pub open spec fn level(fns: Seq<ApiFunction>, seqs: Seq<SequenceView>, len: int, stop: bool) -> Seq<SequenceView> {
    seqs.filter(|s: SequenceView| !(stop && seq_ended(fns, s)) && s.len() == len)
}

/// Breadth-first rounds from length `len` up to `max_len`.
pub open spec fn bfs_levels(
    fns: Seq<ApiFunction>,
    deps: Seq<ApiDependency>,
    seqs: Seq<SequenceView>,
    visited: Seq<bool>,
    stop: bool,
    fast: bool,
    len: int,
    max_len: int,
) -> (Seq<SequenceView>, Seq<bool>)
    decreases max_len - len,
{
    if len >= max_len {
        (seqs, visited)
    } else {
        let (s1, v1) = extend_each(fns, deps, seqs, visited, level(fns, seqs, len, stop), fast, 0);
        bfs_levels(fns, deps, s1, v1, stop, fast, len + 1, max_len)
    }
}

/// Breadth-first search: the sequences after it, and which functions were
/// reached. It starts from the sequences there are plus an empty one, with
/// no function visited.
pub open spec fn spec_bfs(
    fns: Seq<ApiFunction>,
    deps: Seq<ApiDependency>,
    seqs: Seq<SequenceView>,
    max_len: int,
    stop: bool,
    fast: bool,
) -> (Seq<SequenceView>, Seq<bool>) {
    let visited0 = Seq::new(fns.len(), |i: int| false);
    if max_len < 1 {
        (seqs, visited0)
    } else {
        bfs_levels(fns, deps, seqs.push(SequenceView::empty()), visited0, stop, fast, 0, max_len)
    }
}

impl ApiGraph {
    /// Copies of the sequences of length `len` that may be extended.
    pub fn sequences_of_length(&self, len: usize, stop_at_end_function: bool) -> (r: Vec<ApiSequence>)
        requires
            self.well_formed(),
        ensures
            views(r@) == level(self.api_functions@, self.sequences_view(), len as int, stop_at_end_function),
            forall|t: int| 0 <= t < r@.len() ==> {
                &&& (#[trigger] r@[t])@.consistent()
                &&& r@[t]@.refers_within(self.api_functions@.len())
            },
    {
        let ghost pred = |s: SequenceView| !(stop_at_end_function && seq_ended(self.api_functions@, s)) && s.len() == len;
        let mut r: Vec<ApiSequence> = Vec::new();
        let mut i: usize = 0;
        while i < self.api_sequences.len()
            invariant
                self.well_formed(),
                i <= self.api_sequences@.len(),
                pred == (|s: SequenceView| !(stop_at_end_function && seq_ended(self.api_functions@, s)) && s.len() == len),
                views(r@) == self.sequences_view().take(i as int).filter(pred),
                forall|t: int| 0 <= t < r@.len() ==> {
                    &&& (#[trigger] r@[t])@.consistent()
                    &&& r@[t]@.refers_within(self.api_functions@.len())
                },
            decreases self.api_sequences.len() - i,
        {
            let sequence = &self.api_sequences[i];
            proof {
                assert(self.sequences_view().take(i + 1) =~= self.sequences_view().take(i as int).push(sequence@));
                self.sequences_view().take(i as int).lemma_filter_push(sequence@, pred);
                assert(self.api_sequences@[i as int]@.consistent());
            }
            let ended = stop_at_end_function && self.is_sequence_ended(sequence);
            if !ended && sequence.len() == len {
                let copy = sequence.duplicate();
                r.push(copy);
                proof {
                    assert(views(r@) =~= views(r@.drop_last()).push(copy@));
                }
            }
            i = i + 1;
        }
        proof {
            assert(self.sequences_view().take(i as int) =~= self.sequences_view());
        }
        r
    }

    /// Tries every function as the next call after `base`.
    pub fn extend_by_all_functions(&mut self, base: &ApiSequence, fast_mode: bool)
        requires
            old(self).well_formed(),
            old(self).visited_ok(),
            base@.consistent(),
            base@.refers_within(old(self).api_functions@.len()),
        ensures
            (final(self).sequences_view(), final(self).api_functions_visited@) == try_all_functions(
                old(self).api_functions@,
                old(self).api_dependencies@,
                old(self).sequences_view(),
                old(self).api_functions_visited@,
                base@,
                fast_mode,
                0,
            ),
            final(self).well_formed(),
            final(self).visited_ok(),
            final(self).api_functions@ == old(self).api_functions@,
            final(self).api_dependencies@ == old(self).api_dependencies@,
            final(self)._crate_name == old(self)._crate_name,
            search_frame(*old(self), *final(self)),
    {
        let n = self.api_functions.len();
        let mut f: usize = 0;
        while f < n
            invariant
                search_frame(*old(self), *self),
                n == self.api_functions@.len(),
                f <= n,
                self.well_formed(),
                self.visited_ok(),
                base@.consistent(),
                base@.refers_within(n as nat),
                self.api_functions@ == old(self).api_functions@,
                self.api_dependencies@ == old(self).api_dependencies@,
                self._crate_name == old(self)._crate_name,
                try_all_functions(
                    old(self).api_functions@,
                    old(self).api_dependencies@,
                    old(self).sequences_view(),
                    old(self).api_functions_visited@,
                    base@,
                    fast_mode,
                    0,
                ) == try_all_functions(
                    self.api_functions@,
                    self.api_dependencies@,
                    self.sequences_view(),
                    self.api_functions_visited@,
                    base@,
                    fast_mode,
                    f as int,
                ),
            decreases n - f,
        {
            if !(fast_mode && self.api_functions_visited[f]) {
                if let Some(new_sequence) = self.is_fun_satisfied(&ApiType::BareFunction, f, base) {
                    let ghost before = self.api_sequences@;
                    self.api_sequences.push(new_sequence);
                    self.api_functions_visited.set(f, true);
                    proof {
                        assert(self.sequences_view() =~= views(before).push(new_sequence@));
                        assert forall|s: int| 0 <= s < self.api_sequences@.len() implies {
                            &&& (#[trigger] self.api_sequences@[s])@.consistent()
                            &&& self.api_sequences@[s]@.refers_within(self.api_functions@.len())
                        } by {
                            if s < before.len() {
                                assert(self.api_sequences@[s] == before[s]);
                            }
                        }
                    }
                }
            }
            f = f + 1;
        }
    }

    /// Breadth-first search from the empty sequence, up to sequences of
    /// `max_len` calls. When `stop_at_end_function` holds, sequences ending
    /// in an end function are not extended; in `fast_mode` functions
    /// visited already are not tried again.
    pub fn bfs(&mut self, max_len: usize, stop_at_end_function: bool, fast_mode: bool)
        requires
            old(self).well_formed(),
        ensures
            (final(self).sequences_view(), final(self).api_functions_visited@) == spec_bfs(
                old(self).api_functions@,
                old(self).api_dependencies@,
                old(self).sequences_view(),
                max_len as int,
                stop_at_end_function,
                fast_mode,
            ),
            final(self).well_formed(),
            final(self).visited_ok(),
            final(self).api_functions@ == old(self).api_functions@,
            final(self).api_dependencies@ == old(self).api_dependencies@,
            final(self)._crate_name == old(self)._crate_name,
            search_frame(*old(self), *final(self)),
    {
        self.reset_visited();
        if max_len < 1 {
            return;
        }
        let ghost fns = self.api_functions@;
        let ghost deps = self.api_dependencies@;
        let empty = ApiSequence::new();
        let ghost before = self.api_sequences@;
        self.api_sequences.push(empty);
        proof {
            assert(self.sequences_view() =~= views(before).push(SequenceView::empty()));
            assert forall|s: int| 0 <= s < self.api_sequences@.len() implies {
                &&& (#[trigger] self.api_sequences@[s])@.consistent()
                &&& self.api_sequences@[s]@.refers_within(self.api_functions@.len())
            } by {
                if s < before.len() {
                    assert(self.api_sequences@[s] == before[s]);
                }
            }
        }
        let mut len: usize = 0;
        while len < max_len
            invariant
                search_frame(*old(self), *self),
                len <= max_len,
                fns == self.api_functions@,
                deps == self.api_dependencies@,
                fns == old(self).api_functions@,
                deps == old(self).api_dependencies@,
                self._crate_name == old(self)._crate_name,
                self.well_formed(),
                self.visited_ok(),
                spec_bfs(fns, deps, old(self).sequences_view(), max_len as int, stop_at_end_function, fast_mode)
                    == bfs_levels(
                    fns,
                    deps,
                    self.sequences_view(),
                    self.api_functions_visited@,
                    stop_at_end_function,
                    fast_mode,
                    len as int,
                    max_len as int,
                ),
            decreases max_len - len,
        {
            let tmp_sequences = self.sequences_of_length(len, stop_at_end_function);
            let ghost start_views = self.sequences_view();
            let ghost start_visited = self.api_functions_visited@;
            let mut t: usize = 0;
            while t < tmp_sequences.len()
                invariant
                    search_frame(*old(self), *self),
                    t <= tmp_sequences@.len(),
                    fns == self.api_functions@,
                    deps == self.api_dependencies@,
                    self._crate_name == old(self)._crate_name,
                    self.well_formed(),
                    self.visited_ok(),
                    forall|u: int| 0 <= u < tmp_sequences@.len() ==> {
                        &&& (#[trigger] tmp_sequences@[u])@.consistent()
                        &&& tmp_sequences@[u]@.refers_within(fns.len())
                    },
                    extend_each(fns, deps, start_views, start_visited, views(tmp_sequences@), fast_mode, 0)
                        == extend_each(
                        fns,
                        deps,
                        self.sequences_view(),
                        self.api_functions_visited@,
                        views(tmp_sequences@),
                        fast_mode,
                        t as int,
                    ),
                decreases tmp_sequences.len() - t,
            {
                self.extend_by_all_functions(&tmp_sequences[t], fast_mode);
                t = t + 1;
            }
            len = len + 1;
        }
    }
}

/// `b` begins with the sequences of `a`.
pub open spec fn keeps_prefix(a: Seq<SequenceView>, b: Seq<SequenceView>) -> bool {
    a.len() <= b.len() && forall|i: int| 0 <= i < a.len() ==> #[trigger] b[i] == a[i]
}

/// What growing sequences keeps: one flag per function, every sequence
/// from `start` on extends an earlier one, is at most `bound` calls long,
/// and a function is flagged exactly when such a sequence ends with it.
#[verifier::opaque]
pub open spec fn grown_ok(
    fns: Seq<ApiFunction>,
    deps: Seq<ApiDependency>,
    seqs: Seq<SequenceView>,
    visited: Seq<bool>,
    start: int,
    bound: int,
) -> bool {
    &&& visited.len() == fns.len()
    &&& 0 <= start <= seqs.len()
    &&& grown_from(fns, deps, seqs, start)
    &&& visited_matches(seqs, visited, start)
    &&& forall|s: int| start <= s < seqs.len() ==> (#[trigger] seqs[s]).len() <= bound
}

proof fn lemma_push_grown_from(
    fns: Seq<ApiFunction>,
    deps: Seq<ApiDependency>,
    seqs: Seq<SequenceView>,
    start: int,
    p: int,
    f: usize,
    ns: SequenceView,
)
    requires
        grown_from(fns, deps, seqs, start),
        0 <= start,
        0 <= p < seqs.len(),
        f < fns.len(),
        spec_is_fun_satisfied(fns, deps, ApiType::BareFunction, f, seqs[p]) == Some(ns),
        ns.last_func_index() == Some(f),
    ensures
        grown_from(fns, deps, seqs.push(ns), start),
{
    let nv = seqs.push(ns);
    assert forall|s: int| start <= s < nv.len() implies #[trigger] grown_at(fns, deps, nv, s) by {
        if s < seqs.len() {
            assert(nv[s] == seqs[s]);
            assert(grown_at(fns, deps, seqs, s));
            let (q, g) = choose|q: int, g: usize|
                #![trigger spec_is_fun_satisfied(fns, deps, ApiType::BareFunction, g, seqs[q])]
                0 <= q < s && g < fns.len() && spec_is_fun_satisfied(fns, deps, ApiType::BareFunction, g, seqs[q])
                    == Some(seqs[s]) && seqs[s].last_func_index() == Some(g);
            assert(nv[q] == seqs[q]);
        } else {
            assert(nv[p] == seqs[p]);
            assert(spec_is_fun_satisfied(fns, deps, ApiType::BareFunction, f, nv[p]) == Some(nv[s]));
        }
    }
}

pub(crate) proof fn lemma_push_visited(seqs: Seq<SequenceView>, visited: Seq<bool>, start: int, f: int, ns: SequenceView)
    requires
        visited_matches(seqs, visited, start),
        0 <= start <= seqs.len(),
        0 <= f < visited.len(),
        visited.len() <= usize::MAX,
        ns.last_func_index() == Some(f as usize),
    ensures
        visited_matches(seqs.push(ns), visited.update(f, true), start),
{
    let nv = seqs.push(ns);
    let vis = visited.update(f, true);
    assert(nv.len() == seqs.len() + 1);
    assert(nv[seqs.len() as int] == ns);
    assert forall|g: int| 0 <= g < vis.len() implies (#[trigger] vis[g] <==> exists|s: int|
        start <= s < nv.len() && nv[s].last_func_index() == Some(g as usize)) by {
        if g == f {
            assert(nv[nv.len() - 1].last_func_index() == Some(g as usize));
        } else {
            if exists|s: int| start <= s < nv.len() && nv[s].last_func_index() == Some(g as usize) {
                let s = choose|s: int| start <= s < nv.len() && nv[s].last_func_index() == Some(g as usize);
                if s == seqs.len() {
                    assert(Some(f as usize) != Some(g as usize));
                }
                assert(s < seqs.len());
                assert(seqs[s] == nv[s]);
            }
            if visited[g] {
                let s = choose|s: int| start <= s < seqs.len() && seqs[s].last_func_index() == Some(g as usize);
                assert(seqs[s] == nv[s]);
            }
        }
    }
}

proof fn lemma_push_extension(
    fns: Seq<ApiFunction>,
    deps: Seq<ApiDependency>,
    seqs: Seq<SequenceView>,
    visited: Seq<bool>,
    start: int,
    bound: int,
    p: int,
    f: int,
    ns: SequenceView,
)
    requires
        grown_ok(fns, deps, seqs, visited, start, bound),
        fns.len() <= usize::MAX,
        0 <= p < seqs.len(),
        0 <= f < fns.len(),
        seqs[p].len() + 1 <= bound,
        spec_is_fun_satisfied(fns, deps, ApiType::BareFunction, f as usize, seqs[p]) == Some(ns),
    ensures
        grown_ok(fns, deps, seqs.push(ns), visited.update(f, true), start, bound),
        keeps_prefix(seqs, seqs.push(ns)),
{
    reveal(grown_ok);
    lemma_fun_satisfied_extends(fns, deps, ApiType::BareFunction, f as usize, seqs[p]);
    assert(ns.last_func_index() == Some(f as usize));
    lemma_push_grown_from(fns, deps, seqs, start, p, f as usize, ns);
    lemma_push_visited(seqs, visited, start, f, ns);
    let nv = seqs.push(ns);
    assert forall|s: int| start <= s < nv.len() implies (#[trigger] nv[s]).len() <= bound by {
        if s < seqs.len() {
            assert(nv[s] == seqs[s]);
        }
    }
}

proof fn lemma_try_all_grows(
    fns: Seq<ApiFunction>,
    deps: Seq<ApiDependency>,
    seqs: Seq<SequenceView>,
    visited: Seq<bool>,
    base: SequenceView,
    fast: bool,
    f: int,
    start: int,
    bound: int,
)
    requires
        grown_ok(fns, deps, seqs, visited, start, bound),
        fns.len() <= usize::MAX,
        seqs.contains(base),
        base.len() + 1 <= bound,
        0 <= f,
    ensures
        grown_ok(
            fns,
            deps,
            try_all_functions(fns, deps, seqs, visited, base, fast, f).0,
            try_all_functions(fns, deps, seqs, visited, base, fast, f).1,
            start,
            bound,
        ),
        keeps_prefix(seqs, try_all_functions(fns, deps, seqs, visited, base, fast, f).0),
    decreases fns.len() - f,
{
    if f < fns.len() {
        if fast && visited[f] {
            lemma_try_all_grows(fns, deps, seqs, visited, base, fast, f + 1, start, bound);
        } else {
            match spec_is_fun_satisfied(fns, deps, ApiType::BareFunction, f as usize, base) {
                Some(ns) => {
                    let p = choose|p: int| 0 <= p < seqs.len() && seqs[p] == base;
                    lemma_push_extension(fns, deps, seqs, visited, start, bound, p, f, ns);
                    let s1 = seqs.push(ns);
                    assert(s1[p] == base);
                    lemma_try_all_grows(fns, deps, s1, visited.update(f, true), base, fast, f + 1, start, bound);
                },
                None => {
                    lemma_try_all_grows(fns, deps, seqs, visited, base, fast, f + 1, start, bound);
                },
            }
        }
    }
}

proof fn lemma_extend_each_grows(
    fns: Seq<ApiFunction>,
    deps: Seq<ApiDependency>,
    seqs: Seq<SequenceView>,
    visited: Seq<bool>,
    bases: Seq<SequenceView>,
    fast: bool,
    t: int,
    start: int,
    bound: int,
)
    requires
        grown_ok(fns, deps, seqs, visited, start, bound),
        fns.len() <= usize::MAX,
        forall|i: int| 0 <= i < bases.len() ==> seqs.contains(#[trigger] bases[i]),
        forall|i: int| 0 <= i < bases.len() ==> (#[trigger] bases[i]).len() + 1 <= bound,
        0 <= t,
    ensures
        grown_ok(
            fns,
            deps,
            extend_each(fns, deps, seqs, visited, bases, fast, t).0,
            extend_each(fns, deps, seqs, visited, bases, fast, t).1,
            start,
            bound,
        ),
        keeps_prefix(seqs, extend_each(fns, deps, seqs, visited, bases, fast, t).0),
    decreases bases.len() - t,
{
    if t < bases.len() {
        lemma_try_all_grows(fns, deps, seqs, visited, bases[t], fast, 0, start, bound);
        let (s1, v1) = try_all_functions(fns, deps, seqs, visited, bases[t], fast, 0);
        assert forall|i: int| 0 <= i < bases.len() implies s1.contains(#[trigger] bases[i]) by {
            assert(seqs.contains(bases[i]));
            let j = choose|j: int| 0 <= j < seqs.len() && seqs[j] == bases[i];
            assert(s1[j] == seqs[j]);
        }
        lemma_extend_each_grows(fns, deps, s1, v1, bases, fast, t + 1, start, bound);
    }
}

proof fn lemma_bfs_levels_grow(
    fns: Seq<ApiFunction>,
    deps: Seq<ApiDependency>,
    seqs: Seq<SequenceView>,
    visited: Seq<bool>,
    stop: bool,
    fast: bool,
    len: int,
    max_len: int,
    start: int,
)
    requires
        grown_ok(fns, deps, seqs, visited, start, max_len),
        fns.len() <= usize::MAX,
    ensures
        grown_ok(
            fns,
            deps,
            bfs_levels(fns, deps, seqs, visited, stop, fast, len, max_len).0,
            bfs_levels(fns, deps, seqs, visited, stop, fast, len, max_len).1,
            start,
            max_len,
        ),
        keeps_prefix(seqs, bfs_levels(fns, deps, seqs, visited, stop, fast, len, max_len).0),
    decreases max_len - len,
{
    if len < max_len {
        let pred = |s: SequenceView| !(stop && seq_ended(fns, s)) && s.len() == len;
        let bases = level(fns, seqs, len, stop);
        assert(bases == seqs.filter(pred));
        assert forall|i: int| 0 <= i < bases.len() implies seqs.contains(#[trigger] bases[i]) && bases[i].len() + 1
            <= max_len by {
            assert(bases.contains(bases[i]));
            seqs.lemma_filter_contains_rev(pred, bases[i]);
            #[allow(deprecated)]
            seqs.filter_lemma(pred);
        }
        lemma_extend_each_grows(fns, deps, seqs, visited, bases, fast, 0, start, max_len);
        let (s1, v1) = extend_each(fns, deps, seqs, visited, bases, fast, 0);
        lemma_bfs_levels_grow(fns, deps, s1, v1, stop, fast, len + 1, max_len, start);
    }
}

/// Breadth-first search keeps the sequences there were and puts the empty
/// sequence after them; every sequence after that extends an earlier one
/// by a call of a function of the graph and is at most `max_len` calls
/// long; and a function is marked visited exactly when one of those
/// sequences ends with a call of it. With `max_len` below one, nothing is
/// added and nothing is visited.
pub proof fn lemma_bfs_grows(
    fns: Seq<ApiFunction>,
    deps: Seq<ApiDependency>,
    seqs: Seq<SequenceView>,
    max_len: int,
    stop: bool,
    fast: bool,
)
    requires
        fns.len() <= usize::MAX,
    ensures
        ({
            let (r, v) = spec_bfs(fns, deps, seqs, max_len, stop, fast);
            &&& v.len() == fns.len()
            &&& max_len < 1 ==> r == seqs && forall|f: int| 0 <= f < v.len() ==> !v[f]
            &&& max_len >= 1 ==> {
                &&& keeps_prefix(seqs, r)
                &&& r.len() > seqs.len()
                &&& r[seqs.len() as int] == SequenceView::empty()
                &&& grown_from(fns, deps, r, seqs.len() + 1int)
                &&& visited_matches(r, v, seqs.len() + 1int)
                &&& forall|s: int| seqs.len() < s < r.len() ==> (#[trigger] r[s]).len() <= max_len
            }
        }),
{
    let visited0 = Seq::new(fns.len(), |i: int| false);
    if max_len >= 1 {
        let s0 = seqs.push(SequenceView::empty());
        let start = seqs.len() + 1int;
        assert(grown_ok(fns, deps, s0, visited0, start, max_len)) by {
            reveal(grown_ok);
        }
        lemma_bfs_levels_grow(fns, deps, s0, visited0, stop, fast, 0, max_len, start);
        let r = spec_bfs(fns, deps, seqs, max_len, stop, fast).0;
        reveal(grown_ok);
        assert(r[seqs.len() as int] == s0[seqs.len() as int]);
        assert forall|i: int| 0 <= i < seqs.len() implies #[trigger] r[i] == seqs[i] by {
            assert(r[i] == s0[i]);
        }
    }
}

proof fn lemma_grown_fit_at(fns: Seq<ApiFunction>, deps: Seq<ApiDependency>, seqs: Seq<SequenceView>, start: int, s: int)
    requires
        grown_from(fns, deps, seqs, start),
        deps.len() <= usize::MAX,
        forall|i: int| 0 <= i < start && i < seqs.len() ==> calls_fit(fns, deps, #[trigger] seqs[i]),
        0 <= s < seqs.len(),
    ensures
        calls_fit(fns, deps, seqs[s]),
    decreases s,
{
    if s >= start {
        assert(grown_at(fns, deps, seqs, s));
        let (p, f) = choose|p: int, f: usize|
            #![trigger spec_is_fun_satisfied(fns, deps, ApiType::BareFunction, f, seqs[p])]
            0 <= p < s && f < fns.len() && spec_is_fun_satisfied(fns, deps, ApiType::BareFunction, f, seqs[p]) == Some(
                seqs[s],
            ) && seqs[s].last_func_index() == Some(f);
        lemma_grown_fit_at(fns, deps, seqs, start, p);
        lemma_fun_satisfied_fits(fns, deps, ApiType::BareFunction, f, seqs[p]);
    }
}

/// Sequences grown by calls of functions of the graph from sequences whose
/// calls all fit have only calls that fit.
pub proof fn lemma_grown_sequences_fit(fns: Seq<ApiFunction>, deps: Seq<ApiDependency>, seqs: Seq<SequenceView>, start: int)
    requires
        grown_from(fns, deps, seqs, start),
        deps.len() <= usize::MAX,
        forall|i: int| 0 <= i < start && i < seqs.len() ==> calls_fit(fns, deps, #[trigger] seqs[i]),
    ensures
        forall|s: int| 0 <= s < seqs.len() ==> calls_fit(fns, deps, #[trigger] seqs[s]),
{
    assert forall|s: int| 0 <= s < seqs.len() implies calls_fit(fns, deps, #[trigger] seqs[s]) by {
        lemma_grown_fit_at(fns, deps, seqs, start, s);
    }
}

/// Breadth-first search started from sequences whose calls all fit gives
/// only sequences whose calls all fit: every call is of a function of the
/// graph and takes each argument from the fuzzer or from an earlier call
/// with a dependency to the parameter.
pub proof fn lemma_bfs_calls_fit(
    fns: Seq<ApiFunction>,
    deps: Seq<ApiDependency>,
    seqs: Seq<SequenceView>,
    max_len: int,
    stop: bool,
    fast: bool,
)
    requires
        fns.len() <= usize::MAX,
        deps.len() <= usize::MAX,
        forall|i: int| 0 <= i < seqs.len() ==> calls_fit(fns, deps, #[trigger] seqs[i]),
    ensures
        forall|s: int| 0 <= s < spec_bfs(fns, deps, seqs, max_len, stop, fast).0.len() ==> calls_fit(
            fns,
            deps,
            #[trigger] spec_bfs(fns, deps, seqs, max_len, stop, fast).0[s],
        ),
{
    lemma_bfs_grows(fns, deps, seqs, max_len, stop, fast);
    let r = spec_bfs(fns, deps, seqs, max_len, stop, fast).0;
    if max_len >= 1 {
        assert forall|i: int| 0 <= i < seqs.len() + 1 && i < r.len() implies calls_fit(fns, deps, #[trigger] r[i]) by {
            if i < seqs.len() {
                assert(r[i] == seqs[i]);
            } else {
                assert(r[i] == SequenceView::empty());
            }
        }
        lemma_grown_sequences_fit(fns, deps, r, seqs.len() + 1int);
    }
}

/// The deep search gives only sequences whose calls all fit.
pub proof fn lemma_deep_bfs_calls_fit(fns: Seq<ApiFunction>, deps: Seq<ApiDependency>, max_sequence_number: int)
    requires
        fns.len() <= usize::MAX,
        deps.len() <= usize::MAX,
    ensures
        forall|s: int| 0 <= s < spec_try_deep_bfs(fns, deps, max_sequence_number).0.len() ==> calls_fit(
            fns,
            deps,
            #[trigger] spec_try_deep_bfs(fns, deps, max_sequence_number).0[s],
        ),
{
    lemma_deep_bfs_grows(fns, deps, max_sequence_number);
    let r = spec_try_deep_bfs(fns, deps, max_sequence_number).0;
    if fns.len() > 0 {
        assert forall|i: int| 0 <= i < 1 && i < r.len() implies calls_fit(fns, deps, #[trigger] r[i]) by {
            assert(r[i] == SequenceView::empty());
        }
        lemma_grown_sequences_fit(fns, deps, r, 1);
    }
}

/// No two sequences from position `start` on end with a call of the same
/// function.
pub open spec fn distinct_ends(seqs: Seq<SequenceView>, start: int) -> bool {
    forall|a: int, b: int|
        start <= a < b < seqs.len() ==> (#[trigger] seqs[a]).last_func_index() != (#[trigger] seqs[b]).last_func_index()
}

/// What the fast search keeps: one flag per function, flags that match
/// the ends of the sequences from `start` on, and ends that differ.
pub open spec fn fast_ok(fns: Seq<ApiFunction>, seqs: Seq<SequenceView>, visited: Seq<bool>, start: int) -> bool {
    &&& visited.len() == fns.len()
    &&& 0 <= start <= seqs.len()
    &&& visited_matches(seqs, visited, start)
    &&& distinct_ends(seqs, start)
    &&& forall|s: int| start <= s < seqs.len() ==> (#[trigger] seqs[s]).last_func_index() is Some
}

proof fn lemma_fast_push(fns: Seq<ApiFunction>, seqs: Seq<SequenceView>, visited: Seq<bool>, start: int, f: int, ns: SequenceView)
    requires
        fast_ok(fns, seqs, visited, start),
        fns.len() <= usize::MAX,
        0 <= f < fns.len(),
        !visited[f],
        ns.last_func_index() == Some(f as usize),
    ensures
        fast_ok(fns, seqs.push(ns), visited.update(f, true), start),
{
    lemma_push_visited(seqs, visited, start, f, ns);
    let nv = seqs.push(ns);
    assert forall|a: int, b: int| start <= a < b < nv.len() implies (#[trigger] nv[a]).last_func_index() != (
    #[trigger] nv[b]).last_func_index() by {
        assert(nv[a] == seqs[a]);
        if b < seqs.len() {
            assert(nv[b] == seqs[b]);
        } else {
            assert(nv[b] == ns);
            if seqs[a].last_func_index() == Some(f as usize) {
                assert(visited[f]);
            }
        }
    }
    assert forall|s: int| start <= s < nv.len() implies (#[trigger] nv[s]).last_func_index() is Some by {
        if s < seqs.len() {
            assert(nv[s] == seqs[s]);
        }
    }
}

proof fn lemma_fast_try_all(
    fns: Seq<ApiFunction>,
    deps: Seq<ApiDependency>,
    seqs: Seq<SequenceView>,
    visited: Seq<bool>,
    base: SequenceView,
    f: int,
    start: int,
)
    requires
        fast_ok(fns, seqs, visited, start),
        fns.len() <= usize::MAX,
        0 <= f,
    ensures
        fast_ok(
            fns,
            try_all_functions(fns, deps, seqs, visited, base, true, f).0,
            try_all_functions(fns, deps, seqs, visited, base, true, f).1,
            start,
        ),
    decreases fns.len() - f,
{
    if f < fns.len() {
        if visited[f] {
            lemma_fast_try_all(fns, deps, seqs, visited, base, f + 1, start);
        } else {
            match spec_is_fun_satisfied(fns, deps, ApiType::BareFunction, f as usize, base) {
                Some(ns) => {
                    lemma_fun_satisfied_extends(fns, deps, ApiType::BareFunction, f as usize, base);
                    lemma_fast_push(fns, seqs, visited, start, f, ns);
                    lemma_fast_try_all(fns, deps, seqs.push(ns), visited.update(f, true), base, f + 1, start);
                },
                None => {
                    lemma_fast_try_all(fns, deps, seqs, visited, base, f + 1, start);
                },
            }
        }
    }
}

proof fn lemma_fast_extend_each(
    fns: Seq<ApiFunction>,
    deps: Seq<ApiDependency>,
    seqs: Seq<SequenceView>,
    visited: Seq<bool>,
    bases: Seq<SequenceView>,
    t: int,
    start: int,
)
    requires
        fast_ok(fns, seqs, visited, start),
        fns.len() <= usize::MAX,
        0 <= t,
    ensures
        fast_ok(
            fns,
            extend_each(fns, deps, seqs, visited, bases, true, t).0,
            extend_each(fns, deps, seqs, visited, bases, true, t).1,
            start,
        ),
    decreases bases.len() - t,
{
    if t < bases.len() {
        lemma_fast_try_all(fns, deps, seqs, visited, bases[t], 0, start);
        let (s1, v1) = try_all_functions(fns, deps, seqs, visited, bases[t], true, 0);
        lemma_fast_extend_each(fns, deps, s1, v1, bases, t + 1, start);
    }
}

proof fn lemma_fast_levels(
    fns: Seq<ApiFunction>,
    deps: Seq<ApiDependency>,
    seqs: Seq<SequenceView>,
    visited: Seq<bool>,
    stop: bool,
    len: int,
    max_len: int,
    start: int,
)
    requires
        fast_ok(fns, seqs, visited, start),
        fns.len() <= usize::MAX,
    ensures
        fast_ok(
            fns,
            bfs_levels(fns, deps, seqs, visited, stop, true, len, max_len).0,
            bfs_levels(fns, deps, seqs, visited, stop, true, len, max_len).1,
            start,
        ),
    decreases max_len - len,
{
    if len < max_len {
        let bases = level(fns, seqs, len, stop);
        lemma_fast_extend_each(fns, deps, seqs, visited, bases, 0, start);
        let (s1, v1) = extend_each(fns, deps, seqs, visited, bases, true, 0);
        lemma_fast_levels(fns, deps, s1, v1, stop, len + 1, max_len, start);
    }
}

/// In fast mode breadth-first search tries no function twice: no two of
/// the sequences it adds end with a call of the same function, so it adds
/// at most one sequence per function.
pub proof fn lemma_fast_bfs_one_per_function(
    fns: Seq<ApiFunction>,
    deps: Seq<ApiDependency>,
    seqs: Seq<SequenceView>,
    max_len: int,
    stop: bool,
)
    requires
        fns.len() <= usize::MAX,
    ensures
        distinct_ends(spec_bfs(fns, deps, seqs, max_len, stop, true).0, seqs.len() + 1int),
{
    if max_len >= 1 {
        let visited0 = Seq::new(fns.len(), |i: int| false);
        let s0 = seqs.push(SequenceView::empty());
        assert(fast_ok(fns, s0, visited0, seqs.len() + 1int));
        lemma_fast_levels(fns, deps, s0, visited0, stop, 0, max_len, seqs.len() + 1int);
    }
}

/// Whether some element of `items` is not in `set`.
pub open spec fn adds_new(set: Seq<usize>, items: Seq<usize>) -> bool {
    exists|k: int| 0 <= k < items.len() && !set.contains(#[trigger] items[k])
}

/// The state of the search for deep sequences: the sequences and visited
/// functions, the functions and dependencies covered so far, and whether
/// the current round covered anything new.
pub struct DeepState {
    pub seqs: Seq<SequenceView>,
    pub visited: Seq<bool>,
    pub nodes: Seq<usize>,
    pub edges: Seq<usize>,
    pub has_new: bool,
}

/// Records the new sequence `ns`, which calls function `f` last.
pub open spec fn deep_record(st: DeepState, ns: SequenceView, f: int) -> DeepState {
    let c = contained_functions(ns.functions);
    let e = ns.covered_dependencies;
    DeepState {
        seqs: st.seqs.push(ns),
        visited: st.visited.update(f, true),
        nodes: set_union(st.nodes, c),
        edges: set_union(st.edges, e),
        has_new: st.has_new || adds_new(st.nodes, c) || adds_new(st.edges, e),
    }
}

pub open spec fn deep_try_all(
    fns: Seq<ApiFunction>,
    deps: Seq<ApiDependency>,
    st: DeepState,
    base: SequenceView,
    f: int,
) -> DeepState
    decreases fns.len() - f,
{
    if f >= fns.len() || f < 0 {
        st
    } else {
        match spec_is_fun_satisfied(fns, deps, ApiType::BareFunction, f as usize, base) {
            Some(ns) => deep_try_all(fns, deps, deep_record(st, ns, f), base, f + 1),
            None => deep_try_all(fns, deps, st, base, f + 1),
        }
    }
}

pub open spec fn deep_extend_each(
    fns: Seq<ApiFunction>,
    deps: Seq<ApiDependency>,
    st: DeepState,
    bases: Seq<SequenceView>,
    t: int,
) -> DeepState
    decreases bases.len() - t,
{
    if t >= bases.len() || t < 0 {
        st
    } else {
        deep_extend_each(fns, deps, deep_try_all(fns, deps, st, bases[t], 0), bases, t + 1)
    }
}

/// Rounds of the deep search from length `len`: a round is skipped and the
/// search ends once past length two the number of sequences times the
/// number of visited functions reaches `max_sequence_number`, and the
/// search ends after a round that covers no new function or dependency.
pub open spec fn deep_levels(
    fns: Seq<ApiFunction>,
    deps: Seq<ApiDependency>,
    st: DeepState,
    len: int,
    max_len: int,
    max_sequence_number: int,
) -> DeepState
    decreases max_len - len,
{
    if len >= max_len {
        st
    } else if len > 2 && st.seqs.len() * count_true(st.visited) >= max_sequence_number {
        st
    } else {
        let st1 = deep_extend_each(
            fns,
            deps,
            DeepState { has_new: false, ..st },
            level(fns, st.seqs, len, true),
            0,
        );
        if !st1.has_new {
            st1
        } else {
            deep_levels(fns, deps, st1, len + 1, max_len, max_sequence_number)
        }
    }
}

/// The deep search: it starts over from the empty sequence alone and may
/// grow sequences up to the number of functions.
pub open spec fn spec_try_deep_bfs(
    fns: Seq<ApiFunction>,
    deps: Seq<ApiDependency>,
    max_sequence_number: int,
) -> (Seq<SequenceView>, Seq<bool>) {
    let visited0 = Seq::new(fns.len(), |i: int| false);
    if fns.len() < 1 {
        (Seq::empty(), visited0)
    } else {
        let st = deep_levels(
            fns,
            deps,
            DeepState {
                seqs: seq![SequenceView::empty()],
                visited: visited0,
                nodes: Seq::empty(),
                edges: Seq::empty(),
                has_new: false,
            },
            0,
            fns.len() as int,
            max_sequence_number,
        );
        (st.seqs, st.visited)
    }
}

proof fn lemma_deep_try_all_grows(
    fns: Seq<ApiFunction>,
    deps: Seq<ApiDependency>,
    st: DeepState,
    base: SequenceView,
    f: int,
    start: int,
    bound: int,
)
    requires
        grown_ok(fns, deps, st.seqs, st.visited, start, bound),
        fns.len() <= usize::MAX,
        st.seqs.contains(base),
        base.len() + 1 <= bound,
        0 <= f,
    ensures
        grown_ok(
            fns,
            deps,
            deep_try_all(fns, deps, st, base, f).seqs,
            deep_try_all(fns, deps, st, base, f).visited,
            start,
            bound,
        ),
        keeps_prefix(st.seqs, deep_try_all(fns, deps, st, base, f).seqs),
    decreases fns.len() - f,
{
    if f < fns.len() {
        match spec_is_fun_satisfied(fns, deps, ApiType::BareFunction, f as usize, base) {
            Some(ns) => {
                let p = choose|p: int| 0 <= p < st.seqs.len() && st.seqs[p] == base;
                lemma_push_extension(fns, deps, st.seqs, st.visited, start, bound, p, f, ns);
                let st1 = deep_record(st, ns, f);
                assert(st1.seqs[p] == base);
                lemma_deep_try_all_grows(fns, deps, st1, base, f + 1, start, bound);
            },
            None => {
                lemma_deep_try_all_grows(fns, deps, st, base, f + 1, start, bound);
            },
        }
    }
}

proof fn lemma_deep_extend_each_grows(
    fns: Seq<ApiFunction>,
    deps: Seq<ApiDependency>,
    st: DeepState,
    bases: Seq<SequenceView>,
    t: int,
    start: int,
    bound: int,
)
    requires
        grown_ok(fns, deps, st.seqs, st.visited, start, bound),
        fns.len() <= usize::MAX,
        forall|i: int| 0 <= i < bases.len() ==> st.seqs.contains(#[trigger] bases[i]),
        forall|i: int| 0 <= i < bases.len() ==> (#[trigger] bases[i]).len() + 1 <= bound,
        0 <= t,
    ensures
        grown_ok(
            fns,
            deps,
            deep_extend_each(fns, deps, st, bases, t).seqs,
            deep_extend_each(fns, deps, st, bases, t).visited,
            start,
            bound,
        ),
        keeps_prefix(st.seqs, deep_extend_each(fns, deps, st, bases, t).seqs),
    decreases bases.len() - t,
{
    if t < bases.len() {
        lemma_deep_try_all_grows(fns, deps, st, bases[t], 0, start, bound);
        let st1 = deep_try_all(fns, deps, st, bases[t], 0);
        assert forall|i: int| 0 <= i < bases.len() implies st1.seqs.contains(#[trigger] bases[i]) by {
            assert(st.seqs.contains(bases[i]));
            let j = choose|j: int| 0 <= j < st.seqs.len() && st.seqs[j] == bases[i];
            assert(st1.seqs[j] == st.seqs[j]);
        }
        lemma_deep_extend_each_grows(fns, deps, st1, bases, t + 1, start, bound);
    }
}

proof fn lemma_deep_levels_grow(
    fns: Seq<ApiFunction>,
    deps: Seq<ApiDependency>,
    st: DeepState,
    len: int,
    max_len: int,
    max_sequence_number: int,
    start: int,
)
    requires
        grown_ok(fns, deps, st.seqs, st.visited, start, max_len),
        fns.len() <= usize::MAX,
    ensures
        grown_ok(
            fns,
            deps,
            deep_levels(fns, deps, st, len, max_len, max_sequence_number).seqs,
            deep_levels(fns, deps, st, len, max_len, max_sequence_number).visited,
            start,
            max_len,
        ),
        keeps_prefix(st.seqs, deep_levels(fns, deps, st, len, max_len, max_sequence_number).seqs),
    decreases max_len - len,
{
    if len < max_len && !(len > 2 && st.seqs.len() * count_true(st.visited) >= max_sequence_number) {
        let stop = true;
        let pred = |s: SequenceView| !(stop && seq_ended(fns, s)) && s.len() == len;
        let bases = level(fns, st.seqs, len, stop);
        assert(bases == st.seqs.filter(pred));
        assert forall|i: int| 0 <= i < bases.len() implies st.seqs.contains(#[trigger] bases[i]) && bases[i].len() + 1
            <= max_len by {
            assert(bases.contains(bases[i]));
            st.seqs.lemma_filter_contains_rev(pred, bases[i]);
            #[allow(deprecated)]
            st.seqs.filter_lemma(pred);
        }
        let st0 = DeepState { has_new: false, ..st };
        lemma_deep_extend_each_grows(fns, deps, st0, bases, 0, start, max_len);
        let st1 = deep_extend_each(fns, deps, st0, bases, 0);
        if st1.has_new {
            lemma_deep_levels_grow(fns, deps, st1, len + 1, max_len, max_sequence_number, start);
        }
    } else {
        reveal(grown_ok);
    }
}

/// The deep search starts from the empty sequence alone; every later
/// sequence extends an earlier one by a call of a function of the graph
/// and makes at most as many calls as there are functions; and a function
/// is marked visited exactly when one of those sequences ends with a call
/// of it. A graph without functions gets no sequence.
pub proof fn lemma_deep_bfs_grows(fns: Seq<ApiFunction>, deps: Seq<ApiDependency>, max_sequence_number: int)
    requires
        fns.len() <= usize::MAX,
    ensures
        ({
            let (r, v) = spec_try_deep_bfs(fns, deps, max_sequence_number);
            &&& v.len() == fns.len()
            &&& fns.len() == 0 ==> r.len() == 0
            &&& fns.len() > 0 ==> {
                &&& r.len() >= 1
                &&& r[0] == SequenceView::empty()
                &&& grown_from(fns, deps, r, 1)
                &&& visited_matches(r, v, 1)
                &&& forall|s: int| 1 <= s < r.len() ==> (#[trigger] r[s]).len() <= fns.len()
            }
        }),
{
    let visited0 = Seq::new(fns.len(), |i: int| false);
    if fns.len() >= 1 {
        let st = DeepState {
            seqs: seq![SequenceView::empty()],
            visited: visited0,
            nodes: Seq::empty(),
            edges: Seq::empty(),
            has_new: false,
        };
        assert(grown_ok(fns, deps, st.seqs, st.visited, 1, fns.len() as int)) by {
            reveal(grown_ok);
        }
        lemma_deep_levels_grow(fns, deps, st, 0, fns.len() as int, max_sequence_number, 1);
        reveal(grown_ok);
        let r = spec_try_deep_bfs(fns, deps, max_sequence_number).0;
        assert(r[0] == st.seqs[0]);
    }
}

/// Adds `items` to `set`; whether one of them was not there.
fn note_coverage(set: &mut Vec<usize>, items: &Vec<usize>) -> (grew: bool)
    ensures
        final(set)@ == set_union(old(set)@, items@),
        grew == adds_new(old(set)@, items@),
{
    let mut grew = false;
    let mut k: usize = 0;
    while k < items.len()
        invariant
            k <= items@.len(),
            set@ == set_union(old(set)@, items@.take(k as int)),
            grew == adds_new(old(set)@, items@.take(k as int)),
        decreases items.len() - k,
    {
        proof {
            assert(items@.take(k + 1).drop_last() =~= items@.take(k as int));
            lemma_set_union_contains(old(set)@, items@.take(k as int));
        }
        let x = items[k];
        if !contains_index(set, x) {
            grew = true;
        }
        insert_index(set, x);
        proof {
            if adds_new(old(set)@, items@.take(k + 1)) && !adds_new(old(set)@, items@.take(k as int)) {
                let j = choose|j: int| 0 <= j < k + 1 && !old(set)@.contains(#[trigger] items@.take(k + 1)[j]);
                if j < k {
                    assert(items@.take(k as int)[j] == items@.take(k + 1)[j]);
                }
                assert(j == k);
            }
            if !old(set)@.contains(x) {
                assert(items@.take(k + 1)[k as int] == x);
            }
            if adds_new(old(set)@, items@.take(k as int)) {
                let j = choose|j: int| 0 <= j < k && !old(set)@.contains(#[trigger] items@.take(k as int)[j]);
                assert(items@.take(k + 1)[j] == items@.take(k as int)[j]);
            }
        }
        k = k + 1;
    }
    proof {
        assert(items@.take(k as int) =~= items@);
    }
    grew
}

impl ApiGraph {
    fn extend_deep(
        &mut self,
        base: &ApiSequence,
        nodes: &mut Vec<usize>,
        edges: &mut Vec<usize>,
        has_new: &mut bool,
    )
        requires
            old(self).well_formed(),
            old(self).visited_ok(),
            base@.consistent(),
            base@.refers_within(old(self).api_functions@.len()),
        ensures
            (DeepState {
                seqs: final(self).sequences_view(),
                visited: final(self).api_functions_visited@,
                nodes: final(nodes)@,
                edges: final(edges)@,
                has_new: *final(has_new),
            }) == deep_try_all(
                old(self).api_functions@,
                old(self).api_dependencies@,
                DeepState {
                    seqs: old(self).sequences_view(),
                    visited: old(self).api_functions_visited@,
                    nodes: old(nodes)@,
                    edges: old(edges)@,
                    has_new: *old(has_new),
                },
                base@,
                0,
            ),
            final(self).well_formed(),
            final(self).visited_ok(),
            final(self).api_functions@ == old(self).api_functions@,
            final(self).api_dependencies@ == old(self).api_dependencies@,
            final(self)._crate_name == old(self)._crate_name,
            search_frame(*old(self), *final(self)),
    {
        let n = self.api_functions.len();
        let mut f: usize = 0;
        while f < n
            invariant
                search_frame(*old(self), *self),
                n == self.api_functions@.len(),
                f <= n,
                self.well_formed(),
                self.visited_ok(),
                base@.consistent(),
                base@.refers_within(n as nat),
                self.api_functions@ == old(self).api_functions@,
                self.api_dependencies@ == old(self).api_dependencies@,
                self._crate_name == old(self)._crate_name,
                deep_try_all(
                    old(self).api_functions@,
                    old(self).api_dependencies@,
                    DeepState {
                        seqs: old(self).sequences_view(),
                        visited: old(self).api_functions_visited@,
                        nodes: old(nodes)@,
                        edges: old(edges)@,
                        has_new: *old(has_new),
                    },
                    base@,
                    0,
                ) == deep_try_all(
                    self.api_functions@,
                    self.api_dependencies@,
                    DeepState {
                        seqs: self.sequences_view(),
                        visited: self.api_functions_visited@,
                        nodes: nodes@,
                        edges: edges@,
                        has_new: *has_new,
                    },
                    base@,
                    f as int,
                ),
            decreases n - f,
        {
            if let Some(new_sequence) = self.is_fun_satisfied(&ApiType::BareFunction, f, base) {
                let covered_nodes = new_sequence.get_contained_api_functions();
                let new_nodes = note_coverage(nodes, &covered_nodes);
                let new_edges = note_coverage(edges, &new_sequence.covered_dependencies);
                if new_nodes || new_edges {
                    *has_new = true;
                }
                let ghost before = self.api_sequences@;
                self.api_sequences.push(new_sequence);
                self.api_functions_visited.set(f, true);
                proof {
                    assert(self.sequences_view() =~= views(before).push(new_sequence@));
                    assert forall|s: int| 0 <= s < self.api_sequences@.len() implies {
                        &&& (#[trigger] self.api_sequences@[s])@.consistent()
                        &&& self.api_sequences@[s]@.refers_within(self.api_functions@.len())
                    } by {
                        if s < before.len() {
                            assert(self.api_sequences@[s] == before[s]);
                        }
                    }
                }
            }
            f = f + 1;
        }
    }

    /// A search for long sequences on large crates: breadth first from the
    /// empty sequence, not past end functions, for as long as each round
    /// covers a new function or dependency and, past length two, the number
    /// of sequences times the number of visited functions stays below
    /// `max_sequence_number`. The sequences there were are dropped.
    pub fn _try_deep_bfs(&mut self, max_sequence_number: usize)
        ensures
            (final(self).sequences_view(), final(self).api_functions_visited@) == spec_try_deep_bfs(
                old(self).api_functions@,
                old(self).api_dependencies@,
                max_sequence_number as int,
            ),
            final(self).well_formed(),
            final(self).visited_ok(),
            final(self).api_functions@ == old(self).api_functions@,
            final(self).api_dependencies@ == old(self).api_dependencies@,
            final(self)._crate_name == old(self)._crate_name,
            search_frame(*old(self), *final(self)),
    {
        self.api_sequences.clear();
        self.reset_visited();
        let max_len = self.api_functions.len();
        if max_len < 1 {
            proof {
                assert(self.sequences_view() =~= Seq::<SequenceView>::empty());
            }
            return;
        }
        let ghost fns = self.api_functions@;
        let ghost deps = self.api_dependencies@;
        self.api_sequences.push(ApiSequence::new());
        let mut nodes: Vec<usize> = Vec::new();
        let mut edges: Vec<usize> = Vec::new();
        let mut has_new = false;
        proof {
            assert(self.sequences_view() =~= seq![SequenceView::empty()]);
            assert(nodes@ =~= Seq::<usize>::empty());
            assert(edges@ =~= Seq::<usize>::empty());
        }
        let mut len: usize = 0;
        while len < max_len
            invariant
                search_frame(*old(self), *self),
                len <= max_len,
                max_len == fns.len(),
                fns == self.api_functions@,
                deps == self.api_dependencies@,
                fns == old(self).api_functions@,
                deps == old(self).api_dependencies@,
                self._crate_name == old(self)._crate_name,
                self.well_formed(),
                self.visited_ok(),
                spec_try_deep_bfs(fns, deps, max_sequence_number as int) == ({
                    let st = deep_levels(
                        fns,
                        deps,
                        DeepState {
                            seqs: self.sequences_view(),
                            visited: self.api_functions_visited@,
                            nodes: nodes@,
                            edges: edges@,
                            has_new,
                        },
                        len as int,
                        max_len as int,
                        max_sequence_number as int,
                    );
                    (st.seqs, st.visited)
                }),
            decreases max_len - len,
        {
            let current_sequence_number = self.api_sequences.len();
            let covered_nodes = self._visited_nodes_num();
            proof {
                assert(self.sequences_view().len() == current_sequence_number);
            }
            let too_many = match current_sequence_number.checked_mul(covered_nodes) {
                Some(product) => product >= max_sequence_number,
                None => true,
            };
            if len > 2 && too_many {
                return;
            }
            has_new = false;
            let tmp_sequences = self.sequences_of_length(len, true);
            let ghost start = DeepState {
                seqs: self.sequences_view(),
                visited: self.api_functions_visited@,
                nodes: nodes@,
                edges: edges@,
                has_new: false,
            };
            let mut t: usize = 0;
            while t < tmp_sequences.len()
                invariant
                    search_frame(*old(self), *self),
                    t <= tmp_sequences@.len(),
                    fns == self.api_functions@,
                    deps == self.api_dependencies@,
                    self._crate_name == old(self)._crate_name,
                    self.well_formed(),
                    self.visited_ok(),
                    forall|u: int| 0 <= u < tmp_sequences@.len() ==> {
                        &&& (#[trigger] tmp_sequences@[u])@.consistent()
                        &&& tmp_sequences@[u]@.refers_within(fns.len())
                    },
                    deep_extend_each(fns, deps, start, views(tmp_sequences@), 0) == deep_extend_each(
                        fns,
                        deps,
                        DeepState {
                            seqs: self.sequences_view(),
                            visited: self.api_functions_visited@,
                            nodes: nodes@,
                            edges: edges@,
                            has_new,
                        },
                        views(tmp_sequences@),
                        t as int,
                    ),
                decreases tmp_sequences.len() - t,
            {
                self.extend_deep(&tmp_sequences[t], &mut nodes, &mut edges, &mut has_new);
                t = t + 1;
            }
            if !has_new {
                return;
            }
            len = len + 1;
        }
    }
}

/// Whether the random walk passes over sequence `si`: it ends in an end
/// function and the walk stops there, or it is `max_depth` calls long
/// already (when `max_depth` bounds the depth at all).
pub open spec fn walk_skips(fns: Seq<ApiFunction>, seqs: Seq<SequenceView>, si: int, stop: bool, max_depth: int) -> bool {
    (stop && seq_ended(fns, seqs[si])) || (max_depth > 0 && seqs[si].len() >= max_depth)
}

/// Tries function `fi` after sequence `si`; a success is appended and marks
/// `fi` visited.
pub open spec fn extend_at(
    fns: Seq<ApiFunction>,
    deps: Seq<ApiDependency>,
    seqs: Seq<SequenceView>,
    visited: Seq<bool>,
    si: int,
    fi: int,
) -> (Seq<SequenceView>, Seq<bool>) {
    match spec_is_fun_satisfied(fns, deps, ApiType::BareFunction, fi as usize, seqs[si]) {
        Some(ns) => (seqs.push(ns), visited.update(fi, true)),
        None => (seqs, visited),
    }
}

/// Sequence `s` of `seqs` extends an earlier one by a call of a function
/// of the graph, and ends with that call.
pub open spec fn grown_at(fns: Seq<ApiFunction>, deps: Seq<ApiDependency>, seqs: Seq<SequenceView>, s: int) -> bool {
    exists|p: int, f: usize|
        #![trigger spec_is_fun_satisfied(fns, deps, ApiType::BareFunction, f, seqs[p])]
        0 <= p < s && f < fns.len()
            && spec_is_fun_satisfied(fns, deps, ApiType::BareFunction, f, seqs[p]) == Some(seqs[s])
            && seqs[s].last_func_index() == Some(f)
}

/// Every sequence from position `start` on extends an earlier one by a
/// call of a function of the graph.
pub open spec fn grown_from(fns: Seq<ApiFunction>, deps: Seq<ApiDependency>, seqs: Seq<SequenceView>, start: int) -> bool {
    forall|s: int| start <= s < seqs.len() ==> #[trigger] grown_at(fns, deps, seqs, s)
}

/// A function is visited exactly when a sequence from position `start` on
/// ends with a call of it.
pub open spec fn visited_matches(seqs: Seq<SequenceView>, visited: Seq<bool>, start: int) -> bool {
    forall|f: int| 0 <= f < visited.len() ==> (#[trigger] visited[f] <==> exists|s: int|
        start <= s < seqs.len() && seqs[s].last_func_index() == Some(f as usize))
}

/// Sequence `s` of `seqs` extends, by a call of a function of the graph,
/// an earlier one that the random walk does not pass over.
pub open spec fn walk_grown_at(
    fns: Seq<ApiFunction>,
    deps: Seq<ApiDependency>,
    seqs: Seq<SequenceView>,
    stop: bool,
    max_depth: int,
    s: int,
) -> bool {
    exists|p: int, f: usize|
        #![trigger spec_is_fun_satisfied(fns, deps, ApiType::BareFunction, f, seqs[p])]
        0 <= p < s && f < fns.len() && !walk_skips(fns, seqs, p, stop, max_depth)
            && spec_is_fun_satisfied(fns, deps, ApiType::BareFunction, f, seqs[p]) == Some(seqs[s])
}

/// Every sequence from position one on extends, by a call of a function
/// of the graph, an earlier one that the random walk does not pass over.
pub open spec fn walk_grown(
    fns: Seq<ApiFunction>,
    deps: Seq<ApiDependency>,
    seqs: Seq<SequenceView>,
    stop: bool,
    max_depth: int,
) -> bool {
    forall|s: int| 1 <= s < seqs.len() ==> #[trigger] walk_grown_at(fns, deps, seqs, stop, max_depth, s)
}

proof fn lemma_walk_push(
    fns: Seq<ApiFunction>,
    deps: Seq<ApiDependency>,
    seqs: Seq<SequenceView>,
    stop: bool,
    max_depth: int,
    si: int,
    f: usize,
    ns: SequenceView,
)
    requires
        walk_grown(fns, deps, seqs, stop, max_depth),
        0 <= si < seqs.len(),
        f < fns.len(),
        !walk_skips(fns, seqs, si, stop, max_depth),
        spec_is_fun_satisfied(fns, deps, ApiType::BareFunction, f, seqs[si]) == Some(ns),
    ensures
        walk_grown(fns, deps, seqs.push(ns), stop, max_depth),
{
    let nv = seqs.push(ns);
    assert forall|s: int| 1 <= s < nv.len() implies #[trigger] walk_grown_at(fns, deps, nv, stop, max_depth, s) by {
        if s < seqs.len() {
            assert(nv[s] == seqs[s]);
            assert(walk_grown_at(fns, deps, seqs, stop, max_depth, s));
            let (p, g) = choose|p: int, g: usize|
                #![trigger spec_is_fun_satisfied(fns, deps, ApiType::BareFunction, g, seqs[p])]
                0 <= p < s && g < fns.len() && !walk_skips(fns, seqs, p, stop, max_depth)
                    && spec_is_fun_satisfied(fns, deps, ApiType::BareFunction, g, seqs[p]) == Some(seqs[s]);
            assert(nv[p] == seqs[p]);
            assert(spec_is_fun_satisfied(fns, deps, ApiType::BareFunction, g, nv[p]) == Some(nv[s]));
        } else {
            assert(nv[si] == seqs[si]);
            assert(spec_is_fun_satisfied(fns, deps, ApiType::BareFunction, f, nv[si]) == Some(nv[s]));
        }
    }
}

/// One step of the random walk on the drawn pair `draw` (a position among
/// the sequences, a function): nothing happens when the walk passes over
/// that sequence, else the function is tried after it.
pub open spec fn walk_step(
    fns: Seq<ApiFunction>,
    deps: Seq<ApiDependency>,
    st: (Seq<SequenceView>, Seq<bool>),
    draw: (int, int),
    stop: bool,
    max_depth: int,
) -> (Seq<SequenceView>, Seq<bool>) {
    if walk_skips(fns, st.0, draw.0, stop, max_depth) {
        st
    } else {
        extend_at(fns, deps, st.0, st.1, draw.0, draw.1)
    }
}

/// The random walk on the draws `draws`, from the empty sequence alone and
/// no function visited.
pub open spec fn spec_walk(
    fns: Seq<ApiFunction>,
    deps: Seq<ApiDependency>,
    draws: Seq<(int, int)>,
    stop: bool,
    max_depth: int,
) -> (Seq<SequenceView>, Seq<bool>)
    decreases draws.len(),
{
    if draws.len() == 0 {
        (seq![SequenceView::empty()], Seq::new(fns.len(), |i: int| false))
    } else {
        walk_step(fns, deps, spec_walk(fns, deps, draws.drop_last(), stop, max_depth), draws.last(), stop, max_depth)
    }
}

/// Each draw names a sequence that exists when it is drawn and a function
/// of the graph.
pub open spec fn draws_in_range(
    fns: Seq<ApiFunction>,
    deps: Seq<ApiDependency>,
    draws: Seq<(int, int)>,
    stop: bool,
    max_depth: int,
) -> bool {
    forall|k: int|
        0 <= k < draws.len() ==> 0 <= (#[trigger] draws[k]).0 < spec_walk(fns, deps, draws.take(k), stop, max_depth).0.len()
            && 0 <= draws[k].1 < fns.len()
}

impl ApiGraph {
    pub fn walk_skips(&self, chosen_sequence_index: usize, stop_at_end_function: bool, max_depth: usize) -> (r: bool)
        requires
            self.well_formed(),
            chosen_sequence_index < self.api_sequences@.len(),
        ensures
            r == walk_skips(
                self.api_functions@,
                self.sequences_view(),
                chosen_sequence_index as int,
                stop_at_end_function,
                max_depth as int,
            ),
    {
        let chosen_sequence = &self.api_sequences[chosen_sequence_index];
        if stop_at_end_function && self.is_sequence_ended(chosen_sequence) {
            return true;
        }
        max_depth > 0 && chosen_sequence.len() >= max_depth
    }

    /// Tries function `chosen_fun_index` after sequence
    /// `chosen_sequence_index`; a success is appended and marks the
    /// function visited.
    pub fn extend_sequence(&mut self, chosen_sequence_index: usize, chosen_fun_index: usize)
        requires
            old(self).well_formed(),
            old(self).visited_ok(),
            chosen_sequence_index < old(self).api_sequences@.len(),
            chosen_fun_index < old(self).api_functions@.len(),
        ensures
            (final(self).sequences_view(), final(self).api_functions_visited@) == extend_at(
                old(self).api_functions@,
                old(self).api_dependencies@,
                old(self).sequences_view(),
                old(self).api_functions_visited@,
                chosen_sequence_index as int,
                chosen_fun_index as int,
            ),
            final(self).sequences_view().len() > old(self).sequences_view().len() ==> final(self).sequences_view().last()
                .last_func_index() == Some(chosen_fun_index),
            final(self).well_formed(),
            final(self).visited_ok(),
            final(self).api_functions@ == old(self).api_functions@,
            final(self).api_dependencies@ == old(self).api_dependencies@,
            final(self)._crate_name == old(self)._crate_name,
            search_frame(*old(self), *final(self)),
    {
        proof {
            assert(self.api_sequences@[chosen_sequence_index as int]@.consistent());
        }
        let found = self.is_fun_satisfied(
            &ApiType::BareFunction,
            chosen_fun_index,
            &self.api_sequences[chosen_sequence_index],
        );
        if let Some(new_sequence) = found {
            proof {
                assert(self.api_sequences@[chosen_sequence_index as int]@.refers_within(self.api_functions@.len()));
            }
            let ghost before = self.api_sequences@;
            self.api_sequences.push(new_sequence);
            self.api_functions_visited.set(chosen_fun_index, true);
            proof {
                assert(self.sequences_view() =~= views(before).push(new_sequence@));
                assert forall|s: int| 0 <= s < self.api_sequences@.len() implies {
                    &&& (#[trigger] self.api_sequences@[s])@.consistent()
                    &&& self.api_sequences@[s]@.refers_within(self.api_functions@.len())
                } by {
                    if s < before.len() {
                        assert(self.api_sequences@[s] == before[s]);
                    }
                }
            }
        }
    }

    /// The random walk: `max_size` times, picks a sequence at random and,
    /// unless it is passed over, a function at random to call after it.
    /// The sequences there were are dropped; the walk starts from the empty
    /// sequence alone.
    pub fn random_walk(&mut self, max_size: usize, stop_at_end_function: bool, max_depth: usize)
        ensures
            final(self).well_formed(),
            final(self).visited_ok(),
            final(self).api_functions@ == old(self).api_functions@,
            final(self).api_dependencies@ == old(self).api_dependencies@,
            final(self)._crate_name == old(self)._crate_name,
            old(self).api_functions@.len() == 0 ==> final(self).sequences_view().len() == 0,
            old(self).api_functions@.len() > 0 ==> {
                &&& final(self).sequences_view().len() >= 1
                &&& final(self).sequences_view()[0] == SequenceView::empty()
                &&& final(self).sequences_view().len() <= max_size + 1
                &&& grown_from(old(self).api_functions@, old(self).api_dependencies@, final(self).sequences_view(), 1)
                &&& walk_grown(
                    old(self).api_functions@,
                    old(self).api_dependencies@,
                    final(self).sequences_view(),
                    stop_at_end_function,
                    max_depth as int,
                )
                &&& visited_matches(final(self).sequences_view(), final(self).api_functions_visited@, 1)
                &&& forall|s: int| 0 <= s < final(self).sequences_view().len() ==> calls_fit(
                    old(self).api_functions@,
                    old(self).api_dependencies@,
                    #[trigger] final(self).sequences_view()[s],
                )
                &&& exists|draws: Seq<(int, int)>| {
                    &&& draws.len() == max_size
                    &&& draws_in_range(old(self).api_functions@, old(self).api_dependencies@, draws, stop_at_end_function, max_depth as int)
                    &&& (final(self).sequences_view(), final(self).api_functions_visited@) == spec_walk(
                        old(self).api_functions@,
                        old(self).api_dependencies@,
                        draws,
                        stop_at_end_function,
                        max_depth as int,
                    )
                }
            },
            search_frame(*old(self), *final(self)),
    {
        self.api_sequences.clear();
        self.reset_visited();
        let function_len = self.api_functions.len();
        if function_len == 0 {
            proof {
                assert(self.sequences_view() =~= Seq::<SequenceView>::empty());
            }
            return;
        }
        let ghost fns = self.api_functions@;
        let ghost deps = self.api_dependencies@;
        self.api_sequences.push(ApiSequence::new());
        proof {
            assert(self.sequences_view() =~= seq![SequenceView::empty()]);
        }
        let ghost mut draws: Seq<(int, int)> = Seq::empty();
        proof {
            assert(self.api_functions_visited@ =~= Seq::new(fns.len(), |i: int| false));
            assert((self.sequences_view(), self.api_functions_visited@) == spec_walk(fns, deps, draws, stop_at_end_function,
                max_depth as int));
        }
        let mut rng = thread_rng();
        let mut i: usize = 0;
        while i < max_size
            invariant
                search_frame(*old(self), *self),
                draws.len() == i,
                draws_in_range(fns, deps, draws, stop_at_end_function, max_depth as int),
                (self.sequences_view(), self.api_functions_visited@) == spec_walk(fns, deps, draws, stop_at_end_function,
                    max_depth as int),
                i <= max_size,
                function_len == fns.len(),
                function_len > 0,
                fns == self.api_functions@,
                deps == self.api_dependencies@,
                fns == old(self).api_functions@,
                deps == old(self).api_dependencies@,
                self._crate_name == old(self)._crate_name,
                self.well_formed(),
                self.visited_ok(),
                1 <= self.sequences_view().len() <= i + 1,
                self.sequences_view()[0] == SequenceView::empty(),
                grown_from(fns, deps, self.sequences_view(), 1),
                walk_grown(fns, deps, self.sequences_view(), stop_at_end_function, max_depth as int),
                visited_matches(self.sequences_view(), self.api_functions_visited@, 1),
            decreases max_size - i,
        {
            let current_sequence_len = self.api_sequences.len();
            let chosen_sequence_index = gen_range(&mut rng, 0, current_sequence_len);
            let ghost before = (self.sequences_view(), self.api_functions_visited@);
            let ghost mut drawn_fun: int = 0;
            if !self.walk_skips(chosen_sequence_index, stop_at_end_function, max_depth) {
                let chosen_fun_index = gen_range(&mut rng, 0, function_len);
                proof {
                    drawn_fun = chosen_fun_index as int;
                }
                let ghost sv = self.sequences_view();
                let ghost vis = self.api_functions_visited@;
                self.extend_sequence(chosen_sequence_index, chosen_fun_index);
                proof {
                    let nv = self.sequences_view();
                    if nv.len() > sv.len() {
                        assert(nv == sv.push(nv.last()));
                        assert(spec_is_fun_satisfied(fns, deps, ApiType::BareFunction, chosen_fun_index,
                            sv[chosen_sequence_index as int]) == Some(nv.last()));
                        lemma_walk_push(fns, deps, sv, stop_at_end_function, max_depth as int, chosen_sequence_index as int,
                            chosen_fun_index, nv.last());
                        lemma_push_grown_from(fns, deps, sv, 1, chosen_sequence_index as int, chosen_fun_index,
                            nv.last());
                        assert forall|f: int| 0 <= f < self.api_functions_visited@.len() implies (
                            #[trigger] self.api_functions_visited@[f] <==> exists|s: int|
                            1 <= s < nv.len() && nv[s].last_func_index() == Some(f as usize)) by {
                            if f == chosen_fun_index {
                                assert(nv[nv.len() - 1].last_func_index() == Some(f as usize));
                            } else {
                                if exists|s: int| 1 <= s < nv.len() && nv[s].last_func_index() == Some(f as usize) {
                                    let s = choose|s: int| 1 <= s < nv.len() && nv[s].last_func_index() == Some(f as usize);
                                    assert(s < sv.len());
                                    assert(sv[s] == nv[s]);
                                }
                                if vis[f] {
                                    let s = choose|s: int| 1 <= s < sv.len() && sv[s].last_func_index() == Some(f as usize);
                                    assert(sv[s] == nv[s]);
                                }
                            }
                        }
                    }
                }
            }
            proof {
                let d = (chosen_sequence_index as int, drawn_fun);
                let nd = draws.push(d);
                assert(nd.drop_last() =~= draws);
                assert(nd.last() == d);
                assert((self.sequences_view(), self.api_functions_visited@) == walk_step(fns, deps, before, d,
                    stop_at_end_function, max_depth as int));
                assert forall|k: int| 0 <= k < nd.len() implies 0 <= (#[trigger] nd[k]).0 < spec_walk(fns, deps, nd.take(k),
                    stop_at_end_function, max_depth as int).0.len() && 0 <= nd[k].1 < fns.len() by {
                    if k < draws.len() {
                        assert(nd.take(k) =~= draws.take(k));
                        assert(nd[k] == draws[k]);
                    } else {
                        assert(nd.take(k) =~= draws);
                    }
                }
                draws = nd;
            }
            i = i + 1;
        }
        let dependency_number = self.api_dependencies.len();
        proof {
            let seqs = self.sequences_view();
            assert(dependency_number == deps.len());
            assert forall|j: int| 0 <= j < 1 && j < seqs.len() implies calls_fit(fns, deps, #[trigger] seqs[j]) by {
                assert(seqs[j] == SequenceView::empty());
            }
            lemma_grown_sequences_fit(fns, deps, seqs, 1);
        }
    }
}

} // verus!
