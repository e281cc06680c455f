//! Building a sequence backwards from a chosen last call: each parameter
//! that a fuzzer cannot supply is given the result of a function with a
//! lower index, itself built backwards the same way.
use vstd::prelude::*;
use crate::graph::{ApiGraph, dep_matches, spec_check_dependency};
use crate::model::{ApiDependency, ApiFunction, ApiType, FuzzableType};
use crate::sequence::{ApiCall, CallParam, CallView, ParamType, calls_view, set_union};
use crate::util::{insert_index, seq_insert};

verus! {

/// The abstract value of a sequence built backwards: its first call is the
/// last one to be made.
pub struct ReverseView {
    pub functions: Seq<CallView>,
    pub fuzzable_params: Seq<FuzzableType>,
    pub unsafe_tag: bool,
    pub function_mut_tag: Seq<usize>,
    pub fuzzable_mut_tag: Seq<usize>,
    pub covered_dependencies: Seq<usize>,
}

/// A sequence built backwards.
pub struct ReverseApiSequence {
    pub functions: Vec<ApiCall>,
    pub fuzzable_params: Vec<FuzzableType>,
    pub unsafe_tag: bool,
    pub function_mut_tag: Vec<usize>,
    pub fuzzable_mut_tag: Vec<usize>,
    pub covered_dependencies: Vec<usize>,
}

impl View for ReverseApiSequence {
    type V = ReverseView;

    open spec fn view(&self) -> ReverseView {
        ReverseView {
            functions: calls_view(self.functions@),
            fuzzable_params: self.fuzzable_params@,
            unsafe_tag: self.unsafe_tag,
            function_mut_tag: self.function_mut_tag@,
            fuzzable_mut_tag: self.fuzzable_mut_tag@,
            covered_dependencies: self.covered_dependencies@,
        }
    }
}

/// `a` followed by `b`: the calls and inputs one after the other, the
/// index sets joined.
pub open spec fn combine(a: ReverseView, b: ReverseView) -> ReverseView {
    ReverseView {
        functions: a.functions + b.functions,
        fuzzable_params: a.fuzzable_params + b.fuzzable_params,
        unsafe_tag: a.unsafe_tag || b.unsafe_tag,
        function_mut_tag: set_union(a.function_mut_tag, b.function_mut_tag),
        fuzzable_mut_tag: set_union(a.fuzzable_mut_tag, b.fuzzable_mut_tag),
        covered_dependencies: set_union(a.covered_dependencies, b.covered_dependencies),
    }
}

/// `a` combined with each of `bs` in turn.
pub open spec fn combine_all(a: ReverseView, bs: Seq<ReverseView>) -> ReverseView
    decreases bs.len(),
{
    if bs.len() == 0 {
        a
    } else {
        combine(combine_all(a, bs.drop_last()), bs.last())
    }
}

/// The state while the parameters of the last call are supplied.
pub struct RevState {
    pub seq: ReverseView,
    pub params: Seq<CallParam>,
    pub param_seqs: Seq<ReverseView>,
    pub current_param_index: int,
}

/// Considers function `o` (below `t`) as the source of parameter `k` of
/// `t`: it is taken when it has a dependency to the parameter and can
/// itself be built backwards.
pub open spec fn rev_scan_step(fns: Seq<ApiFunction>, deps: Seq<ApiDependency>, t: usize, k: usize, st: RevState, o: int) -> (RevState, bool)
    decreases t, 0int, 0int,
{
    if o >= t || o < 0 || o >= fns.len() {
        (st, false)
    } else {
        match spec_check_dependency(deps, (ApiType::BareFunction, o as usize), (ApiType::BareFunction, t), k) {
            None => (st, false),
            Some(d) => match spec_reverse_construct(fns, deps, o as usize) {
                None => (st, false),
                Some(ps) => {
                    let ct = deps[d as int].call_type;
                    let s1 = ReverseView { covered_dependencies: seq_insert(st.seq.covered_dependencies, d), ..st.seq };
                    let s2 = if ct.needs_mut_tag {
                        ReverseView { function_mut_tag: seq_insert(s1.function_mut_tag, st.current_param_index as usize), ..s1 }
                    } else {
                        s1
                    };
                    let s3 = if ct.is_unsafe {
                        ReverseView { unsafe_tag: true, ..s2 }
                    } else {
                        s2
                    };
                    let param = CallParam {
                        param_type: ParamType::FunctionReturn,
                        index: st.current_param_index as usize,
                        call_type: ct,
                    };
                    (
                        RevState {
                            seq: s3,
                            params: st.params.push(param),
                            param_seqs: st.param_seqs.push(ps),
                            current_param_index: st.current_param_index + ps.functions.len(),
                        },
                        true,
                    )
                },
            },
        }
    }
}

/// Looks, among functions `o` onwards below `t`, for the first one that
/// can supply parameter `k` of `t`.
pub open spec fn rev_scan(fns: Seq<ApiFunction>, deps: Seq<ApiDependency>, t: usize, k: usize, st: RevState, o: int) -> Option<RevState>
    decreases t, 0int, t - o + 1,
{
    if o >= t || o < 0 || o >= fns.len() {
        None
    } else {
        let (st1, found) = rev_scan_step(fns, deps, t, k, st, o);
        if found {
            Some(st1)
        } else {
            rev_scan(fns, deps, t, k, st, o + 1)
        }
    }
}

/// Supplies the parameters of `t` from parameter `k` on.
pub open spec fn rev_params(fns: Seq<ApiFunction>, deps: Seq<ApiDependency>, t: usize, st: RevState, k: int) -> Option<RevState>
    decreases t, 1int, fns[t as int].inputs@.len() - k,
{
    if t >= fns.len() || k >= fns[t as int].inputs@.len() || k < 0 {
        Some(st)
    } else {
        let p = fns[t as int].inputs@[k];
        if p.fuzzable_plain {
            if p.fuzz_type == FuzzableType::NoFuzzable {
                None
            } else {
                let idx = st.seq.fuzzable_params.len() as usize;
                let s1 = if p.fuzz_call.needs_mut_tag {
                    ReverseView { fuzzable_mut_tag: seq_insert(st.seq.fuzzable_mut_tag, idx), ..st.seq }
                } else {
                    st.seq
                };
                let s2 = ReverseView { fuzzable_params: s1.fuzzable_params.push(p.fuzz_type), ..s1 };
                let param = CallParam { param_type: ParamType::FuzzableType, index: idx, call_type: p.fuzz_call };
                rev_params(fns, deps, t, RevState { seq: s2, params: st.params.push(param), ..st }, k + 1)
            }
        } else {
            match rev_scan(fns, deps, t, k as usize, st, 0) {
                None => None,
                Some(st1) => if st1.current_param_index > usize::MAX {
                    None
                } else {
                    rev_params(fns, deps, t, st1, k + 1)
                },
            }
        }
    }
}

/// The sequence built backwards from a last call of function `t`; `None`
/// when a parameter can be supplied neither by the fuzzer nor by a function
/// of lower index, or when the sequence would not fit in memory.
pub open spec fn spec_reverse_construct(fns: Seq<ApiFunction>, deps: Seq<ApiDependency>, t: usize) -> Option<ReverseView>
    decreases t, 2int, 0int,
{
    let empty = ReverseView {
        functions: Seq::empty(),
        fuzzable_params: Seq::empty(),
        unsafe_tag: false,
        function_mut_tag: Seq::empty(),
        fuzzable_mut_tag: Seq::empty(),
        covered_dependencies: Seq::empty(),
    };
    match rev_params(fns, deps, t, RevState { seq: empty, params: Seq::empty(), param_seqs: Seq::empty(), current_param_index: 1 }, 0) {
        None => None,
        Some(st) => {
            let head = ReverseView {
                functions: st.seq.functions.push(CallView { func: (ApiType::BareFunction, t), params: st.params }),
                ..st.seq
            };
            Some(combine_all(head, st.param_seqs))
        },
    }
}

pub open spec fn empty_reverse() -> ReverseView {
    ReverseView {
        functions: Seq::empty(),
        fuzzable_params: Seq::empty(),
        unsafe_tag: false,
        function_mut_tag: Seq::empty(),
        fuzzable_mut_tag: Seq::empty(),
        covered_dependencies: Seq::empty(),
    }
}

/// Adds each of `items` to `set`.
fn union_into(set: &mut Vec<usize>, items: &Vec<usize>)
    ensures
        final(set)@ == set_union(old(set)@, items@),
{
    let mut k: usize = 0;
    while k < items.len()
        invariant
            k <= items@.len(),
            set@ == set_union(old(set)@, items@.take(k as int)),
        decreases items.len() - k,
    {
        proof {
            assert(items@.take(k + 1).drop_last() =~= items@.take(k as int));
        }
        insert_index(set, items[k]);
        k = k + 1;
    }
    proof {
        assert(items@.take(k as int) =~= items@);
    }
}

impl ReverseApiSequence {
    pub fn new() -> (r: Self)
        ensures
            r@ == empty_reverse(),
    {
        let r = ReverseApiSequence {
            functions: Vec::new(),
            fuzzable_params: Vec::new(),
            unsafe_tag: false,
            function_mut_tag: Vec::new(),
            fuzzable_mut_tag: Vec::new(),
            covered_dependencies: Vec::new(),
        };
        proof {
            assert(r@.functions =~= Seq::<CallView>::empty());
        }
        r
    }

    /// Appends the calls and inputs of `other` and joins the index sets.
    pub fn combine(&mut self, other: &ReverseApiSequence)
        ensures
            final(self)@ == combine(old(self)@, other@),
    {
        let mut c: usize = 0;
        while c < other.functions.len()
            invariant
                c <= other.functions@.len(),
                self.functions@.len() == old(self).functions@.len() + c,
                calls_view(self.functions@) == calls_view(old(self).functions@) + calls_view(other.functions@).take(c as int),
                self.fuzzable_params == old(self).fuzzable_params,
                self.unsafe_tag == old(self).unsafe_tag,
                self.function_mut_tag == old(self).function_mut_tag,
                self.fuzzable_mut_tag == old(self).fuzzable_mut_tag,
                self.covered_dependencies == old(self).covered_dependencies,
            decreases other.functions.len() - c,
        {
            let call = other.functions[c].duplicate();
            let ghost prev = self.functions@;
            self.functions.push(call);
            proof {
                assert(calls_view(self.functions@) =~= calls_view(prev).push(call@));
                assert(calls_view(other.functions@).take(c + 1) =~= calls_view(other.functions@).take(c as int).push(
                    other.functions@[c as int]@));
            }
            c = c + 1;
        }
        proof {
            assert(calls_view(other.functions@).take(c as int) =~= calls_view(other.functions@));
        }
        let mut z: usize = 0;
        while z < other.fuzzable_params.len()
            invariant
                z <= other.fuzzable_params@.len(),
                self.fuzzable_params@ == old(self).fuzzable_params@ + other.fuzzable_params@.take(z as int),
                calls_view(self.functions@) == calls_view(old(self).functions@) + calls_view(other.functions@),
                self.unsafe_tag == old(self).unsafe_tag,
                self.function_mut_tag == old(self).function_mut_tag,
                self.fuzzable_mut_tag == old(self).fuzzable_mut_tag,
                self.covered_dependencies == old(self).covered_dependencies,
            decreases other.fuzzable_params.len() - z,
        {
            self.fuzzable_params.push(other.fuzzable_params[z]);
            proof {
                assert(old(self).fuzzable_params@ + other.fuzzable_params@.take(z + 1) =~= (old(self).fuzzable_params@
                    + other.fuzzable_params@.take(z as int)).push(other.fuzzable_params@[z as int]));
            }
            z = z + 1;
        }
        proof {
            assert(other.fuzzable_params@.take(z as int) =~= other.fuzzable_params@);
        }
        if other.unsafe_tag {
            self.unsafe_tag = true;
        }
        union_into(&mut self.function_mut_tag, &other.function_mut_tag);
        union_into(&mut self.fuzzable_mut_tag, &other.fuzzable_mut_tag);
        union_into(&mut self.covered_dependencies, &other.covered_dependencies);
    }
}

/// Every call of `fs` is of an ordinary function of index at most `bound`.
pub open spec fn calls_within(fs: Seq<CallView>, bound: int) -> bool {
    forall|i: int| 0 <= i < fs.len() ==> (#[trigger] fs[i]).func.0 == ApiType::BareFunction && fs[i].func.1 <= bound
}

proof fn lemma_combine_all_prefix(a: ReverseView, bs: Seq<ReverseView>)
    ensures
        combine_all(a, bs).functions.len() >= a.functions.len(),
        forall|i: int| 0 <= i < a.functions.len() ==> #[trigger] combine_all(a, bs).functions[i] == a.functions[i],
    decreases bs.len(),
{
    if bs.len() > 0 {
        lemma_combine_all_prefix(a, bs.drop_last());
        let c = combine_all(a, bs.drop_last());
        let f = c.functions + bs.last().functions;
        assert(combine_all(a, bs).functions == f);
        assert forall|i: int| 0 <= i < a.functions.len() implies #[trigger] f[i] == a.functions[i] by {
            assert(f[i] == c.functions[i]);
        }
    }
}

/// What supplying parameters leaves of the state: no call is added yet,
/// and every sequence built for a parameter calls functions below `t`.
pub open spec fn rev_state_ok(st: RevState, t: usize) -> bool {
    &&& st.seq.functions.len() == 0
    &&& forall|j: int| 0 <= j < st.param_seqs.len() ==> calls_within((#[trigger] st.param_seqs[j]).functions, t - 1)
}

proof fn lemma_rev_scan_shape(fns: Seq<ApiFunction>, deps: Seq<ApiDependency>, t: usize, k: usize, st: RevState, o: int)
    requires
        rev_state_ok(st, t),
    ensures
        rev_scan(fns, deps, t, k, st, o) matches Some(s) ==> rev_state_ok(s, t) && s.params.len() == st.params.len() + 1,
    decreases t, 0int, t - o + 1,
{
    if 0 <= o < t && o < fns.len() {
        match spec_check_dependency(deps, (ApiType::BareFunction, o as usize), (ApiType::BareFunction, t), k) {
            None => {},
            Some(d) => {
                lemma_reverse_shape(fns, deps, o as usize);
                match spec_reverse_construct(fns, deps, o as usize) {
                    None => {},
                    Some(ps) => {
                        let (s1, found) = rev_scan_step(fns, deps, t, k, st, o);
                        assert(found);
                        assert forall|j: int| 0 <= j < s1.param_seqs.len() implies calls_within(
                            (#[trigger] s1.param_seqs[j]).functions,
                            t - 1,
                        ) by {
                            if j < st.param_seqs.len() {
                                assert(s1.param_seqs[j] == st.param_seqs[j]);
                            } else {
                                assert(s1.param_seqs[j] == ps);
                            }
                        }
                    },
                }
            },
        }
        let (s1, found) = rev_scan_step(fns, deps, t, k, st, o);
        if !found {
            lemma_rev_scan_shape(fns, deps, t, k, st, o + 1);
        }
    }
}

proof fn lemma_rev_params_shape(fns: Seq<ApiFunction>, deps: Seq<ApiDependency>, t: usize, st: RevState, k: int)
    requires
        rev_state_ok(st, t),
        t < fns.len(),
        0 <= k <= fns[t as int].inputs@.len(),
    ensures
        rev_params(fns, deps, t, st, k) matches Some(s) ==> rev_state_ok(s, t) && s.params.len() == st.params.len()
            + fns[t as int].inputs@.len() - k,
    decreases t, 1int, fns[t as int].inputs@.len() - k,
{
    if k < fns[t as int].inputs@.len() {
        let p = fns[t as int].inputs@[k];
        if p.fuzzable_plain {
            if p.fuzz_type != FuzzableType::NoFuzzable {
                let idx = st.seq.fuzzable_params.len() as usize;
                let s1 = if p.fuzz_call.needs_mut_tag {
                    ReverseView { fuzzable_mut_tag: seq_insert(st.seq.fuzzable_mut_tag, idx), ..st.seq }
                } else {
                    st.seq
                };
                let s2 = ReverseView { fuzzable_params: s1.fuzzable_params.push(p.fuzz_type), ..s1 };
                let param = CallParam { param_type: ParamType::FuzzableType, index: idx, call_type: p.fuzz_call };
                lemma_rev_params_shape(fns, deps, t, RevState { seq: s2, params: st.params.push(param), ..st }, k + 1);
            }
        } else {
            lemma_rev_scan_shape(fns, deps, t, k as usize, st, 0);
            match rev_scan(fns, deps, t, k as usize, st, 0) {
                None => {},
                Some(st1) => {
                    if st1.current_param_index <= usize::MAX {
                        lemma_rev_params_shape(fns, deps, t, st1, k + 1);
                    }
                },
            }
        }
    }
}

/// A sequence built backwards from function `t` begins with the call of
/// `t`, which has one argument per parameter of `t`; every other call in it
/// is of a function of lower index, so the construction cannot run in a
/// circle.
pub proof fn lemma_reverse_shape(fns: Seq<ApiFunction>, deps: Seq<ApiDependency>, t: usize)
    requires
        t < fns.len(),
    ensures
        spec_reverse_construct(fns, deps, t) matches Some(r) ==> {
            &&& r.functions.len() >= 1
            &&& r.functions[0].func == (ApiType::BareFunction, t)
            &&& r.functions[0].params.len() == fns[t as int].inputs@.len()
            &&& forall|i: int| 1 <= i < r.functions.len() ==> (#[trigger] r.functions[i]).func.0 == ApiType::BareFunction
                && r.functions[i].func.1 < t
        },
    decreases t, 2int, 0int,
{
    let empty = ReverseView {
        functions: Seq::empty(),
        fuzzable_params: Seq::empty(),
        unsafe_tag: false,
        function_mut_tag: Seq::empty(),
        fuzzable_mut_tag: Seq::empty(),
        covered_dependencies: Seq::empty(),
    };
    let st0 = RevState { seq: empty, params: Seq::empty(), param_seqs: Seq::empty(), current_param_index: 1 };
    lemma_rev_params_shape(fns, deps, t, st0, 0);
    match rev_params(fns, deps, t, st0, 0) {
        None => {},
        Some(st) => {
            let call = CallView { func: (ApiType::BareFunction, t), params: st.params };
            let head = ReverseView { functions: st.seq.functions.push(call), ..st.seq };
            assert(head.functions[0] == call);
            let tail = st.param_seqs;
            lemma_combine_all_prefix(head, tail);
            let r = combine_all(head, tail);
            assert(r.functions[0] == call);
            lemma_combine_tail_below(head, tail, t as int);
        },
    }
}

proof fn lemma_combine_tail_below(head: ReverseView, bs: Seq<ReverseView>, t: int)
    requires
        head.functions.len() == 1,
        forall|j: int| 0 <= j < bs.len() ==> calls_within((#[trigger] bs[j]).functions, t - 1),
    ensures
        forall|i: int| 1 <= i < combine_all(head, bs).functions.len() ==> (#[trigger] combine_all(head, bs).functions[i]).func.0
            == ApiType::BareFunction && combine_all(head, bs).functions[i].func.1 < t,
    decreases bs.len(),
{
    if bs.len() > 0 {
        lemma_combine_tail_below(head, bs.drop_last(), t);
        let c = combine_all(head, bs.drop_last());
        let l = bs.last();
        assert(calls_within(l.functions, t - 1)) by {
            assert(bs[bs.len() - 1] == l);
        }
        let f = c.functions + l.functions;
        assert(combine_all(head, bs).functions == f);
        assert forall|i: int| 1 <= i < f.len() implies (#[trigger] f[i]).func.0 == ApiType::BareFunction && f[i].func.1
            < t by {
            if i < c.functions.len() {
                assert(f[i] == c.functions[i]);
            } else {
                assert(f[i] == l.functions[i - c.functions.len()]);
            }
        }
    }
}

pub open spec fn mk_rev(seq: ReverseView, params: Seq<CallParam>, param_seqs: Seq<ReverseView>, current_param_index: int) -> RevState {
    RevState { seq, params, param_seqs, current_param_index }
}

pub open spec fn rev_views(v: Seq<ReverseApiSequence>) -> Seq<ReverseView> {
    v.map_values(|r: ReverseApiSequence| r@)
}

/// The number of calls in the sequences `bs` together.
pub open spec fn sum_len(bs: Seq<ReverseView>) -> int
    decreases bs.len(),
{
    if bs.len() == 0 {
        0
    } else {
        sum_len(bs.drop_last()) + bs.last().functions.len()
    }
}

/// The calls of the sequences `bs`, one sequence after the other.
pub open spec fn flat_calls(bs: Seq<ReverseView>) -> Seq<CallView>
    decreases bs.len(),
{
    if bs.len() == 0 {
        Seq::empty()
    } else {
        flat_calls(bs.drop_last()) + bs.last().functions
    }
}

/// How many of `params` take the result of a call.
pub open spec fn result_count(params: Seq<CallParam>) -> int
    decreases params.len(),
{
    if params.len() == 0 {
        0
    } else {
        result_count(params.drop_last()) + (if params.last().param_type == ParamType::FunctionReturn { 1int } else { 0int })
    }
}

/// `ps` is the sequence built backwards from the function of its first
/// call.
#[verifier::opaque]
pub open spec fn self_built(fns: Seq<ApiFunction>, deps: Seq<ApiDependency>, ps: ReverseView) -> bool {
    ps.functions.len() >= 1 && spec_reverse_construct(fns, deps, ps.functions[0].func.1) == Some(ps)
}

/// Position `i` of `calls` starts a stretch that is exactly the sequence
/// built backwards from the function called there.
pub open spec fn built_at(fns: Seq<ApiFunction>, deps: Seq<ApiDependency>, calls: Seq<CallView>, i: int) -> bool {
    &&& 1 <= i < calls.len()
    &&& spec_reverse_construct(fns, deps, calls[i].func.1) matches Some(ps) && i + ps.functions.len() <= calls.len()
        && calls.subrange(i, i + ps.functions.len()) == ps.functions
}

/// The length of the sequence built backwards from the function called at
/// position `i` of `calls`.
pub open spec fn built_len(fns: Seq<ApiFunction>, deps: Seq<ApiDependency>, calls: Seq<CallView>, i: int) -> int {
    match spec_reverse_construct(fns, deps, calls[i].func.1) {
        Some(ps) => ps.functions.len() as int,
        None => 0,
    }
}

/// What supplying the first `k` parameters of `t` has recorded: the
/// position of the next sub-sequence follows the ones built so far; each
/// parameter that takes a result points at the start of its own
/// sub-sequence, whose first function has a dependency to it and is below
/// `t`; each sub-sequence is what building backwards from its first
/// function gives.
#[verifier::opaque]
pub open spec fn rev_slots(fns: Seq<ApiFunction>, deps: Seq<ApiDependency>, t: usize, st: RevState, k: int) -> bool {
    &&& st.params.len() == k
    &&& 1 <= st.current_param_index <= usize::MAX
    &&& st.current_param_index == 1 + sum_len(st.param_seqs)
    &&& result_count(st.params) == st.param_seqs.len()
    &&& forall|j: int| 0 <= j < st.param_seqs.len() ==> self_built(fns, deps, #[trigger] st.param_seqs[j])
        && st.param_seqs[j].functions[0].func.1 < t
    &&& forall|q: int|
        0 <= q < k && (#[trigger] st.params[q]).param_type == ParamType::FunctionReturn ==> {
            let j = result_count(st.params.take(q));
            &&& 0 <= j < st.param_seqs.len()
            &&& st.params[q].index == 1 + sum_len(st.param_seqs.take(j))
            &&& spec_check_dependency(
                deps,
                (ApiType::BareFunction, st.param_seqs[j].functions[0].func.1),
                (ApiType::BareFunction, t),
                q as usize,
            ) matches Some(d) && deps[d as int].call_type == st.params[q].call_type
        }
}

proof fn lemma_sum_len_nonneg(bs: Seq<ReverseView>)
    ensures
        sum_len(bs) >= 0,
        flat_calls(bs).len() == sum_len(bs),
    decreases bs.len(),
{
    if bs.len() > 0 {
        lemma_sum_len_nonneg(bs.drop_last());
    }
}

proof fn lemma_sum_len_take(bs: Seq<ReverseView>, a: int, b: int)
    requires
        0 <= a <= b <= bs.len(),
    ensures
        sum_len(bs.take(a)) <= sum_len(bs.take(b)),
        a < b ==> sum_len(bs.take(a)) + bs[a].functions.len() <= sum_len(bs.take(b)),
    decreases b - a,
{
    if a < b {
        lemma_sum_len_take(bs, a + 1, b);
        assert(bs.take(a + 1).drop_last() =~= bs.take(a));
        assert(bs.take(a + 1).last() == bs[a]);
    }
}

proof fn lemma_flat_segment(bs: Seq<ReverseView>, j: int)
    requires
        0 <= j < bs.len(),
    ensures
        sum_len(bs.take(j)) + bs[j].functions.len() <= sum_len(bs),
        flat_calls(bs).subrange(sum_len(bs.take(j)), sum_len(bs.take(j)) + bs[j].functions.len()) == bs[j].functions,
    decreases bs.len(),
{
    let dl = bs.drop_last();
    lemma_sum_len_nonneg(dl);
    lemma_sum_len_nonneg(bs);
    if j == bs.len() - 1 {
        assert(bs.take(j) =~= dl);
        assert(flat_calls(bs).subrange(sum_len(dl), sum_len(dl) + bs[j].functions.len()) =~= bs[j].functions);
    } else {
        lemma_flat_segment(dl, j);
        assert(bs.take(j) =~= dl.take(j));
        assert(dl[j] == bs[j]);
        let a = sum_len(dl.take(j));
        lemma_sum_len_nonneg(dl.take(j));
        assert(flat_calls(bs).subrange(a, a + bs[j].functions.len()) =~= flat_calls(dl).subrange(a, a + bs[j].functions.len()));
    }
}

proof fn lemma_combine_all_flat(head: ReverseView, bs: Seq<ReverseView>)
    ensures
        combine_all(head, bs).functions == head.functions + flat_calls(bs),
    decreases bs.len(),
{
    if bs.len() > 0 {
        lemma_combine_all_flat(head, bs.drop_last());
        assert(combine_all(head, bs).functions =~= head.functions + flat_calls(bs));
    }
}

proof fn lemma_result_count_take(params: Seq<CallParam>, a: int, b: int)
    requires
        0 <= a <= b <= params.len(),
    ensures
        result_count(params.take(a)) <= result_count(params.take(b)),
        a < b && params[a].param_type == ParamType::FunctionReturn ==> result_count(params.take(a)) < result_count(
            params.take(b),
        ),
    decreases b - a,
{
    if a < b {
        lemma_result_count_take(params, a + 1, b);
        assert(params.take(a + 1).drop_last() =~= params.take(a));
        assert(params.take(a + 1).last() == params[a]);
    }
}

proof fn lemma_rev_scan_found(fns: Seq<ApiFunction>, deps: Seq<ApiDependency>, t: usize, k: usize, st: RevState, o: int)
    requires
        0 <= o,
    ensures
        rev_scan(fns, deps, t, k, st, o) matches Some(s) ==> {
            &&& s.params.len() == st.params.len() + 1
            &&& s.params.drop_last() == st.params
            &&& s.params.last().param_type == ParamType::FunctionReturn
            &&& s.params.last().index as int == st.current_param_index as usize as int
            &&& s.param_seqs.len() == st.param_seqs.len() + 1
            &&& s.param_seqs.drop_last() == st.param_seqs
            &&& s.current_param_index == st.current_param_index + s.param_seqs.last().functions.len()
            &&& self_built(fns, deps, s.param_seqs.last())
            &&& s.param_seqs.last().functions[0].func.1 < t
            &&& spec_check_dependency(
                deps,
                (ApiType::BareFunction, s.param_seqs.last().functions[0].func.1),
                (ApiType::BareFunction, t),
                k,
            ) matches Some(d) && deps[d as int].call_type == s.params.last().call_type
        },
    decreases t - o,
{
    if o < t && o < fns.len() {
        let (st1, found) = rev_scan_step(fns, deps, t, k, st, o);
        if found {
            lemma_reverse_shape(fns, deps, o as usize);
            let ps = spec_reverse_construct(fns, deps, o as usize)->0;
            assert(st1.param_seqs.last() == ps);
            reveal(self_built);
            assert(st1.params.drop_last() =~= st.params);
            assert(st1.param_seqs.drop_last() =~= st.param_seqs);
        } else {
            lemma_rev_scan_found(fns, deps, t, k, st, o + 1);
        }
    }
}

proof fn lemma_rev_slots_plain(
    fns: Seq<ApiFunction>,
    deps: Seq<ApiDependency>,
    t: usize,
    st: RevState,
    st2: RevState,
    k: int,
)
    requires
        rev_slots(fns, deps, t, st, k),
        st2.params.len() == k + 1,
        st2.params.drop_last() == st.params,
        st2.params.last().param_type != ParamType::FunctionReturn,
        st2.param_seqs == st.param_seqs,
        st2.current_param_index == st.current_param_index,
    ensures
        rev_slots(fns, deps, t, st2, k + 1),
{
    reveal(rev_slots);
    assert(st2.params =~= st.params.push(st2.params.last()));
    assert forall|q: int|
        0 <= q < k + 1 && (#[trigger] st2.params[q]).param_type == ParamType::FunctionReturn implies {
            let j = result_count(st2.params.take(q));
            &&& 0 <= j < st2.param_seqs.len()
            &&& st2.params[q].index == 1 + sum_len(st2.param_seqs.take(j))
            &&& spec_check_dependency(
                deps,
                (ApiType::BareFunction, st2.param_seqs[j].functions[0].func.1),
                (ApiType::BareFunction, t),
                q as usize,
            ) matches Some(d) && deps[d as int].call_type == st2.params[q].call_type
        } by {
        assert(q < k);
        assert(st2.params[q] == st.params[q]);
        assert(st2.params.take(q) =~= st.params.take(q));
    }
}

proof fn lemma_rev_slots_push(
    fns: Seq<ApiFunction>,
    deps: Seq<ApiDependency>,
    t: usize,
    st: RevState,
    st1: RevState,
    k: int,
)
    requires
        rev_slots(fns, deps, t, st, k),
        st1.current_param_index <= usize::MAX,
        st1.params.len() == st.params.len() + 1,
        st1.params.drop_last() == st.params,
        st1.params.last().param_type == ParamType::FunctionReturn,
        st1.params.last().index as int == st.current_param_index as usize as int,
        st1.param_seqs.len() == st.param_seqs.len() + 1,
        st1.param_seqs.drop_last() == st.param_seqs,
        st1.current_param_index == st.current_param_index + st1.param_seqs.last().functions.len(),
        self_built(fns, deps, st1.param_seqs.last()),
        st1.param_seqs.last().functions[0].func.1 < t,
        spec_check_dependency(
            deps,
            (ApiType::BareFunction, st1.param_seqs.last().functions[0].func.1),
            (ApiType::BareFunction, t),
            k as usize,
        ) matches Some(d) && deps[d as int].call_type == st1.params.last().call_type,
    ensures
        rev_slots(fns, deps, t, st1, k + 1),
{
    reveal(rev_slots);
    let n = st.param_seqs.len() as int;
    lemma_sum_len_nonneg(st.param_seqs);
    assert(st1.param_seqs =~= st.param_seqs.push(st1.param_seqs.last()));
    assert(st1.params =~= st.params.push(st1.params.last()));
    assert(sum_len(st1.param_seqs) == sum_len(st.param_seqs) + st1.param_seqs.last().functions.len());
    assert(result_count(st1.params) == result_count(st.params) + 1);
    assert forall|j: int| 0 <= j < st1.param_seqs.len() implies self_built(fns, deps, #[trigger] st1.param_seqs[j])
        && st1.param_seqs[j].functions[0].func.1 < t by {
        if j < n {
            assert(st1.param_seqs[j] == st.param_seqs[j]);
        }
    }
    assert forall|q: int|
        0 <= q < k + 1 && (#[trigger] st1.params[q]).param_type == ParamType::FunctionReturn implies {
            let j = result_count(st1.params.take(q));
            &&& 0 <= j < st1.param_seqs.len()
            &&& st1.params[q].index == 1 + sum_len(st1.param_seqs.take(j))
            &&& spec_check_dependency(
                deps,
                (ApiType::BareFunction, st1.param_seqs[j].functions[0].func.1),
                (ApiType::BareFunction, t),
                q as usize,
            ) matches Some(d) && deps[d as int].call_type == st1.params[q].call_type
        } by {
        if q < k {
            assert(st1.params[q] == st.params[q]);
            assert(st1.params.take(q) =~= st.params.take(q));
            let j = result_count(st.params.take(q));
            assert(st1.param_seqs[j] == st.param_seqs[j]);
            assert(st1.param_seqs.take(j) =~= st.param_seqs.take(j));
        } else {
            assert(st1.params.take(q) =~= st.params);
            assert(st1.param_seqs.take(n) =~= st.param_seqs);
            assert(st1.param_seqs[n] == st1.param_seqs.last());
            assert(st1.params[q] == st1.params.last());
        }
    }
}

proof fn lemma_rev_params_slots(fns: Seq<ApiFunction>, deps: Seq<ApiDependency>, t: usize, st: RevState, k: int)
    requires
        t < fns.len(),
        0 <= k <= fns[t as int].inputs@.len(),
        rev_slots(fns, deps, t, st, k),
    ensures
        rev_params(fns, deps, t, st, k) matches Some(s) ==> rev_slots(fns, deps, t, s, fns[t as int].inputs@.len() as int),
    decreases fns[t as int].inputs@.len() - k,
{
    assert(st.params.len() == k) by {
        reveal(rev_slots);
    }
    if k < fns[t as int].inputs@.len() {
        let p = fns[t as int].inputs@[k];
        if p.fuzzable_plain {
            if p.fuzz_type != FuzzableType::NoFuzzable {
                let idx = st.seq.fuzzable_params.len() as usize;
                let s1 = if p.fuzz_call.needs_mut_tag {
                    ReverseView { fuzzable_mut_tag: seq_insert(st.seq.fuzzable_mut_tag, idx), ..st.seq }
                } else {
                    st.seq
                };
                let s2 = ReverseView { fuzzable_params: s1.fuzzable_params.push(p.fuzz_type), ..s1 };
                let param = CallParam { param_type: ParamType::FuzzableType, index: idx, call_type: p.fuzz_call };
                let st2 = RevState { seq: s2, params: st.params.push(param), ..st };
                assert(st2.params.drop_last() =~= st.params);
                lemma_rev_slots_plain(fns, deps, t, st, st2, k);
                lemma_rev_params_slots(fns, deps, t, st2, k + 1);
            }
        } else {
            lemma_rev_scan_found(fns, deps, t, k as usize, st, 0);
            match rev_scan(fns, deps, t, k as usize, st, 0) {
                None => {},
                Some(st1) => {
                    if st1.current_param_index <= usize::MAX {
                        lemma_rev_slots_push(fns, deps, t, st, st1, k);
                        lemma_rev_params_slots(fns, deps, t, st1, k + 1);
                    }
                },
            }
        }
    }
}

proof fn lemma_slot_at(fns: Seq<ApiFunction>, deps: Seq<ApiDependency>, t: usize, st: RevState, k: int, q: int)
    requires
        rev_slots(fns, deps, t, st, k),
        0 <= q < k,
        st.params[q].param_type == ParamType::FunctionReturn,
    ensures
        ({
            let j = result_count(st.params.take(q));
            &&& st.params.len() == k
            &&& 0 <= j < st.param_seqs.len()
            &&& st.params[q].index == 1 + sum_len(st.param_seqs.take(j))
            &&& spec_check_dependency(
                deps,
                (ApiType::BareFunction, st.param_seqs[j].functions[0].func.1),
                (ApiType::BareFunction, t),
                q as usize,
            ) matches Some(d) && deps[d as int].call_type == st.params[q].call_type
            &&& self_built(fns, deps, st.param_seqs[j])
        }),
{
    reveal(rev_slots);
    let j = result_count(st.params.take(q));
    assert(self_built(fns, deps, st.param_seqs[j]));
}

proof fn lemma_slot_segment(st: RevState, call: CallView, head: ReverseView, q: int)
    requires
        call.params == st.params,
        head.functions == seq![call],
        0 <= q < st.params.len(),
        0 <= result_count(st.params.take(q)) < st.param_seqs.len(),
        st.params[q].index == 1 + sum_len(st.param_seqs.take(result_count(st.params.take(q)))),
    ensures
        ({
            let bs = st.param_seqs;
            let j = result_count(st.params.take(q));
            let calls = combine_all(head, bs).functions;
            let i = st.params[q].index as int;
            &&& 1 <= i
            &&& i + bs[j].functions.len() <= calls.len()
            &&& calls.subrange(i, i + bs[j].functions.len()) == bs[j].functions
        }),
{
    let bs = st.param_seqs;
    let j = result_count(st.params.take(q));
    lemma_combine_all_flat(head, bs);
    lemma_sum_len_nonneg(bs);
    lemma_sum_len_nonneg(bs.take(j));
    lemma_flat_segment(bs, j);
    let a = sum_len(bs.take(j));
    let calls = combine_all(head, bs).functions;
    let i = st.params[q].index as int;
    assert(calls.subrange(i, i + bs[j].functions.len()) =~= flat_calls(bs).subrange(a, a + bs[j].functions.len()));
}

proof fn lemma_laid_out_args(fns: Seq<ApiFunction>, deps: Seq<ApiDependency>, t: usize, st: RevState, call: CallView, head: ReverseView)
    requires
        rev_slots(fns, deps, t, st, st.params.len() as int),
        call.params == st.params,
        head.functions == seq![call],
    ensures
        ({
            let calls = combine_all(head, st.param_seqs).functions;
            forall|q: int|
                0 <= q < call.params.len() && (#[trigger] call.params[q]).param_type == ParamType::FunctionReturn ==> {
                    &&& built_at(fns, deps, calls, call.params[q].index as int)
                    &&& spec_check_dependency(
                        deps,
                        (ApiType::BareFunction, calls[call.params[q].index as int].func.1),
                        (ApiType::BareFunction, t),
                        q as usize,
                    ) matches Some(d) && deps[d as int].call_type == call.params[q].call_type
                }
        }),
{
    let bs = st.param_seqs;
    let calls = combine_all(head, bs).functions;
    assert forall|q: int|
        0 <= q < call.params.len() && (#[trigger] call.params[q]).param_type == ParamType::FunctionReturn implies {
            &&& built_at(fns, deps, calls, call.params[q].index as int)
            &&& spec_check_dependency(
                deps,
                (ApiType::BareFunction, calls[call.params[q].index as int].func.1),
                (ApiType::BareFunction, t),
                q as usize,
            ) matches Some(d) && deps[d as int].call_type == call.params[q].call_type
        } by {
        lemma_slot_at(fns, deps, t, st, st.params.len() as int, q);
        let j = result_count(st.params.take(q));
        let ps = bs[j];
        lemma_slot_segment(st, call, head, q);
        reveal(self_built);
        assert(ps.functions.len() >= 1);
        let i = call.params[q].index as int;
        assert(calls[i] == calls.subrange(i, i + ps.functions.len())[0]);
        assert(calls[i] == ps.functions[0]);
    }
}

proof fn lemma_laid_out_apart(fns: Seq<ApiFunction>, deps: Seq<ApiDependency>, t: usize, st: RevState, call: CallView, head: ReverseView)
    requires
        rev_slots(fns, deps, t, st, st.params.len() as int),
        call.params == st.params,
        head.functions == seq![call],
    ensures
        ({
            let calls = combine_all(head, st.param_seqs).functions;
            forall|q1: int, q2: int|
                0 <= q1 < q2 < call.params.len() && (#[trigger] call.params[q1]).param_type == ParamType::FunctionReturn
                    && (#[trigger] call.params[q2]).param_type == ParamType::FunctionReturn ==> call.params[q1].index
                    + built_len(fns, deps, calls, call.params[q1].index as int) <= call.params[q2].index
        }),
{
    let bs = st.param_seqs;
    let calls = combine_all(head, bs).functions;
    assert forall|q1: int, q2: int|
        0 <= q1 < q2 < call.params.len() && (#[trigger] call.params[q1]).param_type == ParamType::FunctionReturn
            && (#[trigger] call.params[q2]).param_type == ParamType::FunctionReturn implies call.params[q1].index
            + built_len(fns, deps, calls, call.params[q1].index as int) <= call.params[q2].index by {
        lemma_slot_at(fns, deps, t, st, st.params.len() as int, q1);
        lemma_slot_at(fns, deps, t, st, st.params.len() as int, q2);
        let j1 = result_count(st.params.take(q1));
        let j2 = result_count(st.params.take(q2));
        lemma_result_count_take(st.params, q1, q2);
        lemma_sum_len_take(bs, j1, j2);
        let ps = bs[j1];
        lemma_slot_segment(st, call, head, q1);
        reveal(self_built);
        assert(ps.functions.len() >= 1);
        let i = call.params[q1].index as int;
        assert(calls[i] == calls.subrange(i, i + ps.functions.len())[0]);
        assert(calls[i] == ps.functions[0]);
        assert(built_len(fns, deps, calls, i) == ps.functions.len());
    }
}

/// How a sequence built backwards is laid out: each argument of its first
/// call that takes a result points at the first call of a stretch that is
/// exactly the sequence built backwards from that call's function, whose
/// result has a dependency to the parameter; and the stretches of
/// different parameters follow one another without overlapping, so no
/// argument takes a value that belongs to another parameter's
/// sub-sequence.
pub proof fn lemma_reverse_arguments_point_to_subsequences(fns: Seq<ApiFunction>, deps: Seq<ApiDependency>, t: usize)
    requires
        t < fns.len(),
    ensures
        spec_reverse_construct(fns, deps, t) matches Some(r) ==> {
            let calls = r.functions;
            let call = calls[0];
            &&& calls.len() >= 1
            &&& forall|q: int|
                0 <= q < call.params.len() && (#[trigger] call.params[q]).param_type == ParamType::FunctionReturn ==> {
                    &&& built_at(fns, deps, calls, call.params[q].index as int)
                    &&& spec_check_dependency(
                        deps,
                        (ApiType::BareFunction, calls[call.params[q].index as int].func.1),
                        (ApiType::BareFunction, t),
                        q as usize,
                    ) matches Some(d) && deps[d as int].call_type == call.params[q].call_type
                }
            &&& forall|q1: int, q2: int|
                0 <= q1 < q2 < call.params.len() && (#[trigger] call.params[q1]).param_type == ParamType::FunctionReturn
                    && (#[trigger] call.params[q2]).param_type == ParamType::FunctionReturn ==> call.params[q1].index
                    + built_len(fns, deps, calls, call.params[q1].index as int) <= call.params[q2].index
        },
{
    lemma_reverse_shape(fns, deps, t);
    let empty = ReverseView {
        functions: Seq::empty(),
        fuzzable_params: Seq::empty(),
        unsafe_tag: false,
        function_mut_tag: Seq::empty(),
        fuzzable_mut_tag: Seq::empty(),
        covered_dependencies: Seq::empty(),
    };
    let st0 = RevState { seq: empty, params: Seq::empty(), param_seqs: Seq::empty(), current_param_index: 1 };
    assert(rev_slots(fns, deps, t, st0, 0)) by {
        reveal(rev_slots);
    }
    lemma_rev_params_slots(fns, deps, t, st0, 0);
    lemma_rev_params_shape(fns, deps, t, st0, 0);
    match rev_params(fns, deps, t, st0, 0) {
        None => {},
        Some(st) => {
            let call = CallView { func: (ApiType::BareFunction, t), params: st.params };
            let head = ReverseView { functions: st.seq.functions.push(call), ..st.seq };
            let bs = st.param_seqs;
            let r = combine_all(head, bs);
            lemma_combine_all_flat(head, bs);
            lemma_sum_len_nonneg(bs);
            assert(head.functions =~= seq![call]);
            assert(r.functions[0] == call);
            lemma_laid_out_args(fns, deps, t, st, call, head);
            lemma_laid_out_apart(fns, deps, t, st, call, head);
        },
    }
}

impl ApiGraph {
    /// Considers function `o` as the source of parameter `k` of `t`; on
    /// success records it and gives the length of the sequence built for it.
    #[verifier::rlimit(80)]
    fn rev_scan_one(
        &self,
        t: usize,
        k: usize,
        o: usize,
        current_param_index: usize,
        new_reverse_sequence: &mut ReverseApiSequence,
        api_call: &mut ApiCall,
        param_reverse_sequences: &mut Vec<ReverseApiSequence>,
    ) -> (found: Option<usize>)
        requires
            o < t < self.api_functions@.len(),
        ensures
            ({
                let (st1, ok) = rev_scan_step(
                    self.api_functions@,
                    self.api_dependencies@,
                    t,
                    k,
                    mk_rev(old(new_reverse_sequence)@, old(api_call)@.params, rev_views(old(param_reverse_sequences)@), current_param_index as int),
                    o as int,
                );
                &&& ok == found is Some
                &&& ok ==> st1 == mk_rev(
                    final(new_reverse_sequence)@,
                    final(api_call)@.params,
                    rev_views(final(param_reverse_sequences)@),
                    current_param_index + found.unwrap(),
                )
                &&& !ok ==> final(new_reverse_sequence)@ == old(new_reverse_sequence)@ && final(api_call)@ == old(api_call)@
                    && final(param_reverse_sequences)@ == old(param_reverse_sequences)@
            }),
            final(api_call)@.func == old(api_call)@.func,
            final(new_reverse_sequence)@.functions == old(new_reverse_sequence)@.functions,
        decreases t, 0int,
    {
        let dependency_index = match self.check_dependency(&ApiType::BareFunction, o, &ApiType::BareFunction, t, k) {
            Some(d) => d,
            None => {
                return None;
            },
        };
        let param_seq = match self.reverse_construct(&ApiType::BareFunction, o) {
            Some(ps) => ps,
            None => {
                return None;
            },
        };
        let dependency_ = self.api_dependencies[dependency_index];
        let ct = dependency_.call_type;
        insert_index(&mut new_reverse_sequence.covered_dependencies, dependency_index);
        if ct.needs_mut_tag {
            insert_index(&mut new_reverse_sequence.function_mut_tag, current_param_index);
        }
        if ct.is_unsafe {
            new_reverse_sequence.unsafe_tag = true;
        }
        api_call.add_param(ParamType::FunctionReturn, current_param_index, ct);
        let len = param_seq.functions.len();
        proof {
            assert(param_seq@.functions.len() == len);
        }
        let ghost prev = param_reverse_sequences@;
        param_reverse_sequences.push(param_seq);
        proof {
            assert(rev_views(param_reverse_sequences@) =~= rev_views(prev).push(param_seq@));
        }
        Some(len)
    }

    /// Builds a sequence backwards from a last call of function
    /// `tail_api_index`: each parameter the fuzzer cannot supply takes the
    /// result of the first function of lower index that has a dependency to
    /// it and can itself be built backwards; the sequences built for the
    /// parameters follow the last call, in the order of the parameters.
    #[verifier::rlimit(80)]
    pub fn reverse_construct(&self, tail_api_type: &ApiType, tail_api_index: usize) -> (r: Option<ReverseApiSequence>)
        requires
            tail_api_index < self.api_functions@.len(),
            *tail_api_type == ApiType::BareFunction,
        ensures
            match r {
                Some(s) => spec_reverse_construct(self.api_functions@, self.api_dependencies@, tail_api_index) == Some(s@),
                None => spec_reverse_construct(self.api_functions@, self.api_dependencies@, tail_api_index) is None,
            },
        decreases tail_api_index, 1int,
    {
        let ghost fns = self.api_functions@;
        let ghost deps = self.api_dependencies@;
        let t = tail_api_index;
        let mut new_reverse_sequence = ReverseApiSequence::new();
        let mut api_call = ApiCall::new(t);
        let mut param_reverse_sequences: Vec<ReverseApiSequence> = Vec::new();
        let mut current_param_index: usize = 1;
        let params = &self.api_functions[t].inputs;
        let ghost st0 = mk_rev(new_reverse_sequence@, api_call@.params, rev_views(param_reverse_sequences@), 1);
        proof {
            assert(rev_views(param_reverse_sequences@) =~= Seq::<ReverseView>::empty());
            assert(new_reverse_sequence@ == empty_reverse());
        }
        let mut k: usize = 0;
        while k < params.len()
            invariant
                fns == self.api_functions@,
                deps == self.api_dependencies@,
                t < fns.len(),
                t == tail_api_index,
                *params == fns[t as int].inputs,
                k <= params@.len(),
                api_call@.func == (ApiType::BareFunction, t),
                new_reverse_sequence@.functions.len() == 0,
                rev_params(fns, deps, t, st0, 0) == rev_params(
                    fns,
                    deps,
                    t,
                    mk_rev(new_reverse_sequence@, api_call@.params, rev_views(param_reverse_sequences@), current_param_index as int),
                    k as int,
                ),
                st0 == mk_rev(empty_reverse(), Seq::empty(), Seq::empty(), 1),
            decreases params.len() - k,
        {
            let current = &params[k];
            if current.fuzzable_plain {
                let current_fuzzable_index = new_reverse_sequence.fuzzable_params.len();
                if current.fuzz_type == FuzzableType::NoFuzzable {
                    return None;
                }
                if current.fuzz_call.needs_mut_tag {
                    insert_index(&mut new_reverse_sequence.fuzzable_mut_tag, current_fuzzable_index);
                }
                new_reverse_sequence.fuzzable_params.push(current.fuzz_type);
                api_call.add_param(ParamType::FuzzableType, current_fuzzable_index, current.fuzz_call);
            } else {
                let ghost st_k = mk_rev(
                    new_reverse_sequence@,
                    api_call@.params,
                    rev_views(param_reverse_sequences@),
                    current_param_index as int,
                );
                let mut dependency_flag = false;
                let mut o: usize = 0;
                while o < t && !dependency_flag
                    invariant
                        fns == self.api_functions@,
                        deps == self.api_dependencies@,
                        t < fns.len(),
                        *params == fns[t as int].inputs,
                        k < params@.len(),
                        !params@[k as int].fuzzable_plain,
                        t == tail_api_index,
                        rev_params(fns, deps, t, st0, 0) == rev_params(fns, deps, t, st_k, k as int),
                        st0 == mk_rev(empty_reverse(), Seq::empty(), Seq::empty(), 1),
                        o <= t,
                        api_call@.func == (ApiType::BareFunction, t),
                        new_reverse_sequence@.functions.len() == 0,
                        rev_scan(fns, deps, t, k, st_k, 0) == if dependency_flag {
                            Some(mk_rev(
                                new_reverse_sequence@,
                                api_call@.params,
                                rev_views(param_reverse_sequences@),
                                current_param_index as int,
                            ))
                        } else {
                            rev_scan(
                                fns,
                                deps,
                                t,
                                k,
                                mk_rev(new_reverse_sequence@, api_call@.params, rev_views(param_reverse_sequences@), current_param_index as int),
                                o as int,
                            )
                        },
                        !dependency_flag ==> mk_rev(
                            new_reverse_sequence@,
                            api_call@.params,
                            rev_views(param_reverse_sequences@),
                            current_param_index as int,
                        ) == st_k,
                    decreases t - o + (if dependency_flag { 0int } else { 1int }),
                {
                    let ghost before = mk_rev(
                        new_reverse_sequence@,
                        api_call@.params,
                        rev_views(param_reverse_sequences@),
                        current_param_index as int,
                    );
                    let found = self.rev_scan_one(
                        t,
                        k,
                        o,
                        current_param_index,
                        &mut new_reverse_sequence,
                        &mut api_call,
                        &mut param_reverse_sequences,
                    );
                    if let Some(len) = found {
                        dependency_flag = true;
                        match current_param_index.checked_add(len) {
                            Some(next) => {
                                current_param_index = next;
                            },
                            None => {
                                proof {
                                    let st1 = mk_rev(
                                        new_reverse_sequence@,
                                        api_call@.params,
                                        rev_views(param_reverse_sequences@),
                                        current_param_index + len,
                                    );
                                    assert(before == st_k);
                                    assert(rev_scan(fns, deps, t, k, before, o as int) == Some(st1));
                                    assert(rev_scan(fns, deps, t, k, st_k, 0) == Some(st1));
                                    assert(st1.current_param_index > usize::MAX);
                                    assert(rev_params(fns, deps, t, st_k, k as int) is None);
                                }
                                return None;
                            },
                        }
                    }
                    o = o + 1;
                }
                if !dependency_flag {
                    return None;
                }
            }
            k = k + 1;
        }
        let ghost st_end = mk_rev(
            new_reverse_sequence@,
            api_call@.params,
            rev_views(param_reverse_sequences@),
            current_param_index as int,
        );
        let ghost call_view = api_call@;
        new_reverse_sequence.functions.push(api_call);
        let ghost head = new_reverse_sequence@;
        proof {
            assert(head.functions =~= st_end.seq.functions.push(CallView { func: (ApiType::BareFunction, t), params: st_end.params }));
            assert(head == ReverseView {
                functions: st_end.seq.functions.push(CallView { func: (ApiType::BareFunction, t), params: st_end.params }),
                ..st_end.seq
            });
        }
        let mut j: usize = 0;
        while j < param_reverse_sequences.len()
            invariant
                j <= param_reverse_sequences@.len(),
                new_reverse_sequence@ == combine_all(head, rev_views(param_reverse_sequences@).take(j as int)),
            decreases param_reverse_sequences.len() - j,
        {
            proof {
                assert(rev_views(param_reverse_sequences@).take(j + 1).drop_last() =~= rev_views(param_reverse_sequences@).take(
                    j as int));
                assert(rev_views(param_reverse_sequences@).take(j + 1).last() == param_reverse_sequences@[j as int]@);
            }
            new_reverse_sequence.combine(&param_reverse_sequences[j]);
            j = j + 1;
        }
        proof {
            assert(rev_views(param_reverse_sequences@).take(j as int) =~= rev_views(param_reverse_sequences@));
        }
        Some(new_reverse_sequence)
    }
}

} // verus!
