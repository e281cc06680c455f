//! Extending a sequence by one call: every parameter of the new call gets
//! an input from the fuzzer or the result of an earlier call of the
//! sequence, without breaking the rules on moves and borrows.
use vstd::prelude::*;
use crate::graph::{ApiGraph, dep_matches, spec_check_dependency};
use crate::model::{ApiDependency, ApiFunction, ApiType, FuzzableType};
use crate::sequence::{ApiCall, ApiSequence, CallParam, CallView, ParamType, SequenceView, set_union, lemma_set_union_contains};
use crate::util::{contains_index, insert_index, lemma_seq_insert_contains, seq_insert};

verus! {

/// The state while the parameters of a new call are matched: the sequence
/// being extended, the call being built, and which earlier results have
/// been moved, mutably borrowed and immutably borrowed by it.
pub struct SatState {
    pub seq: SequenceView,
    pub call: CallView,
    pub moved: Seq<usize>,
    pub multi_mut: Seq<usize>,
    pub immutable_borrow: Seq<usize>,
}

/// Considers call `fi` as the source of parameter `k` of function `f`: the
/// new state, and whether the call is taken. A call is passed over when its
/// result has been moved, when no dependency leads from it to the
/// parameter, or when passing it would move or borrow mutably what is
/// borrowed already, or borrow what is borrowed mutably. The dependency
/// found is recorded as covered even when its call is then passed over.
#[verifier::opaque]
pub open spec fn scan_step(deps: Seq<ApiDependency>, f: usize, k: usize, st: SatState, fi: int) -> (SatState, bool) {
    let fu = fi as usize;
    if st.seq.moved.contains(fu) || st.moved.contains(fu) {
        (st, false)
    } else {
        match spec_check_dependency(deps, st.seq.functions[fi].func, (ApiType::BareFunction, f), k) {
            None => (st, false),
            Some(d) => {
                let ct = deps[d as int].call_type;
                let st1 = SatState {
                    seq: SequenceView { covered_dependencies: seq_insert(st.seq.covered_dependencies, d), ..st.seq },
                    ..st
                };
                if ct.moves_value && (st1.multi_mut.contains(fu) || st1.immutable_borrow.contains(fu)) {
                    (st1, false)
                } else {
                    let st2 = if ct.moves_value {
                        SatState { moved: seq_insert(st1.moved, fu), ..st1 }
                    } else {
                        st1
                    };
                    if ct.borrows_mut && (st2.multi_mut.contains(fu) || st2.immutable_borrow.contains(fu)) {
                        (st2, false)
                    } else {
                        let st3 = if ct.borrows_mut {
                            SatState { multi_mut: seq_insert(st2.multi_mut, fu), ..st2 }
                        } else {
                            st2
                        };
                        if ct.borrows_shared && st3.multi_mut.contains(fu) {
                            (st3, false)
                        } else {
                            let st4 = if ct.borrows_shared {
                                SatState { immutable_borrow: seq_insert(st3.immutable_borrow, fu), ..st3 }
                            } else {
                                st3
                            };
                            let s5 = if ct.needs_mut_tag {
                                SequenceView { function_mut_tag: seq_insert(st4.seq.function_mut_tag, fu), ..st4.seq }
                            } else {
                                st4.seq
                            };
                            let s6 = if ct.is_unsafe {
                                SequenceView { unsafe_tag: true, ..s5 }
                            } else {
                                s5
                            };
                            let param = CallParam { param_type: ParamType::FunctionReturn, index: fu, call_type: ct };
                            (
                                SatState {
                                    seq: s6,
                                    call: CallView { func: st4.call.func, params: st4.call.params.push(param) },
                                    ..st4
                                },
                                true,
                            )
                        }
                    }
                }
            }
        }
    }
}

/// Looks for the source of parameter `k` of function `f` among the calls
/// from position `fi` on, in order; the first call taken supplies it.
pub open spec fn scan(deps: Seq<ApiDependency>, f: usize, k: usize, st: SatState, fi: int, n: int) -> Option<SatState>
    decreases n - fi,
{
    if fi >= n || fi < 0 {
        None
    } else {
        let (st1, found) = scan_step(deps, f, k, st, fi);
        if found {
            Some(st1)
        } else {
            scan(deps, f, k, st1, fi + 1, n)
        }
    }
}

/// Matches the parameters of function `f` from parameter `k` on. A
/// fuzzable parameter takes a new fuzzer input (and fails the whole match
/// when no input can be made for it); any other takes an earlier result.
pub open spec fn satisfy_params(
    fns: Seq<ApiFunction>,
    deps: Seq<ApiDependency>,
    f: usize,
    st: SatState,
    k: int,
    n: int,
) -> Option<SatState>
    decreases fns[f as int].inputs@.len() - k,
{
    let inputs = fns[f as int].inputs@;
    if k >= inputs.len() || k < 0 {
        Some(st)
    } else {
        let p = inputs[k];
        if p.fuzzable {
            if p.fuzz_type == FuzzableType::NoFuzzable {
                None
            } else {
                let idx = st.seq.fuzzable_params.len() as usize;
                let s1 = if p.fuzz_call.needs_mut_tag {
                    SequenceView { fuzzable_mut_tag: seq_insert(st.seq.fuzzable_mut_tag, idx), ..st.seq }
                } else {
                    st.seq
                };
                let s2 = SequenceView { fuzzable_params: s1.fuzzable_params.push(p.fuzz_type), ..s1 };
                let param = CallParam { param_type: ParamType::FuzzableType, index: idx, call_type: p.fuzz_call };
                satisfy_params(
                    fns,
                    deps,
                    f,
                    SatState { seq: s2, call: CallView { func: st.call.func, params: st.call.params.push(param) }, ..st },
                    k + 1,
                    n,
                )
            }
        } else {
            match scan(deps, f, k as usize, st, 0, n) {
                None => None,
                Some(st1) => satisfy_params(fns, deps, f, st1, k + 1, n),
            }
        }
    }
}

/// Appends the call built, and records the results it moves; fails when
/// a fuzzer input with several parts of dynamic length results.
pub open spec fn finish_call(r: Option<SatState>) -> Option<SequenceView> {
    match r {
        None => None,
        Some(st) => {
            let s2 = SequenceView {
                functions: st.seq.functions.push(st.call),
                moved: set_union(st.seq.moved, st.moved),
                ..st.seq
            };
            if s2.contains_multi_dynamic_length_fuzzable() {
                None
            } else {
                Some(s2)
            }
        }
    }
}

/// The sequence `seq` extended by a call of function `f`, when every
/// parameter of `f` can be supplied, and the result has no fuzzer input
/// with several parts of dynamic length; `None` otherwise.
#[verifier::opaque]
pub open spec fn spec_is_fun_satisfied(
    fns: Seq<ApiFunction>,
    deps: Seq<ApiDependency>,
    input_fun_type: ApiType,
    f: usize,
    seq: SequenceView,
) -> Option<SequenceView> {
    match input_fun_type {
        ApiType::GenericFunction => None,
        ApiType::BareFunction => {
            let func = fns[f as int];
            let s0 = if func.is_unsafe {
                SequenceView { unsafe_tag: true, ..seq }
            } else {
                seq
            };
            let s1 = match func.trait_full_path {
                Some(t) => SequenceView { using_traits: crate::sequence::name_insert(s0.using_traits, t@), ..s0 },
                None => s0,
            };
            let call0 = CallView { func: (ApiType::BareFunction, f), params: Seq::empty() };
            if func.inputs@.len() == 0 {
                Some(SequenceView { functions: s1.functions.push(call0), ..s1 })
            } else {
                let st0 = SatState {
                    seq: s1,
                    call: call0,
                    moved: Seq::empty(),
                    multi_mut: Seq::empty(),
                    immutable_borrow: Seq::empty(),
                };
                finish_call(satisfy_params(fns, deps, f, st0, 0, seq.functions.len() as int))
            }
        }
    }
}

/// Argument `q` of `call` is supplied as parameter `q` of function `f`
/// needs: a fuzzer input for a fuzzable parameter, otherwise the result of
/// an earlier call of `seq` from which a dependency leads to the parameter.
pub open spec fn argument_fits(
    fns: Seq<ApiFunction>,
    deps: Seq<ApiDependency>,
    f: usize,
    seq: SequenceView,
    call: CallView,
    q: int,
) -> bool {
    let p = fns[f as int].inputs@[q];
    let arg = call.params[q];
    if p.fuzzable {
        arg.param_type == ParamType::FuzzableType && arg.call_type == p.fuzz_call
    } else {
        &&& arg.param_type == ParamType::FunctionReturn
        &&& arg.index < seq.functions.len()
        &&& !seq.moved.contains(arg.index)
        &&& exists|d: int| 0 <= d < deps.len() && dep_matches(
            deps[d],
            seq.functions[arg.index as int].func,
            (ApiType::BareFunction, f),
            q as usize,
        ) && deps[d].call_type == arg.call_type
    }
}

/// The arguments of `call` that come from earlier results respect the
/// borrowing rules among themselves: a result moved by one argument is used
/// by no later argument; a result borrowed by one argument is neither moved
/// nor mutably borrowed by a later one; a result mutably borrowed by one
/// argument is not borrowed by a later one.
pub open spec fn borrows_respected(call: CallView) -> bool {
    forall|q1: int, q2: int|
        #![trigger call.params[q1], call.params[q2]]
        0 <= q1 < q2 < call.params.len() && call.params[q1].param_type == ParamType::FunctionReturn
            && call.params[q2].param_type == ParamType::FunctionReturn && call.params[q1].index
            == call.params[q2].index ==> {
            let c1 = call.params[q1].call_type;
            let c2 = call.params[q2].call_type;
            &&& !c1.moves_value
            &&& (c2.moves_value || c2.borrows_mut) ==> !c1.borrows_mut && !c1.borrows_shared
            &&& c2.borrows_shared ==> !c1.borrows_mut
        }
}

/// The moves and borrows of the arguments taken so far are all recorded,
/// and they respect the borrowing rules.
pub open spec fn borrow_ok(st: SatState) -> bool {
    &&& forall|q: int|
        0 <= q < st.call.params.len() && (#[trigger] st.call.params[q]).param_type == ParamType::FunctionReturn
            ==> {
            let a = st.call.params[q];
            &&& a.call_type.moves_value ==> st.moved.contains(a.index)
            &&& a.call_type.borrows_mut ==> st.multi_mut.contains(a.index)
            &&& a.call_type.borrows_shared ==> st.immutable_borrow.contains(a.index)
        }
    &&& borrows_respected(st.call)
}

proof fn lemma_scan_step_borrow_ok(deps: Seq<ApiDependency>, f: usize, k: usize, st: SatState, fi: int)
    requires
        borrow_ok(st),
    ensures
        borrow_ok(scan_step(deps, f, k, st, fi).0),
{
    reveal(scan_step);
    let fu = fi as usize;
    lemma_seq_insert_contains(st.moved, fu);
    lemma_seq_insert_contains(st.multi_mut, fu);
    lemma_seq_insert_contains(st.immutable_borrow, fu);
    let r = scan_step(deps, f, k, st, fi).0;
    if scan_step(deps, f, k, st, fi).1 {
        let n = st.call.params.len();
        assert(r.call.params.len() == n + 1);
        assert forall|q: int| 0 <= q < n implies r.call.params[q] == st.call.params[q] by {}
        let a = r.call.params[n as int];
        assert(a.index == fu);
        assert(!st.moved.contains(fu));
        assert forall|q1: int, q2: int|
            0 <= q1 < q2 < r.call.params.len() && r.call.params[q1].param_type == ParamType::FunctionReturn
                && r.call.params[q2].param_type == ParamType::FunctionReturn && r.call.params[q1].index
                == r.call.params[q2].index implies {
                let c1 = r.call.params[q1].call_type;
                let c2 = r.call.params[q2].call_type;
                &&& !c1.moves_value
                &&& (c2.moves_value || c2.borrows_mut) ==> !c1.borrows_mut && !c1.borrows_shared
                &&& c2.borrows_shared ==> !c1.borrows_mut
            } by {
            assert(st.call.params[q1] == r.call.params[q1]);
            if q2 < n {
                assert(st.call.params[q2] == r.call.params[q2]);
            }
        }
    } else {
        assert(r.call == st.call);
    }
}

proof fn lemma_scan_borrow_ok(deps: Seq<ApiDependency>, f: usize, k: usize, st: SatState, fi: int, n: int)
    requires
        borrow_ok(st),
    ensures
        scan(deps, f, k, st, fi, n) matches Some(s) ==> borrow_ok(s),
    decreases n - fi,
{
    if 0 <= fi < n {
        lemma_scan_step_borrow_ok(deps, f, k, st, fi);
        let (st1, found) = scan_step(deps, f, k, st, fi);
        if !found {
            lemma_scan_borrow_ok(deps, f, k, st1, fi + 1, n);
        }
    }
}

proof fn lemma_satisfy_borrow_ok(
    fns: Seq<ApiFunction>,
    deps: Seq<ApiDependency>,
    f: usize,
    st: SatState,
    k: int,
    n: int,
)
    requires
        borrow_ok(st),
    ensures
        satisfy_params(fns, deps, f, st, k, n) matches Some(s) ==> borrow_ok(s),
    decreases fns[f as int].inputs@.len() - k,
{
    let inputs = fns[f as int].inputs@;
    if 0 <= k < inputs.len() {
        let p = inputs[k];
        if p.fuzzable {
            if p.fuzz_type != FuzzableType::NoFuzzable {
                let idx = st.seq.fuzzable_params.len() as usize;
                let s1 = if p.fuzz_call.needs_mut_tag {
                    SequenceView { fuzzable_mut_tag: seq_insert(st.seq.fuzzable_mut_tag, idx), ..st.seq }
                } else {
                    st.seq
                };
                let s2 = SequenceView { fuzzable_params: s1.fuzzable_params.push(p.fuzz_type), ..s1 };
                let param = CallParam { param_type: ParamType::FuzzableType, index: idx, call_type: p.fuzz_call };
                let st2 = SatState { seq: s2, call: CallView { func: st.call.func, params: st.call.params.push(param) }, ..st };
                assert forall|q: int| 0 <= q < st.call.params.len() implies st2.call.params[q] == st.call.params[q] by {}
                assert(borrow_ok(st2));
                lemma_satisfy_borrow_ok(fns, deps, f, st2, k + 1, n);
            }
        } else {
            lemma_scan_borrow_ok(deps, f, k as usize, st, 0, n);
            match scan(deps, f, k as usize, st, 0, n) {
                None => {},
                Some(st1) => lemma_satisfy_borrow_ok(fns, deps, f, st1, k + 1, n),
            }
        }
    }
}

proof fn lemma_scan_keeps(deps: Seq<ApiDependency>, f: usize, k: usize, st: SatState, fi: int, n: int)
    ensures
        scan(deps, f, k, st, fi, n) matches Some(s) ==> s.seq.functions == st.seq.functions && s.call.func
            == st.call.func,
    decreases n - fi,
{
    if 0 <= fi < n {
        lemma_scan_step_param(deps, f, k, st, fi);
        let (st1, found) = scan_step(deps, f, k, st, fi);
        if !found {
            lemma_scan_keeps(deps, f, k, st1, fi + 1, n);
        }
    }
}

proof fn lemma_satisfy_keeps(fns: Seq<ApiFunction>, deps: Seq<ApiDependency>, f: usize, st: SatState, k: int, n: int)
    ensures
        satisfy_params(fns, deps, f, st, k, n) matches Some(s) ==> s.seq.functions == st.seq.functions
            && s.call.func == st.call.func,
    decreases fns[f as int].inputs@.len() - k,
{
    let inputs = fns[f as int].inputs@;
    if 0 <= k < inputs.len() {
        let p = inputs[k];
        if p.fuzzable {
            if p.fuzz_type != FuzzableType::NoFuzzable {
                let idx = st.seq.fuzzable_params.len() as usize;
                let s1 = if p.fuzz_call.needs_mut_tag {
                    SequenceView { fuzzable_mut_tag: seq_insert(st.seq.fuzzable_mut_tag, idx), ..st.seq }
                } else {
                    st.seq
                };
                let s2 = SequenceView { fuzzable_params: s1.fuzzable_params.push(p.fuzz_type), ..s1 };
                let param = CallParam { param_type: ParamType::FuzzableType, index: idx, call_type: p.fuzz_call };
                let st2 = SatState { seq: s2, call: CallView { func: st.call.func, params: st.call.params.push(param) }, ..st };
                lemma_satisfy_keeps(fns, deps, f, st2, k + 1, n);
            }
        } else {
            lemma_scan_keeps(deps, f, k as usize, st, 0, n);
            match scan(deps, f, k as usize, st, 0, n) {
                None => {},
                Some(st1) => lemma_satisfy_keeps(fns, deps, f, st1, k + 1, n),
            }
        }
    }
}

/// A sequence extended by a call of function `f` keeps its calls and
/// ends with the call of `f`.
pub proof fn lemma_fun_satisfied_extends(
    fns: Seq<ApiFunction>,
    deps: Seq<ApiDependency>,
    input_fun_type: ApiType,
    f: usize,
    seq: SequenceView,
)
    ensures
        spec_is_fun_satisfied(fns, deps, input_fun_type, f, seq) matches Some(s) ==> {
            &&& s.functions.len() == seq.functions.len() + 1
            &&& s.functions.drop_last() == seq.functions
            &&& s.last_func_index() == Some(f)
        },
{
    reveal(spec_is_fun_satisfied);
    if input_fun_type == ApiType::BareFunction && fns[f as int].inputs@.len() != 0 {
        let func = fns[f as int];
        let s0 = if func.is_unsafe {
            SequenceView { unsafe_tag: true, ..seq }
        } else {
            seq
        };
        let s1 = match func.trait_full_path {
            Some(t) => SequenceView { using_traits: crate::sequence::name_insert(s0.using_traits, t@), ..s0 },
            None => s0,
        };
        let call0 = CallView { func: (ApiType::BareFunction, f), params: Seq::empty() };
        let st0 = SatState {
            seq: s1,
            call: call0,
            moved: Seq::empty(),
            multi_mut: Seq::empty(),
            immutable_borrow: Seq::empty(),
        };
        lemma_satisfy_keeps(fns, deps, f, st0, 0, seq.functions.len() as int);
        match satisfy_params(fns, deps, f, st0, 0, seq.functions.len() as int) {
            None => {},
            Some(st) => {
                assert(st.seq.functions.push(st.call).drop_last() =~= seq.functions);
            },
        }
    } else if input_fun_type == ApiType::BareFunction {
        let call0 = CallView { func: (ApiType::BareFunction, f), params: Seq::empty() };
        assert(seq.functions.push(call0).drop_last() =~= seq.functions);
    }
}

/// The fuzzable parameters among the first `k` of function `f` each have
/// a fuzzer input of their own, created on top of the `base` inputs there
/// were: of the parameter's kind, and tagged mutable when the parameter is
/// passed by mutable reference.
pub open spec fn fuzz_inputs_ok(fns: Seq<ApiFunction>, f: usize, st: SatState, base: int, k: int) -> bool {
    let inputs = fns[f as int].inputs@;
    &&& st.call.params.len() == k
    &&& base <= st.seq.fuzzable_params.len()
    &&& forall|q: int|
        0 <= q < k && inputs[q].fuzzable ==> {
            let arg = #[trigger] st.call.params[q];
            &&& arg.param_type == ParamType::FuzzableType
            &&& base <= arg.index < st.seq.fuzzable_params.len()
            &&& st.seq.fuzzable_params[arg.index as int] == inputs[q].fuzz_type
            &&& inputs[q].fuzz_call.needs_mut_tag ==> st.seq.fuzzable_mut_tag.contains(arg.index)
        }
    &&& forall|q1: int, q2: int|
        0 <= q1 < q2 < k && inputs[q1].fuzzable && inputs[q2].fuzzable ==> (#[trigger] st.call.params[q1]).index
            < (#[trigger] st.call.params[q2]).index
}

proof fn lemma_scan_step_fuzz(deps: Seq<ApiDependency>, f: usize, k: usize, st: SatState, fi: int)
    ensures
        ({
            let (st1, found) = scan_step(deps, f, k, st, fi);
            &&& st1.seq.fuzzable_params == st.seq.fuzzable_params
            &&& st1.seq.fuzzable_mut_tag == st.seq.fuzzable_mut_tag
            &&& !found ==> st1.call == st.call
            &&& found ==> st1.call.params.len() == st.call.params.len() + 1 && st1.call.params.drop_last() == st.call.params
        }),
{
    reveal(scan_step);
    let (st1, found) = scan_step(deps, f, k, st, fi);
    if found {
        assert(st1.call.params.drop_last() =~= st.call.params);
    }
}

proof fn lemma_scan_fuzz(deps: Seq<ApiDependency>, f: usize, k: usize, st: SatState, fi: int, n: int)
    ensures
        scan(deps, f, k, st, fi, n) matches Some(s) ==> {
            &&& s.seq.fuzzable_params == st.seq.fuzzable_params
            &&& s.seq.fuzzable_mut_tag == st.seq.fuzzable_mut_tag
            &&& s.call.params.len() == st.call.params.len() + 1
            &&& s.call.params.drop_last() == st.call.params
        },
    decreases n - fi,
{
    if 0 <= fi < n {
        lemma_scan_step_fuzz(deps, f, k, st, fi);
        let (st1, found) = scan_step(deps, f, k, st, fi);
        if !found {
            lemma_scan_fuzz(deps, f, k, st1, fi + 1, n);
        }
    }
}

proof fn lemma_satisfy_fuzz(fns: Seq<ApiFunction>, deps: Seq<ApiDependency>, f: usize, st: SatState, base: int, k: int, n: int)
    requires
        0 <= k <= fns[f as int].inputs@.len(),
        fuzz_inputs_ok(fns, f, st, base, k),
        st.seq.fuzzable_params.len() + fns[f as int].inputs@.len() - k <= usize::MAX,
    ensures
        satisfy_params(fns, deps, f, st, k, n) matches Some(s) ==> fuzz_inputs_ok(
            fns,
            f,
            s,
            base,
            fns[f as int].inputs@.len() as int,
        ),
    decreases fns[f as int].inputs@.len() - k,
{
    let inputs = fns[f as int].inputs@;
    if k < inputs.len() {
        let p = inputs[k];
        if p.fuzzable {
            if p.fuzz_type != FuzzableType::NoFuzzable {
                let idx = st.seq.fuzzable_params.len() as usize;
                let s1 = if p.fuzz_call.needs_mut_tag {
                    SequenceView { fuzzable_mut_tag: seq_insert(st.seq.fuzzable_mut_tag, idx), ..st.seq }
                } else {
                    st.seq
                };
                let s2 = SequenceView { fuzzable_params: s1.fuzzable_params.push(p.fuzz_type), ..s1 };
                let param = CallParam { param_type: ParamType::FuzzableType, index: idx, call_type: p.fuzz_call };
                let st2 = SatState { seq: s2, call: CallView { func: st.call.func, params: st.call.params.push(param) }, ..st };
                lemma_seq_insert_contains(st.seq.fuzzable_mut_tag, idx);
                assert forall|q: int|
                    0 <= q < k + 1 && inputs[q].fuzzable implies {
                        let arg = #[trigger] st2.call.params[q];
                        &&& arg.param_type == ParamType::FuzzableType
                        &&& base <= arg.index < st2.seq.fuzzable_params.len()
                        &&& st2.seq.fuzzable_params[arg.index as int] == inputs[q].fuzz_type
                        &&& inputs[q].fuzz_call.needs_mut_tag ==> st2.seq.fuzzable_mut_tag.contains(arg.index)
                    } by {
                    if q < k {
                        assert(st2.call.params[q] == st.call.params[q]);
                        let arg = st.call.params[q];
                        assert(base <= arg.index < st.seq.fuzzable_params.len());
                        assert(st2.seq.fuzzable_params[arg.index as int] == st.seq.fuzzable_params[arg.index as int]);
                    } else {
                        assert(st2.call.params[q] == param);
                        assert(st2.seq.fuzzable_params[idx as int] == p.fuzz_type);
                    }
                }
                assert forall|q1: int, q2: int|
                    0 <= q1 < q2 < k + 1 && inputs[q1].fuzzable && inputs[q2].fuzzable implies (
                    #[trigger] st2.call.params[q1]).index < (#[trigger] st2.call.params[q2]).index by {
                    assert(st2.call.params[q1] == st.call.params[q1]);
                    let a1 = st.call.params[q1];
                    assert(a1.index < st.seq.fuzzable_params.len());
                    if q2 < k {
                        assert(st2.call.params[q2] == st.call.params[q2]);
                    }
                }
                lemma_satisfy_fuzz(fns, deps, f, st2, base, k + 1, n);
            }
        } else {
            lemma_scan_fuzz(deps, f, k as usize, st, 0, n);
            match scan(deps, f, k as usize, st, 0, n) {
                None => {},
                Some(st1) => {
                    assert forall|q: int| 0 <= q < k implies #[trigger] st1.call.params[q] == st.call.params[q] by {
                        assert(st1.call.params.drop_last()[q] == st1.call.params[q]);
                    }
                    assert forall|q1: int, q2: int|
                        0 <= q1 < q2 < k + 1 && inputs[q1].fuzzable && inputs[q2].fuzzable implies (
                        #[trigger] st1.call.params[q1]).index < (#[trigger] st1.call.params[q2]).index by {
                        assert(st1.call.params[q1] == st.call.params[q1]);
                        assert(st1.call.params[q2] == st.call.params[q2]);
                    }
                    lemma_satisfy_fuzz(fns, deps, f, st1, base, k + 1, n);
                },
            }
        }
    }
}

/// Each fuzzable parameter of the new call gets a fresh fuzzer input of
/// its own: one added to the sequence's inputs, of the parameter's kind,
/// later than the inputs of earlier parameters, and tagged mutable when the
/// parameter takes it by mutable reference (so the generated target binds
/// it `mut`).
pub proof fn lemma_fun_satisfied_fuzz_inputs(fns: Seq<ApiFunction>, deps: Seq<ApiDependency>, f: usize, seq: SequenceView)
    requires
        f < fns.len(),
        seq.fuzzable_params.len() + fns[f as int].inputs@.len() <= usize::MAX,
    ensures
        spec_is_fun_satisfied(fns, deps, ApiType::BareFunction, f, seq) matches Some(s) ==> {
            let inputs = fns[f as int].inputs@;
            let call = s.functions.last();
            &&& s.functions.len() >= 1
            &&& call.params.len() == inputs.len()
            &&& forall|q: int|
                0 <= q < inputs.len() && inputs[q].fuzzable ==> {
                    let arg = #[trigger] call.params[q];
                    &&& arg.param_type == ParamType::FuzzableType
                    &&& seq.fuzzable_params.len() <= arg.index < s.fuzzable_params.len()
                    &&& s.fuzzable_params[arg.index as int] == inputs[q].fuzz_type
                    &&& inputs[q].fuzz_call.needs_mut_tag ==> s.fuzzable_mut_tag.contains(arg.index)
                }
            &&& forall|q1: int, q2: int|
                0 <= q1 < q2 < inputs.len() && inputs[q1].fuzzable && inputs[q2].fuzzable ==> (#[trigger] call.params[q1]).index
                    < (#[trigger] call.params[q2]).index
        },
{
    reveal(spec_is_fun_satisfied);
    let func = fns[f as int];
    let s0 = if func.is_unsafe {
        SequenceView { unsafe_tag: true, ..seq }
    } else {
        seq
    };
    let s1 = match func.trait_full_path {
        Some(t) => SequenceView { using_traits: crate::sequence::name_insert(s0.using_traits, t@), ..s0 },
        None => s0,
    };
    let call0 = CallView { func: (ApiType::BareFunction, f), params: Seq::empty() };
    if func.inputs@.len() != 0 {
        let st0 = SatState { seq: s1, call: call0, moved: Seq::empty(), multi_mut: Seq::empty(), immutable_borrow: Seq::empty() };
        lemma_satisfy_fuzz(fns, deps, f, st0, seq.fuzzable_params.len() as int, 0, seq.functions.len() as int);
        match satisfy_params(fns, deps, f, st0, 0, seq.functions.len() as int) {
            None => {},
            Some(st) => {
                let s2 = SequenceView {
                    functions: st.seq.functions.push(st.call),
                    moved: set_union(st.seq.moved, st.moved),
                    ..st.seq
                };
                assert(s2.functions.last() == st.call);
            },
        }
    } else {
        assert(s1.functions.push(call0).last() == call0);
    }
}

/// Argument `arg`, given as parameter `q` of function `f` in call `c` of
/// `calls`: a fuzzer input passed as the parameter's fuzzable kind says
/// when the parameter is fuzzable, else the result of an earlier call whose
/// function has a dependency to the parameter, passed as that dependency
/// says.
pub open spec fn arg_fits(
    fns: Seq<ApiFunction>,
    deps: Seq<ApiDependency>,
    f: usize,
    calls: Seq<CallView>,
    c: int,
    arg: CallParam,
    q: int,
) -> bool {
    let p = fns[f as int].inputs@[q];
    if p.fuzzable {
        arg.param_type == ParamType::FuzzableType && arg.call_type == p.fuzz_call
    } else {
        &&& arg.param_type == ParamType::FunctionReturn
        &&& exists|j: int, d: int|
            0 <= j < c && j as usize == arg.index && 0 <= d < deps.len() && dep_matches(
                deps[d],
                calls[j].func,
                (ApiType::BareFunction, f),
                q as usize,
            ) && deps[d].call_type == arg.call_type
    }
}

/// Call `c` of `calls` is of a function of the graph, with one argument
/// per parameter, each of which fits.
pub open spec fn call_fits(fns: Seq<ApiFunction>, deps: Seq<ApiDependency>, calls: Seq<CallView>, c: int) -> bool {
    let call = calls[c];
    &&& call.func.0 == ApiType::BareFunction
    &&& call.func.1 < fns.len()
    &&& call.params.len() == fns[call.func.1 as int].inputs@.len()
    &&& forall|q: int| 0 <= q < call.params.len() ==> arg_fits(fns, deps, call.func.1, calls, c, #[trigger] call.params[q], q)
}

/// Every call of `s` fits: a sequence a fuzz target can be written from.
pub open spec fn calls_fit(fns: Seq<ApiFunction>, deps: Seq<ApiDependency>, s: SequenceView) -> bool {
    forall|c: int| 0 <= c < s.functions.len() ==> #[trigger] call_fits(fns, deps, s.functions, c)
}

proof fn lemma_check_dependency_some(deps: Seq<ApiDependency>, output: (ApiType, usize), input: (ApiType, usize), k: usize)
    requires
        deps.len() <= usize::MAX,
    ensures
        spec_check_dependency(deps, output, input, k) matches Some(d) ==> d < deps.len() && dep_matches(
            deps[d as int],
            output,
            input,
            k,
        ),
{
    if exists|d: int| 0 <= d < deps.len() && dep_matches(deps[d], output, input, k) {
        let d = choose|d: int| 0 <= d < deps.len() && dep_matches(deps[d], output, input, k);
        lemma_first_dependency(deps, output, input, k, d);
    }
}

proof fn lemma_first_dependency(deps: Seq<ApiDependency>, output: (ApiType, usize), input: (ApiType, usize), k: usize, d: int)
    requires
        0 <= d < deps.len(),
        dep_matches(deps[d], output, input, k),
    ensures
        exists|c: int| 0 <= c < deps.len() && dep_matches(deps[c], output, input, k) && forall|e: int| 0 <= e < c ==> !dep_matches(
            #[trigger] deps[e],
            output,
            input,
            k,
        ),
    decreases d,
{
    if exists|e: int| 0 <= e < d && dep_matches(deps[e], output, input, k) {
        let e = choose|e: int| 0 <= e < d && dep_matches(deps[e], output, input, k);
        lemma_first_dependency(deps, output, input, k, e);
    } else {
        assert forall|e: int| 0 <= e < d implies !dep_matches(#[trigger] deps[e], output, input, k) by {}
    }
}

/// The arguments chosen so far for parameters `0..k` of function `f`, on
/// top of the calls `calls`, fit.
pub open spec fn fits_so_far(fns: Seq<ApiFunction>, deps: Seq<ApiDependency>, f: usize, calls: Seq<CallView>, st: SatState, k: int) -> bool {
    &&& st.seq.functions == calls
    &&& st.call.params.len() == k
    &&& forall|q: int| 0 <= q < k ==> arg_fits(fns, deps, f, calls, calls.len() as int, #[trigger] st.call.params[q], q)
}

proof fn lemma_scan_step_param(deps: Seq<ApiDependency>, f: usize, k: usize, st: SatState, fi: int)
    ensures
        ({
            let (st1, found) = scan_step(deps, f, k, st, fi);
            &&& st1.seq.functions == st.seq.functions
            &&& st1.call.func == st.call.func
            &&& !found ==> st1.call == st.call
            &&& found ==> (spec_check_dependency(deps, st.seq.functions[fi].func, (ApiType::BareFunction, f), k) matches Some(
                d,
            ) && st1.call.params == st.call.params.push(
                CallParam { param_type: ParamType::FunctionReturn, index: fi as usize, call_type: deps[d as int].call_type },
            ))
        }),
{
    reveal(scan_step);
}

proof fn lemma_scan_fits(
    fns: Seq<ApiFunction>,
    deps: Seq<ApiDependency>,
    f: usize,
    k: int,
    calls: Seq<CallView>,
    st: SatState,
    fi: int,
    n: int,
)
    requires
        fits_so_far(fns, deps, f, calls, st, k),
        n == calls.len(),
        deps.len() <= usize::MAX,
        !fns[f as int].inputs@[k].fuzzable,
    ensures
        scan(deps, f, k as usize, st, fi, n) matches Some(s) ==> fits_so_far(fns, deps, f, calls, s, k + 1),
    decreases n - fi,
{
    if 0 <= fi < n {
        lemma_check_dependency_some(deps, st.seq.functions[fi].func, (ApiType::BareFunction, f), k as usize);
        lemma_scan_step_param(deps, f, k as usize, st, fi);
        let (st1, found) = scan_step(deps, f, k as usize, st, fi);
        if found {
            let d = spec_check_dependency(deps, st.seq.functions[fi].func, (ApiType::BareFunction, f), k as usize)->0;
            let arg = st1.call.params[k];
            assert(arg.index == fi as usize);
            assert(dep_matches(deps[d as int], calls[fi].func, (ApiType::BareFunction, f), k as usize));
            assert(arg_fits(fns, deps, f, calls, calls.len() as int, arg, k));
            assert forall|q: int| 0 <= q < k + 1 implies arg_fits(fns, deps, f, calls, calls.len() as int, #[trigger] st1.call.params[q], q) by {
                if q < k {
                    assert(st1.call.params[q] == st.call.params[q]);
                }
            }
        } else {
            lemma_scan_fits(fns, deps, f, k, calls, st1, fi + 1, n);
        }
    }
}

proof fn lemma_satisfy_fits(
    fns: Seq<ApiFunction>,
    deps: Seq<ApiDependency>,
    f: usize,
    calls: Seq<CallView>,
    st: SatState,
    k: int,
    n: int,
)
    requires
        fits_so_far(fns, deps, f, calls, st, k),
        0 <= k <= fns[f as int].inputs@.len(),
        n == calls.len(),
        deps.len() <= usize::MAX,
    ensures
        satisfy_params(fns, deps, f, st, k, n) matches Some(s) ==> fits_so_far(fns, deps, f, calls, s, fns[f as int].inputs@.len() as int),
    decreases fns[f as int].inputs@.len() - k,
{
    let inputs = fns[f as int].inputs@;
    if k < inputs.len() {
        let p = inputs[k];
        if p.fuzzable {
            if p.fuzz_type != FuzzableType::NoFuzzable {
                let idx = st.seq.fuzzable_params.len() as usize;
                let s1 = if p.fuzz_call.needs_mut_tag {
                    SequenceView { fuzzable_mut_tag: seq_insert(st.seq.fuzzable_mut_tag, idx), ..st.seq }
                } else {
                    st.seq
                };
                let s2 = SequenceView { fuzzable_params: s1.fuzzable_params.push(p.fuzz_type), ..s1 };
                let param = CallParam { param_type: ParamType::FuzzableType, index: idx, call_type: p.fuzz_call };
                let st2 = SatState { seq: s2, call: CallView { func: st.call.func, params: st.call.params.push(param) }, ..st };
                assert forall|q: int| 0 <= q < k + 1 implies arg_fits(fns, deps, f, calls, calls.len() as int, #[trigger] st2.call.params[q], q) by {
                    if q < k {
                        assert(st2.call.params[q] == st.call.params[q]);
                    }
                }
                lemma_satisfy_fits(fns, deps, f, calls, st2, k + 1, n);
            }
        } else {
            lemma_scan_fits(fns, deps, f, k, calls, st, 0, n);
            match scan(deps, f, k as usize, st, 0, n) {
                None => {},
                Some(st1) => lemma_satisfy_fits(fns, deps, f, calls, st1, k + 1, n),
            }
        }
    }
}

/// A sequence whose calls all fit, extended by a call of function `f` of
/// the graph, still has only calls that fit.
pub proof fn lemma_fun_satisfied_fits(
    fns: Seq<ApiFunction>,
    deps: Seq<ApiDependency>,
    input_fun_type: ApiType,
    f: usize,
    seq: SequenceView,
)
    requires
        calls_fit(fns, deps, seq),
        f < fns.len(),
        deps.len() <= usize::MAX,
    ensures
        spec_is_fun_satisfied(fns, deps, input_fun_type, f, seq) matches Some(s) ==> calls_fit(fns, deps, s),
{
    reveal(spec_is_fun_satisfied);
    lemma_fun_satisfied_extends(fns, deps, input_fun_type, f, seq);
    if input_fun_type == ApiType::BareFunction {
        let n = seq.functions.len() as int;
        match spec_is_fun_satisfied(fns, deps, input_fun_type, f, seq) {
            None => {},
            Some(s) => {
                // the new last call fits on top of the earlier calls
                let func = fns[f as int];
                let s0 = if func.is_unsafe {
                    SequenceView { unsafe_tag: true, ..seq }
                } else {
                    seq
                };
                let s1 = match func.trait_full_path {
                    Some(t) => SequenceView { using_traits: crate::sequence::name_insert(s0.using_traits, t@), ..s0 },
                    None => s0,
                };
                let call0 = CallView { func: (ApiType::BareFunction, f), params: Seq::empty() };
                if func.inputs@.len() != 0 {
                    let st0 = SatState {
                        seq: s1,
                        call: call0,
                        moved: Seq::empty(),
                        multi_mut: Seq::empty(),
                        immutable_borrow: Seq::empty(),
                    };
                    lemma_satisfy_fits(fns, deps, f, seq.functions, st0, 0, n);
                    lemma_satisfy_keeps(fns, deps, f, st0, 0, n);
                    let st = satisfy_params(fns, deps, f, st0, 0, n)->0;
                    assert(s.functions == seq.functions.push(st.call));
                }
                assert(s.functions.drop_last() == seq.functions);
                let last = s.functions[n];
                assert forall|q: int| 0 <= q < last.params.len() implies arg_fits(fns, deps, f, s.functions, n, #[trigger] last.params[q], q) by {
                    if !fns[f as int].inputs@[q].fuzzable {
                        let arg = last.params[q];
                        assert(arg_fits(fns, deps, f, seq.functions, n, arg, q));
                        let (j, d) = choose|j: int, d: int|
                            0 <= j < n && j as usize == arg.index && 0 <= d < deps.len() && dep_matches(
                                deps[d],
                                seq.functions[j].func,
                                (ApiType::BareFunction, f),
                                q as usize,
                            ) && deps[d].call_type == arg.call_type;
                        assert(s.functions[j] == seq.functions[j]);
                    }
                }
                assert(call_fits(fns, deps, s.functions, n));
                assert forall|c: int| 0 <= c < s.functions.len() implies #[trigger] call_fits(fns, deps, s.functions, c) by {
                    if c < n {
                        assert(call_fits(fns, deps, seq.functions, c));
                        let call = seq.functions[c];
                        assert(s.functions[c] == call);
                        assert forall|q: int| 0 <= q < call.params.len() implies arg_fits(fns, deps, call.func.1, s.functions, c, #[trigger] call.params[q], q) by {
                            if !fns[call.func.1 as int].inputs@[q].fuzzable {
                                let arg = call.params[q];
                                assert(arg_fits(fns, deps, call.func.1, seq.functions, c, arg, q));
                                let (j, d) = choose|j: int, d: int|
                                    0 <= j < c && j as usize == arg.index && 0 <= d < deps.len() && dep_matches(
                                        deps[d],
                                        seq.functions[j].func,
                                        (ApiType::BareFunction, call.func.1),
                                        q as usize,
                                    ) && deps[d].call_type == arg.call_type;
                                assert(s.functions[j] == seq.functions[j]);
                            }
                        }
                    }
                }
            },
        }
    }
}

/// What stays true while the call is built on top of `seq` (of `n`
/// calls): the earlier calls are untouched, and every index recorded so far
/// points into the sequence.
pub open spec fn state_ok(st: SatState, seq: SequenceView, n: int) -> bool {
    &&& n == seq.functions.len()
    &&& st.seq.functions == seq.functions
    &&& st.seq.moved == seq.moved
    &&& seq.fuzzable_params.len() <= st.seq.fuzzable_params.len()
    &&& st.seq.fuzzable_params.subrange(0, seq.fuzzable_params.len() as int) == seq.fuzzable_params
    &&& forall|q: int| 0 <= q < st.call.params.len() ==> {
        let arg = #[trigger] st.call.params[q];
        match arg.param_type {
            ParamType::FunctionReturn => arg.index < n,
            ParamType::FuzzableType => arg.index < st.seq.fuzzable_params.len(),
        }
    }
    &&& forall|q: int| 0 <= q < st.moved.len() ==> #[trigger] st.moved[q] < n
    &&& forall|q: int| 0 <= q < st.seq.function_mut_tag.len() ==> #[trigger] st.seq.function_mut_tag[q] < n
    &&& forall|q: int| 0 <= q < st.seq.fuzzable_mut_tag.len() ==> #[trigger] st.seq.fuzzable_mut_tag[q]
        < st.seq.fuzzable_params.len()
}

pub open spec fn mk_state(
    seq: SequenceView,
    call: CallView,
    moved: Seq<usize>,
    multi_mut: Seq<usize>,
    immutable_borrow: Seq<usize>,
) -> SatState {
    SatState { seq, call, moved, multi_mut, immutable_borrow }
}

impl ApiGraph {
    /// Considers call `fi` of the sequence as the source of parameter `k`
    /// of function `f`, and takes it when it fits.
    #[verifier::rlimit(80)]
    fn scan_one(
        &self,
        f: usize,
        k: usize,
        fi: usize,
        sequence: &ApiSequence,
        new_sequence: &mut ApiSequence,
        api_call: &mut ApiCall,
        moved_indexes: &mut Vec<usize>,
        multi_mut: &mut Vec<usize>,
        immutable_borrow: &mut Vec<usize>,
    ) -> (found: bool)
        requires
            f < self.api_functions@.len(),
            k < self.api_functions@[f as int].inputs@.len(),
            !self.api_functions@[f as int].inputs@[k as int].fuzzable,
            fi < sequence@.functions.len(),
            state_ok(
                mk_state(old(new_sequence)@, old(api_call)@, old(moved_indexes)@, old(multi_mut)@, old(immutable_borrow)@),
                sequence@,
                sequence@.functions.len() as int,
            ),
            old(api_call)@.params.len() == k,
        ensures
            mk_state(final(new_sequence)@, final(api_call)@, final(moved_indexes)@, final(multi_mut)@, final(immutable_borrow)@)
                == scan_step(
                self.api_dependencies@,
                f,
                k,
                mk_state(old(new_sequence)@, old(api_call)@, old(moved_indexes)@, old(multi_mut)@, old(immutable_borrow)@),
                fi as int,
            ).0,
            found == scan_step(
                self.api_dependencies@,
                f,
                k,
                mk_state(old(new_sequence)@, old(api_call)@, old(moved_indexes)@, old(multi_mut)@, old(immutable_borrow)@),
                fi as int,
            ).1,
            state_ok(
                mk_state(final(new_sequence)@, final(api_call)@, final(moved_indexes)@, final(multi_mut)@, final(immutable_borrow)@),
                sequence@,
                sequence@.functions.len() as int,
            ),
            final(api_call)@.func == old(api_call)@.func,
            !found ==> final(api_call)@ == old(api_call)@,
            found ==> final(api_call)@.params.len() == k + 1,
            found ==> forall|q: int| 0 <= q < k ==> final(api_call)@.params[q] == old(api_call)@.params[q],
            found ==> argument_fits(self.api_functions@, self.api_dependencies@, f, sequence@, final(api_call)@, k as int),
    {
        proof {
            reveal(scan_step);
        }
        let ghost n = sequence@.functions.len() as int;
        if new_sequence.is_moved(fi) || contains_index(moved_indexes, fi) {
            return false;
        }
        let func = new_sequence.functions[fi].func;
        proof {
            assert(new_sequence@.functions[fi as int].func == func);
        }
        let dependency_index = match self.check_dependency(&func.0, func.1, &ApiType::BareFunction, f, k) {
            Some(d) => d,
            None => {
                return false;
            },
        };
        let dependency_ = self.api_dependencies[dependency_index];
        let ct = dependency_.call_type;
        new_sequence.add_dependency(dependency_index);
        if ct.moves_value {
            if contains_index(multi_mut, fi) || contains_index(immutable_borrow, fi) {
                return false;
            }
            insert_index(moved_indexes, fi);
        }
        if ct.borrows_mut {
            if contains_index(multi_mut, fi) || contains_index(immutable_borrow, fi) {
                return false;
            }
            insert_index(multi_mut, fi);
        }
        if ct.borrows_shared {
            if contains_index(multi_mut, fi) {
                return false;
            }
            insert_index(immutable_borrow, fi);
        }
        if ct.needs_mut_tag {
            new_sequence.insert_function_mut_tag(fi);
        }
        if ct.is_unsafe {
            new_sequence.set_unsafe();
        }
        api_call.add_param(ParamType::FunctionReturn, fi, ct);
        proof {
            assert(api_call@.params[k as int].index == fi);
            assert(dep_matches(
                self.api_dependencies@[dependency_index as int],
                sequence@.functions[fi as int].func,
                (ApiType::BareFunction, f),
                k,
            ));
        }
        true
    }

    /// Looks for the source of parameter `k` of function `f` among the
    /// calls of the sequence, in order.
    #[verifier::rlimit(50)]
    fn find_producer(
        &self,
        f: usize,
        k: usize,
        sequence: &ApiSequence,
        new_sequence: &mut ApiSequence,
        api_call: &mut ApiCall,
        moved_indexes: &mut Vec<usize>,
        multi_mut: &mut Vec<usize>,
        immutable_borrow: &mut Vec<usize>,
    ) -> (found: bool)
        requires
            f < self.api_functions@.len(),
            k < self.api_functions@[f as int].inputs@.len(),
            !self.api_functions@[f as int].inputs@[k as int].fuzzable,
            state_ok(
                mk_state(old(new_sequence)@, old(api_call)@, old(moved_indexes)@, old(multi_mut)@, old(immutable_borrow)@),
                sequence@,
                sequence@.functions.len() as int,
            ),
            old(api_call)@.params.len() == k,
        ensures
            scan(
                self.api_dependencies@,
                f,
                k,
                mk_state(old(new_sequence)@, old(api_call)@, old(moved_indexes)@, old(multi_mut)@, old(immutable_borrow)@),
                0,
                sequence@.functions.len() as int,
            ) == if found {
                Some(mk_state(final(new_sequence)@, final(api_call)@, final(moved_indexes)@, final(multi_mut)@, final(immutable_borrow)@))
            } else {
                None
            },
            found ==> state_ok(
                mk_state(final(new_sequence)@, final(api_call)@, final(moved_indexes)@, final(multi_mut)@, final(immutable_borrow)@),
                sequence@,
                sequence@.functions.len() as int,
            ),
            final(api_call)@.func == old(api_call)@.func,
            found ==> final(api_call)@.params.len() == k + 1,
            found ==> forall|q: int| 0 <= q < k ==> final(api_call)@.params[q] == old(api_call)@.params[q],
            found ==> argument_fits(self.api_functions@, self.api_dependencies@, f, sequence@, final(api_call)@, k as int),
    {
        let n = sequence.functions.len();
        let ghost st_k = mk_state(new_sequence@, api_call@, moved_indexes@, multi_mut@, immutable_borrow@);
        let ghost call_k = api_call@;
        let mut fi: usize = 0;
        while fi < n
            invariant
                f < self.api_functions@.len(),
                k < self.api_functions@[f as int].inputs@.len(),
                !self.api_functions@[f as int].inputs@[k as int].fuzzable,
                n == sequence@.functions.len(),
                fi <= n,
                state_ok(mk_state(new_sequence@, api_call@, moved_indexes@, multi_mut@, immutable_borrow@), sequence@, n as int),
                api_call@ == call_k,
                call_k == old(api_call)@,
                st_k == mk_state(old(new_sequence)@, old(api_call)@, old(moved_indexes)@, old(multi_mut)@, old(immutable_borrow)@),
                call_k.params.len() == k,
                scan(self.api_dependencies@, f, k, st_k, 0, n as int) == scan(
                    self.api_dependencies@,
                    f,
                    k,
                    mk_state(new_sequence@, api_call@, moved_indexes@, multi_mut@, immutable_borrow@),
                    fi as int,
                    n as int,
                ),
            decreases n - fi,
        {
            let ghost prev = mk_state(new_sequence@, api_call@, moved_indexes@, multi_mut@, immutable_borrow@);
            let found = self.scan_one(f, k, fi, sequence, new_sequence, api_call, moved_indexes, multi_mut, immutable_borrow);
            proof {
                let next = mk_state(new_sequence@, api_call@, moved_indexes@, multi_mut@, immutable_borrow@);
                assert(scan(self.api_dependencies@, f, k, prev, fi as int, n as int) == if found {
                    Some(next)
                } else {
                    scan(self.api_dependencies@, f, k, next, fi + 1, n as int)
                });
            }
            if found {
                return true;
            }
            fi = fi + 1;
        }
        false
    }

    /// Tries to append a call of function `input_fun_index` to `sequence`;
    /// returns the extended sequence when every parameter can be supplied.
    pub fn is_fun_satisfied(
        &self,
        input_fun_type: &ApiType,
        input_fun_index: usize,
        sequence: &ApiSequence,
    ) -> (r: Option<ApiSequence>)
        requires
            *input_fun_type == ApiType::BareFunction ==> input_fun_index < self.api_functions@.len(),
            sequence@.consistent(),
        ensures
            match r {
                Some(s) => spec_is_fun_satisfied(
                    self.api_functions@,
                    self.api_dependencies@,
                    *input_fun_type,
                    input_fun_index,
                    sequence@,
                ) == Some(s@),
                None => spec_is_fun_satisfied(
                    self.api_functions@,
                    self.api_dependencies@,
                    *input_fun_type,
                    input_fun_index,
                    sequence@,
                ) is None,
            },
            r matches Some(s) ==> {
                &&& s@.consistent()
                &&& s@.functions.len() == sequence@.functions.len() + 1
                &&& s@.functions.drop_last() == sequence@.functions
                &&& s@.functions.last().func == (ApiType::BareFunction, input_fun_index)
                &&& s@.functions.last().params.len() == self.api_functions@[input_fun_index as int].inputs@.len()
                &&& forall|q: int| 0 <= q < s@.functions.last().params.len() ==> argument_fits(
                    self.api_functions@,
                    self.api_dependencies@,
                    input_fun_index,
                    sequence@,
                    s@.functions.last(),
                    q,
                )
                &&& borrows_respected(s@.functions.last())
                &&& sequence@.refers_within(self.api_functions@.len()) ==> s@.refers_within(self.api_functions@.len())
            },
    {
        proof {
            reveal(spec_is_fun_satisfied);
        }
        match input_fun_type {
            ApiType::GenericFunction => {
                return None;
            },
            ApiType::BareFunction => {},
        }
        let ghost fns = self.api_functions@;
        let ghost deps = self.api_dependencies@;
        let ghost f = input_fun_index;
        let mut new_sequence = sequence.duplicate();
        let mut api_call = ApiCall::new(input_fun_index);
        let mut moved_indexes: Vec<usize> = Vec::new();
        let mut multi_mut: Vec<usize> = Vec::new();
        let mut immutable_borrow: Vec<usize> = Vec::new();
        let input_function = &self.api_functions[input_fun_index];
        if input_function.is_unsafe {
            new_sequence.set_unsafe();
        }
        if let Some(trait_full_path) = &input_function.trait_full_path {
            new_sequence.add_trait(trait_full_path);
        }
        let input_params = &input_function.inputs;
        if input_params.len() == 0 {
            new_sequence.add_fn(api_call);
            proof {
                assert(new_sequence@.functions.drop_last() =~= sequence@.functions);
            }
            return Some(new_sequence);
        }
        let n = sequence.functions.len();
        let ghost st0 = mk_state(new_sequence@, api_call@, moved_indexes@, multi_mut@, immutable_borrow@);
        proof {
            assert(st0.seq.fuzzable_params.subrange(0, sequence@.fuzzable_params.len() as int) =~= sequence@.fuzzable_params);
            let func = fns[f as int];
            let s0 = if func.is_unsafe {
                SequenceView { unsafe_tag: true, ..sequence@ }
            } else {
                sequence@
            };
            let s1 = match func.trait_full_path {
                Some(t) => SequenceView { using_traits: crate::sequence::name_insert(s0.using_traits, t@), ..s0 },
                None => s0,
            };
            assert(new_sequence@ == s1);
            assert(api_call@ == CallView { func: (ApiType::BareFunction, f), params: Seq::empty() });
            assert(api_call@.params =~= Seq::<CallParam>::empty());
            assert(moved_indexes@ =~= Seq::<usize>::empty());
            assert(multi_mut@ =~= Seq::<usize>::empty());
            assert(immutable_borrow@ =~= Seq::<usize>::empty());
        }
        let mut i: usize = 0;
        while i < input_params.len()
            invariant
                fns == self.api_functions@,
                deps == self.api_dependencies@,
                f == input_fun_index,
                f < fns.len(),
                *input_function == fns[f as int],
                *input_params == input_function.inputs,
                n == sequence@.functions.len(),
                i <= input_params@.len(),
                api_call@.func == (ApiType::BareFunction, f),
                api_call@.params.len() == i,
                satisfy_params(fns, deps, f, st0, 0, n as int) == satisfy_params(
                    fns,
                    deps,
                    f,
                    mk_state(new_sequence@, api_call@, moved_indexes@, multi_mut@, immutable_borrow@),
                    i as int,
                    n as int,
                ),
                state_ok(mk_state(new_sequence@, api_call@, moved_indexes@, multi_mut@, immutable_borrow@), sequence@, n as int),
                forall|q: int| 0 <= q < i ==> argument_fits(fns, deps, f, sequence@, api_call@, q),
                spec_is_fun_satisfied(fns, deps, *input_fun_type, f, sequence@) == finish_call(
                    satisfy_params(fns, deps, f, st0, 0, n as int)),
                input_params@.len() > 0,
            decreases input_params.len() - i,
        {
            let current = &input_params[i];
            let ghost call_before = api_call@;
            if current.fuzzable {
                let current_fuzzable_index = new_sequence.fuzzable_params.len();
                if current.fuzz_type == FuzzableType::NoFuzzable {
                    return None;
                }
                if current.fuzz_call.needs_mut_tag {
                    new_sequence.insert_fuzzable_mut_tag(current_fuzzable_index);
                }
                new_sequence.add_fuzzable(current.fuzz_type);
                api_call.add_param(ParamType::FuzzableType, current_fuzzable_index, current.fuzz_call);
                proof {
                    assert(new_sequence@.fuzzable_params.subrange(0, sequence@.fuzzable_params.len() as int)
                        =~= sequence@.fuzzable_params);
                    assert forall|q: int| 0 <= q < i + 1 implies argument_fits(fns, deps, f, sequence@, api_call@, q) by {
                        if q < i {
                            assert(api_call@.params[q] == call_before.params[q]);
                            assert(argument_fits(fns, deps, f, sequence@, call_before, q));
                        }
                    }
                }
            } else {
                let found = self.find_producer(
                    input_fun_index,
                    i,
                    sequence,
                    &mut new_sequence,
                    &mut api_call,
                    &mut moved_indexes,
                    &mut multi_mut,
                    &mut immutable_borrow,
                );
                if !found {
                    return None;
                }
                proof {
                    assert forall|q: int| 0 <= q < i + 1 implies argument_fits(fns, deps, f, sequence@, api_call@, q) by {
                        if q < i {
                            assert(api_call@.params[q] == call_before.params[q]);
                            assert(argument_fits(fns, deps, f, sequence@, call_before, q));
                        }
                    }
                }
            }
            i = i + 1;
        }
        let ghost st_end = mk_state(new_sequence@, api_call@, moved_indexes@, multi_mut@, immutable_borrow@);
        proof {
            assert(borrow_ok(st0));
            lemma_satisfy_borrow_ok(fns, deps, f, st0, 0, n as int);
            assert(satisfy_params(fns, deps, f, st_end, i as int, n as int) == Some(st_end));
        }
        new_sequence.add_fn(api_call);
        let mut m: usize = 0;
        while m < moved_indexes.len()
            invariant
                m <= moved_indexes@.len(),
                new_sequence@ == (SequenceView {
                    functions: st_end.seq.functions.push(st_end.call),
                    moved: set_union(st_end.seq.moved, moved_indexes@.take(m as int)),
                    ..st_end.seq
                }),
            decreases moved_indexes.len() - m,
        {
            proof {
                assert(moved_indexes@.take(m + 1).drop_last() =~= moved_indexes@.take(m as int));
            }
            new_sequence.insert_move_index(moved_indexes[m]);
            m = m + 1;
        }
        proof {
            assert(moved_indexes@.take(m as int) =~= moved_indexes@);
            assert(new_sequence@.functions.drop_last() =~= sequence@.functions);
            lemma_set_union_contains(st_end.seq.moved, st_end.moved);
            let s = new_sequence@;
            assert forall|k: int| 0 <= k < s.moved.len() implies #[trigger] s.moved[k] < s.functions.len() by {
                let x = s.moved[k];
                assert(s.moved.contains(x));
                if st_end.moved.contains(x) {
                    let j = choose|j: int| 0 <= j < st_end.moved.len() && st_end.moved[j] == x;
                } else {
                    let j = choose|j: int| 0 <= j < sequence@.moved.len() && sequence@.moved[j] == x;
                }
            }
            assert forall|c: int, p: int| #![trigger s.functions[c].params[p]]
                0 <= c < s.functions.len() && 0 <= p < s.functions[c].params.len() implies {
                    let param = s.functions[c].params[p];
                    match param.param_type {
                        ParamType::FunctionReturn => param.index < c,
                        ParamType::FuzzableType => param.index < s.fuzzable_params.len(),
                    }
                } by {
                if c < n {
                    assert(s.functions[c] == sequence@.functions[c]);
                } else {
                    assert(s.functions[c] == st_end.call);
                }
            }
            assert(s.consistent());
        }
        if new_sequence.contains_multi_dynamic_length_fuzzable() {
            return None;
        }
        Some(new_sequence)
    }
}

} // verus!
