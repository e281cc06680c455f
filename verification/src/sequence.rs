//! Call sequences: the calls made one after another in a fuzz target, the
//! fuzzer inputs they take, and the bookkeeping that code generation needs.
use vstd::prelude::*;
use crate::model::{ApiType, CallType, FuzzableType};
use crate::util::{contains_index, insert_index, seq_insert};

verus! {

/// Where an argument of a call comes from.
#[derive(Clone, Copy, PartialEq, Eq, Structural, Debug)]
pub enum ParamType {
    /// From the fuzzer: the index is into the sequence's fuzzable inputs.
    FuzzableType,
    /// From an earlier call: the index is that call's position.
    FunctionReturn,
}

/// One argument of a call.
#[derive(Clone, Copy, PartialEq, Eq, Structural, Debug)]
pub struct CallParam {
    pub param_type: ParamType,
    pub index: usize,
    pub call_type: CallType,
}

/// A call of a function of the graph, with the source of each argument.
pub struct ApiCall {
    pub func: (ApiType, usize),
    pub params: Vec<CallParam>,
}

pub struct CallView {
    pub func: (ApiType, usize),
    pub params: Seq<CallParam>,
}

impl View for ApiCall {
    type V = CallView;

    open spec fn view(&self) -> CallView {
        CallView { func: self.func, params: self.params@ }
    }
}

impl ApiCall {
    /// A call of function `index` with no argument yet.
    pub fn new(index: usize) -> (r: Self)
        ensures
            r@ == (CallView { func: (ApiType::BareFunction, index), params: Seq::empty() }),
    {
        ApiCall { func: (ApiType::BareFunction, index), params: Vec::new() }
    }

    pub fn add_param(&mut self, param_type: ParamType, index: usize, call_type: CallType)
        ensures
            final(self)@ == (CallView {
                func: old(self)@.func,
                params: old(self)@.params.push(CallParam { param_type, index, call_type }),
            }),
    {
        self.params.push(CallParam { param_type, index, call_type });
    }

    pub fn duplicate(&self) -> (r: Self)
        ensures
            r@ == self@,
    {
        let params = self.params.clone();
        proof {
            assert(params@ =~= self.params@);
        }
        ApiCall { func: self.func, params }
    }
}

/// The abstract value of a sequence.
pub struct SequenceView {
    pub functions: Seq<CallView>,
    pub fuzzable_params: Seq<FuzzableType>,
    pub using_traits: Seq<Seq<char>>,
    pub unsafe_tag: bool,
    pub moved: Seq<usize>,
    pub fuzzable_mut_tag: Seq<usize>,
    pub function_mut_tag: Seq<usize>,
    pub covered_dependencies: Seq<usize>,
}

/// A sequence of calls.
pub struct ApiSequence {
    pub functions: Vec<ApiCall>,
    /// The inputs the fuzzer supplies, in the order the calls take them.
    pub fuzzable_params: Vec<FuzzableType>,
    /// Traits that have to be in scope.
    pub using_traits: Vec<String>,
    /// Some call needs an `unsafe` block.
    pub unsafe_tag: bool,
    /// Calls whose result has been moved into a later call.
    pub moved: Vec<usize>,
    /// Fuzzer inputs that have to be bound `mut`.
    pub fuzzable_mut_tag: Vec<usize>,
    /// Calls whose result has to be bound `mut`.
    pub function_mut_tag: Vec<usize>,
    /// The dependencies (edges) the sequence uses.
    pub covered_dependencies: Vec<usize>,
}

pub open spec fn calls_view(calls: Seq<ApiCall>) -> Seq<CallView> {
    calls.map_values(|c: ApiCall| c@)
}

pub open spec fn names_view(names: Seq<String>) -> Seq<Seq<char>> {
    names.map_values(|n: String| n@)
}

impl View for ApiSequence {
    type V = SequenceView;

    open spec fn view(&self) -> SequenceView {
        SequenceView {
            functions: calls_view(self.functions@),
            fuzzable_params: self.fuzzable_params@,
            using_traits: names_view(self.using_traits@),
            unsafe_tag: self.unsafe_tag,
            moved: self.moved@,
            fuzzable_mut_tag: self.fuzzable_mut_tag@,
            function_mut_tag: self.function_mut_tag@,
            covered_dependencies: self.covered_dependencies@,
        }
    }
}

/// The set of names `names` with `name` added when it is not there yet.
pub open spec fn name_insert(names: Seq<Seq<char>>, name: Seq<char>) -> Seq<Seq<char>> {
    if names.contains(name) {
        names
    } else {
        names.push(name)
    }
}

impl SequenceView {
    pub open spec fn empty() -> SequenceView {
        SequenceView {
            functions: Seq::empty(),
            fuzzable_params: Seq::empty(),
            using_traits: Seq::empty(),
            unsafe_tag: false,
            moved: Seq::empty(),
            fuzzable_mut_tag: Seq::empty(),
            function_mut_tag: Seq::empty(),
            covered_dependencies: Seq::empty(),
        }
    }

    pub open spec fn len(self) -> nat {
        self.functions.len()
    }

    /// The index of the function of the last call.
    pub open spec fn last_func_index(self) -> Option<usize> {
        if self.functions.len() == 0 {
            None
        } else {
            Some(self.functions.last().func.1)
        }
    }

    /// Every argument refers to an input or an earlier call that exists,
    /// and the index sets stay within the sequence.
    pub open spec fn consistent(self) -> bool {
        &&& forall|c: int, p: int| #![trigger self.functions[c].params[p]]
            0 <= c < self.functions.len() && 0 <= p < self.functions[c].params.len() ==> {
                let param = self.functions[c].params[p];
                match param.param_type {
                    ParamType::FunctionReturn => param.index < c,
                    ParamType::FuzzableType => param.index < self.fuzzable_params.len(),
                }
            }
        &&& forall|k: int| 0 <= k < self.moved.len() ==> #[trigger] self.moved[k] < self.functions.len()
        &&& forall|k: int| 0 <= k < self.function_mut_tag.len() ==> #[trigger] self.function_mut_tag[k] < self.functions.len()
        &&& forall|k: int| 0 <= k < self.fuzzable_mut_tag.len() ==> #[trigger] self.fuzzable_mut_tag[k] < self.fuzzable_params.len()
    }

    /// Every call is of an ordinary function among the first `nfun`.
    pub open spec fn refers_within(self, nfun: nat) -> bool {
        forall|c: int| 0 <= c < self.functions.len() ==> {
            &&& (#[trigger] self.functions[c]).func.0 == ApiType::BareFunction
            &&& self.functions[c].func.1 < nfun
        }
    }

    /// Whether the result of call `i` is taken by some later call.
    pub open spec fn is_used(self, i: int) -> bool {
        exists|c: int, p: int| #![trigger self.functions[c].params[p]]
            0 <= c < self.functions.len() && 0 <= p < self.functions[c].params.len()
                && self.functions[c].params[p].param_type == ParamType::FunctionReturn
                && self.functions[c].params[p].index == i
    }

    /// For each call, whether its result goes unused.
    pub open spec fn dead_code(self) -> Seq<bool> {
        Seq::new(self.functions.len(), |i: int| !self.is_used(i))
    }

    /// Whether the result of some call but the last goes unused.
    pub open spec fn contains_dead_code_except_last_one(self) -> bool {
        exists|i: int| 0 <= i < self.functions.len() - 1 && !self.is_used(i)
    }

    pub open spec fn is_fuzzables_fixed_length(self) -> bool {
        forall|k: int| 0 <= k < self.fuzzable_params.len() ==> (#[trigger] self.fuzzable_params[k]).is_fixed_length()
    }

    pub open spec fn contains_multi_dynamic_length_fuzzable(self) -> bool {
        exists|k: int| 0 <= k < self.fuzzable_params.len() && (#[trigger] self.fuzzable_params[k]).is_multiple_dynamic_length()
    }
}

/// Whether an argument before argument `p` of call `c` takes the result
/// of call `j`.
pub open spec fn used_before(s: SequenceView, j: int, c: int, p: int) -> bool {
    exists|c2: int, q: int| #![trigger s.functions[c2].params[q]]
        0 <= c2 < s.functions.len() && 0 <= q < s.functions[c2].params.len()
            && (c2 < c || (c2 == c && q < p))
            && s.functions[c2].params[q].param_type == ParamType::FunctionReturn
            && s.functions[c2].params[q].index == j
}

pub proof fn lemma_used_before_step(s: SequenceView, j: int, c: int, p: int)
    requires
        0 <= c < s.functions.len(),
        0 <= p < s.functions[c].params.len(),
    ensures
        used_before(s, j, c, p + 1) == (used_before(s, j, c, p) || (s.functions[c].params[p].param_type
            == ParamType::FunctionReturn && s.functions[c].params[p].index == j)),
{
    if used_before(s, j, c, p + 1) && !used_before(s, j, c, p) {
        let (c2, q) = choose|c2: int, q: int| #![trigger s.functions[c2].params[q]]
            0 <= c2 < s.functions.len() && 0 <= q < s.functions[c2].params.len()
                && (c2 < c || (c2 == c && q < p + 1))
                && s.functions[c2].params[q].param_type == ParamType::FunctionReturn
                && s.functions[c2].params[q].index == j;
        assert(c2 == c && q == p);
    }
}

pub proof fn lemma_used_before_next_call(s: SequenceView, j: int, c: int)
    requires
        0 <= c < s.functions.len(),
    ensures
        used_before(s, j, c + 1, 0) == used_before(s, j, c, s.functions[c].params.len() as int),
{
    if used_before(s, j, c + 1, 0) {
        let (c2, q) = choose|c2: int, q: int| #![trigger s.functions[c2].params[q]]
            0 <= c2 < s.functions.len() && 0 <= q < s.functions[c2].params.len()
                && (c2 < c + 1 || (c2 == c + 1 && q < 0))
                && s.functions[c2].params[q].param_type == ParamType::FunctionReturn
                && s.functions[c2].params[q].index == j;
        assert(used_before(s, j, c, s.functions[c].params.len() as int));
    }
}

pub proof fn lemma_used_before_all(s: SequenceView, j: int)
    ensures
        used_before(s, j, s.functions.len() as int, 0) == s.is_used(j),
{
    if s.is_used(j) {
        let (c2, q) = choose|c2: int, q: int| #![trigger s.functions[c2].params[q]]
            0 <= c2 < s.functions.len() && 0 <= q < s.functions[c2].params.len()
                && s.functions[c2].params[q].param_type == ParamType::FunctionReturn
                && s.functions[c2].params[q].index == j;
        assert(used_before(s, j, s.functions.len() as int, 0));
    }
}

/// `a` with the elements of `b` added one after another.
pub open spec fn set_union(a: Seq<usize>, b: Seq<usize>) -> Seq<usize>
    decreases b.len(),
{
    if b.len() == 0 {
        a
    } else {
        seq_insert(set_union(a, b.drop_last()), b.last())
    }
}

pub proof fn lemma_set_union_contains(a: Seq<usize>, b: Seq<usize>)
    ensures
        forall|x: usize| #[trigger] set_union(a, b).contains(x) <==> (a.contains(x) || b.contains(x)),
    decreases b.len(),
{
    if b.len() > 0 {
        lemma_set_union_contains(a, b.drop_last());
        assert forall|x: usize| #[trigger] set_union(a, b).contains(x) <==> (a.contains(x) || b.contains(x)) by {
            if b.contains(x) && !b.drop_last().contains(x) {
                let i = choose|i: int| 0 <= i < b.len() && b[i] == x;
                if i < b.len() - 1 {
                    assert(b.drop_last()[i] == x);
                }
            }
            if b.drop_last().contains(x) {
                let i = choose|i: int| 0 <= i < b.drop_last().len() && b.drop_last()[i] == x;
                assert(b[i] == x);
            }
            let u = set_union(a, b.drop_last());
            if seq_insert(u, b.last()).contains(x) && !u.contains(x) {
                let i = choose|i: int| 0 <= i < seq_insert(u, b.last()).len() && seq_insert(u, b.last())[i] == x;
                assert(x == b.last());
                assert(b[b.len() - 1] == x);
            }
            if u.contains(x) {
                let i = choose|i: int| 0 <= i < u.len() && u[i] == x;
                assert(seq_insert(u, b.last())[i] == x);
            }
            if x == b.last() {
                if !u.contains(x) {
                    assert(seq_insert(u, b.last())[u.len() as int] == x);
                }
            }
        }
    }
}

/// `a` with the names of `b` added one after another.
pub open spec fn names_union(a: Seq<Seq<char>>, b: Seq<Seq<char>>) -> Seq<Seq<char>>
    decreases b.len(),
{
    if b.len() == 0 {
        a
    } else {
        name_insert(names_union(a, b.drop_last()), b.last())
    }
}

/// Every element of `s` moved up by `k`.
pub open spec fn shifted(s: Seq<usize>, k: nat) -> Seq<usize> {
    s.map_values(|x: usize| (x + k) as usize)
}

/// An argument of a call of a sequence appended after `nf` calls and `nz`
/// fuzzer inputs.
pub open spec fn shift_param(p: CallParam, nf: nat, nz: nat) -> CallParam {
    CallParam {
        index: match p.param_type {
            ParamType::FunctionReturn => (p.index + nf) as usize,
            ParamType::FuzzableType => (p.index + nz) as usize,
        },
        ..p
    }
}

pub open spec fn shift_call(c: CallView, nf: nat, nz: nat) -> CallView {
    CallView { func: c.func, params: c.params.map_values(|p: CallParam| shift_param(p, nf, nz)) }
}

/// The sequence that makes the calls of `a` and then those of `b`, with
/// the arguments of `b` renumbered.
pub open spec fn merge_two(a: SequenceView, b: SequenceView) -> SequenceView {
    let nf = a.functions.len();
    let nz = a.fuzzable_params.len();
    SequenceView {
        functions: a.functions + b.functions.map_values(|c: CallView| shift_call(c, nf, nz)),
        fuzzable_params: a.fuzzable_params + b.fuzzable_params,
        using_traits: names_union(a.using_traits, b.using_traits),
        unsafe_tag: a.unsafe_tag || b.unsafe_tag,
        moved: set_union(a.moved, shifted(b.moved, nf)),
        fuzzable_mut_tag: set_union(a.fuzzable_mut_tag, shifted(b.fuzzable_mut_tag, nz)),
        function_mut_tag: set_union(a.function_mut_tag, shifted(b.function_mut_tag, nf)),
        covered_dependencies: set_union(a.covered_dependencies, b.covered_dependencies),
    }
}

/// The sequences of `s` merged one after another.
pub open spec fn merge_all(s: Seq<SequenceView>) -> SequenceView
    decreases s.len(),
{
    if s.len() == 0 {
        SequenceView::empty()
    } else if s.len() == 1 {
        s[0]
    } else {
        merge_two(merge_all(s.drop_last()), s.last())
    }
}

/// The distinct functions called in `calls`, in the order of their first call.
pub open spec fn contained_functions(calls: Seq<CallView>) -> Seq<usize>
    decreases calls.len(),
{
    if calls.len() == 0 {
        Seq::empty()
    } else {
        seq_insert(contained_functions(calls.drop_last()), calls.last().func.1)
    }
}

impl ApiSequence {
    pub fn new() -> (r: Self)
        ensures
            r@ == SequenceView::empty(),
    {
        let r = ApiSequence {
            functions: Vec::new(),
            fuzzable_params: Vec::new(),
            using_traits: Vec::new(),
            unsafe_tag: false,
            moved: Vec::new(),
            fuzzable_mut_tag: Vec::new(),
            function_mut_tag: Vec::new(),
            covered_dependencies: Vec::new(),
        };
        proof {
            assert(r@.functions =~= Seq::<CallView>::empty());
            assert(r@.using_traits =~= Seq::<Seq<char>>::empty());
        }
        r
    }

    pub fn len(&self) -> (r: usize)
        ensures
            r == self@.len(),
    {
        self.functions.len()
    }

    pub fn duplicate(&self) -> (r: Self)
        ensures
            r@ == self@,
    {
        let mut functions: Vec<ApiCall> = Vec::new();
        let mut i: usize = 0;
        while i < self.functions.len()
            invariant
                i <= self.functions.len(),
                functions@.len() == i,
                forall|j: int| 0 <= j < i ==> (#[trigger] functions@[j])@ == self.functions@[j]@,
            decreases self.functions.len() - i,
        {
            functions.push(self.functions[i].duplicate());
            i = i + 1;
        }
        let using_traits = self.using_traits.clone();
        let moved = self.moved.clone();
        let fuzzable_params = self.fuzzable_params.clone();
        let fuzzable_mut_tag = self.fuzzable_mut_tag.clone();
        let function_mut_tag = self.function_mut_tag.clone();
        let covered_dependencies = self.covered_dependencies.clone();
        proof {
            assert(calls_view(functions@) =~= calls_view(self.functions@));
            assert(names_view(using_traits@) =~= names_view(self.using_traits@));
            assert(moved@ =~= self.moved@);
            assert(fuzzable_params@ =~= self.fuzzable_params@);
            assert(fuzzable_mut_tag@ =~= self.fuzzable_mut_tag@);
            assert(function_mut_tag@ =~= self.function_mut_tag@);
            assert(covered_dependencies@ =~= self.covered_dependencies@);
        }
        ApiSequence {
            functions,
            fuzzable_params,
            using_traits,
            unsafe_tag: self.unsafe_tag,
            moved,
            fuzzable_mut_tag,
            function_mut_tag,
            covered_dependencies,
        }
    }
}

impl ApiSequence {
    pub fn set_unsafe(&mut self)
        ensures
            final(self)@ == (SequenceView { unsafe_tag: true, ..old(self)@ }),
    {
        self.unsafe_tag = true;
    }

    /// Records that the trait `name` has to be in scope.
    pub fn add_trait(&mut self, name: &String)
        ensures
            final(self)@ == (SequenceView { using_traits: name_insert(old(self)@.using_traits, name@), ..old(self)@ }),
    {
        let mut i: usize = 0;
        while i < self.using_traits.len()
            invariant
                i <= self.using_traits.len(),
                *self == *old(self),
                forall|j: int| 0 <= j < i ==> self.using_traits@[j]@ != name@,
            decreases self.using_traits.len() - i,
        {
            if self.using_traits[i] == *name {
                proof {
                    assert(names_view(self.using_traits@)[i as int] == name@);
                }
                return;
            }
            i = i + 1;
        }
        proof {
            assert(!names_view(self.using_traits@).contains(name@));
        }
        self.using_traits.push(name.clone());
        proof {
            assert(names_view(self.using_traits@) =~= names_view(old(self).using_traits@).push(name@));
        }
    }

    /// Appends a call.
    pub fn add_fn(&mut self, call: ApiCall)
        ensures
            final(self)@ == (SequenceView { functions: old(self)@.functions.push(call@), ..old(self)@ }),
    {
        self.functions.push(call);
        proof {
            assert(calls_view(self.functions@) =~= calls_view(old(self).functions@).push(call@));
        }
    }

    /// Appends a fuzzer input.
    pub fn add_fuzzable(&mut self, fuzzable: FuzzableType)
        ensures
            final(self)@ == (SequenceView { fuzzable_params: old(self)@.fuzzable_params.push(fuzzable), ..old(self)@ }),
    {
        self.fuzzable_params.push(fuzzable);
    }

    /// Whether the result of call `index` has been moved away.
    pub fn is_moved(&self, index: usize) -> (r: bool)
        ensures
            r == self@.moved.contains(index),
    {
        contains_index(&self.moved, index)
    }

    pub fn add_dependency(&mut self, dependency: usize)
        ensures
            final(self)@ == (SequenceView {
                covered_dependencies: seq_insert(old(self)@.covered_dependencies, dependency),
                ..old(self)@
            }),
    {
        insert_index(&mut self.covered_dependencies, dependency);
    }

    pub fn insert_function_mut_tag(&mut self, index: usize)
        ensures
            final(self)@ == (SequenceView { function_mut_tag: seq_insert(old(self)@.function_mut_tag, index), ..old(self)@ }),
    {
        insert_index(&mut self.function_mut_tag, index);
    }

    pub fn insert_fuzzable_mut_tag(&mut self, index: usize)
        ensures
            final(self)@ == (SequenceView { fuzzable_mut_tag: seq_insert(old(self)@.fuzzable_mut_tag, index), ..old(self)@ }),
    {
        insert_index(&mut self.fuzzable_mut_tag, index);
    }

    pub fn insert_move_index(&mut self, index: usize)
        ensures
            final(self)@ == (SequenceView { moved: seq_insert(old(self)@.moved, index), ..old(self)@ }),
    {
        insert_index(&mut self.moved, index);
    }

    pub fn has_no_fuzzables(&self) -> (r: bool)
        ensures
            r == (self@.fuzzable_params.len() == 0),
    {
        self.fuzzable_params.len() == 0
    }

    pub fn last_api_func_index(&self) -> (r: Option<usize>)
        ensures
            r == self@.last_func_index(),
    {
        if self.functions.len() == 0 {
            None
        } else {
            Some(self.functions[self.functions.len() - 1].func.1)
        }
    }

    pub fn contains_multi_dynamic_length_fuzzable(&self) -> (r: bool)
        ensures
            r == self@.contains_multi_dynamic_length_fuzzable(),
    {
        let mut k: usize = 0;
        while k < self.fuzzable_params.len()
            invariant
                k <= self.fuzzable_params.len(),
                forall|j: int| 0 <= j < k ==> !(#[trigger] self.fuzzable_params@[j]).is_multiple_dynamic_length(),
            decreases self.fuzzable_params.len() - k,
        {
            if self.fuzzable_params[k].multiple_dynamic_length() {
                assert(self@.fuzzable_params[k as int].is_multiple_dynamic_length());
                return true;
            }
            k = k + 1;
        }
        false
    }

    pub fn is_fuzzables_fixed_length(&self) -> (r: bool)
        ensures
            r == self@.is_fuzzables_fixed_length(),
    {
        let mut k: usize = 0;
        while k < self.fuzzable_params.len()
            invariant
                k <= self.fuzzable_params.len(),
                forall|j: int| 0 <= j < k ==> (#[trigger] self.fuzzable_params@[j]).is_fixed_length(),
            decreases self.fuzzable_params.len() - k,
        {
            if !self.fuzzable_params[k].fixed_length() {
                assert(!self@.fuzzable_params[k as int].is_fixed_length());
                return false;
            }
            k = k + 1;
        }
        true
    }

    /// The distinct functions the sequence calls, in the order of their
    /// first call.
    pub fn get_contained_api_functions(&self) -> (r: Vec<usize>)
        ensures
            r@ == contained_functions(self@.functions),
    {
        let mut r: Vec<usize> = Vec::new();
        let mut i: usize = 0;
        while i < self.functions.len()
            invariant
                i <= self.functions.len(),
                r@ == contained_functions(self@.functions.take(i as int)),
            decreases self.functions.len() - i,
        {
            proof {
                assert(self@.functions.take(i + 1).drop_last() =~= self@.functions.take(i as int));
            }
            insert_index(&mut r, self.functions[i].func.1);
            i = i + 1;
        }
        proof {
            assert(self@.functions.take(i as int) =~= self@.functions);
        }
        r
    }

    /// For each call, whether its result goes unused by the later calls.
    pub fn dead_code(&self) -> (r: Vec<bool>)
        requires
            self@.consistent(),
        ensures
            r@ == self@.dead_code(),
    {
        let n = self.functions.len();
        let mut dead: Vec<bool> = Vec::new();
        let mut i: usize = 0;
        while i < n
            invariant
                n == self.functions.len(),
                i <= n,
                dead@.len() == i,
                forall|j: int| 0 <= j < i ==> dead@[j],
            decreases n - i,
        {
            dead.push(true);
            i = i + 1;
        }
        proof {
            assert forall|j: int| 0 <= j < n implies #[trigger] dead@[j] == !used_before(self@, j, 0, 0) by {}
        }
        let mut c: usize = 0;
        while c < n
            invariant
                n == self.functions.len(),
                self@.consistent(),
                c <= n,
                dead@.len() == n,
                forall|j: int| 0 <= j < n ==> #[trigger] dead@[j] == !used_before(self@, j, c as int, 0),
            decreases n - c,
        {
            let call = &self.functions[c];
            let mut p: usize = 0;
            while p < call.params.len()
                invariant
                    n == self.functions.len(),
                    self@.consistent(),
                    c < n,
                    call == self.functions@[c as int],
                    p <= call.params@.len(),
                    dead@.len() == n,
                    forall|j: int| 0 <= j < n ==> #[trigger] dead@[j] == !used_before(self@, j, c as int, p as int),
                decreases call.params.len() - p,
            {
                let param = call.params[p];
                proof {
                    assert(self@.functions[c as int].params[p as int] == param);
                }
                let ghost prev = dead@;
                if param.param_type == ParamType::FunctionReturn {
                    dead.set(param.index, false);
                }
                proof {
                    assert forall|j: int| 0 <= j < n implies #[trigger] dead@[j] == !used_before(self@, j, c as int, p + 1) by {
                        assert(prev[j] == !used_before(self@, j, c as int, p as int));
                        lemma_used_before_step(self@, j, c as int, p as int);
                    }
                }
                p = p + 1;
            }
            proof {
                assert forall|j: int| 0 <= j < n implies #[trigger] dead@[j] == !used_before(self@, j, c + 1, 0) by {
                    lemma_used_before_next_call(self@, j, c as int);
                }
            }
            c = c + 1;
        }
        proof {
            assert forall|j: int| 0 <= j < n implies #[trigger] dead@[j] == self@.dead_code()[j] by {
                lemma_used_before_all(self@, j);
            }
            assert(dead@ =~= self@.dead_code());
        }
        dead
    }

    /// Whether the result of some call but the last goes unused.
    pub fn contains_dead_code_except_last_one(&self) -> (r: bool)
        requires
            self@.consistent(),
        ensures
            r == self@.contains_dead_code_except_last_one(),
    {
        let n = self.functions.len();
        if n == 0 {
            return false;
        }
        let dead = self.dead_code();
        let mut i: usize = 0;
        while i < n - 1
            invariant
                n == self.functions.len(),
                n > 0,
                i <= n - 1,
                dead@ == self@.dead_code(),
                forall|j: int| 0 <= j < i ==> self@.is_used(j),
            decreases n - 1 - i,
        {
            if dead[i] {
                return true;
            }
            i = i + 1;
        }
        false
    }
}

/// Adds to `dst` each element of `src` moved up by `shift`.
fn union_shifted(dst: &mut Vec<usize>, src: &Vec<usize>, shift: usize)
    requires
        forall|k: int| 0 <= k < src@.len() ==> src@[k] + shift <= usize::MAX,
    ensures
        final(dst)@ == set_union(old(dst)@, shifted(src@, shift as nat)),
{
    let mut k: usize = 0;
    while k < src.len()
        invariant
            k <= src@.len(),
            forall|m: int| 0 <= m < src@.len() ==> src@[m] + shift <= usize::MAX,
            dst@ == set_union(old(dst)@, shifted(src@, shift as nat).take(k as int)),
        decreases src.len() - k,
    {
        proof {
            assert(shifted(src@, shift as nat).take(k + 1).drop_last() =~= shifted(src@, shift as nat).take(k as int));
        }
        insert_index(dst, src[k] + shift);
        k = k + 1;
    }
    proof {
        assert(shifted(src@, shift as nat).take(k as int) =~= shifted(src@, shift as nat));
    }
}

impl ApiSequence {
    /// Appends the calls of `other`, renumbering their arguments, and joins
    /// the bookkeeping of both.
    pub fn merge_another_sequence(&mut self, other: &ApiSequence)
        requires
            other@.consistent(),
        ensures
            final(self)@ == merge_two(old(self)@, other@),
            old(self)@.consistent() ==> final(self)@.consistent(),
            forall|nfun: nat| old(self)@.refers_within(nfun) && other@.refers_within(nfun) ==> #[trigger] final(self)@.refers_within(nfun),
    {
        let nf = self.functions.len();
        let nz = self.fuzzable_params.len();
        let ghost a = self@;
        let mut k: usize = 0;
        while k < other.fuzzable_params.len()
            invariant
                k <= other.fuzzable_params@.len(),
                self@ == (SequenceView { fuzzable_params: a.fuzzable_params + other@.fuzzable_params.take(k as int), ..a }),
            decreases other.fuzzable_params.len() - k,
        {
            self.fuzzable_params.push(other.fuzzable_params[k]);
            proof {
                assert(a.fuzzable_params + other@.fuzzable_params.take(k + 1) =~= (a.fuzzable_params
                    + other@.fuzzable_params.take(k as int)).push(other@.fuzzable_params[k as int]));
            }
            k = k + 1;
        }
        proof {
            assert(other@.fuzzable_params.take(k as int) =~= other@.fuzzable_params);
        }
        let mut c: usize = 0;
        while c < other.functions.len()
            invariant
                c <= other.functions@.len(),
                other@.consistent(),
                nf == a.functions.len(),
                nz == a.fuzzable_params.len(),
                self@ == (SequenceView {
                    functions: a.functions + other@.functions.take(c as int).map_values(|cv: CallView| shift_call(cv, nf as nat, nz as nat)),
                    fuzzable_params: a.fuzzable_params + other@.fuzzable_params,
                    ..a
                }),
            decreases other.functions.len() - c,
        {
            let call = &other.functions[c];
            let cur = self.functions.len();
            let curz = self.fuzzable_params.len();
            proof {
                assert(self@.functions.len() == self.functions@.len());
            }
            let mut params: Vec<CallParam> = Vec::new();
            let mut p: usize = 0;
            while p < call.params.len()
                invariant
                    c < other.functions@.len(),
                    call == other.functions@[c as int],
                    other@.consistent(),
                    nf == a.functions.len(),
                    nz == a.fuzzable_params.len(),
                    cur == nf + c,
                    curz == nz + other@.fuzzable_params.len(),
                    p <= call.params@.len(),
                    params@ =~= call.params@.take(p as int).map_values(|q: CallParam| shift_param(q, nf as nat, nz as nat)),
                decreases call.params.len() - p,
            {
                let param = call.params[p];
                proof {
                    assert(other@.functions[c as int].params[p as int] == param);
                }
                let index = match param.param_type {
                    ParamType::FunctionReturn => param.index + nf,
                    ParamType::FuzzableType => param.index + nz,
                };
                params.push(CallParam { param_type: param.param_type, index, call_type: param.call_type });
                p = p + 1;
            }
            proof {
                assert(call.params@.take(p as int) =~= call.params@);
            }
            let new_call = ApiCall { func: call.func, params };
            proof {
                assert(new_call@ == shift_call(other@.functions[c as int], nf as nat, nz as nat));
            }
            self.add_fn(new_call);
            proof {
                assert(other@.functions.take(c + 1).map_values(|cv: CallView| shift_call(cv, nf as nat, nz as nat))
                    =~= other@.functions.take(c as int).map_values(|cv: CallView| shift_call(cv, nf as nat, nz as nat))
                    .push(shift_call(other@.functions[c as int], nf as nat, nz as nat)));
                assert(a.functions + other@.functions.take(c + 1).map_values(|cv: CallView| shift_call(cv, nf as nat, nz as nat))
                    =~= (a.functions + other@.functions.take(c as int).map_values(|cv: CallView| shift_call(cv, nf as nat, nz as nat)))
                    .push(shift_call(other@.functions[c as int], nf as nat, nz as nat)));
            }
            c = c + 1;
        }
        proof {
            assert(other@.functions.take(c as int) =~= other@.functions);
        }
        let total = self.functions.len();
        let totz = self.fuzzable_params.len();
        proof {
            assert(totz == nz + other@.fuzzable_params.len());
            assert(self@.functions.len() == self.functions@.len());
            assert(total == nf + other@.functions.len());
            assert forall|k: int| 0 <= k < other.moved@.len() implies other.moved@[k] + nf <= usize::MAX by {
                assert(other@.moved[k] < other@.functions.len());
            }
            assert forall|k: int| 0 <= k < other.function_mut_tag@.len() implies other.function_mut_tag@[k] + nf
                <= usize::MAX by {
                assert(other@.function_mut_tag[k] < other@.functions.len());
            }
            assert forall|k: int| 0 <= k < other.fuzzable_mut_tag@.len() implies other.fuzzable_mut_tag@[k] + nz
                <= usize::MAX by {
                assert(other@.fuzzable_mut_tag[k] < other@.fuzzable_params.len());
            }
        }
        union_shifted(&mut self.moved, &other.moved, nf);
        union_shifted(&mut self.function_mut_tag, &other.function_mut_tag, nf);
        union_shifted(&mut self.fuzzable_mut_tag, &other.fuzzable_mut_tag, nz);
        proof {
            assert(other.covered_dependencies@ =~= shifted(other.covered_dependencies@, 0));
        }
        union_shifted(&mut self.covered_dependencies, &other.covered_dependencies, 0);
        if other.unsafe_tag {
            self.unsafe_tag = true;
        }
        proof {
            assert(self@ =~= (SequenceView { using_traits: a.using_traits, ..merge_two(a, other@) }));
        }
        let ghost before = self@;
        let mut t: usize = 0;
        while t < other.using_traits.len()
            invariant
                t <= other.using_traits@.len(),
                self@ == (SequenceView { using_traits: names_view(self.using_traits@), ..before }),
                names_view(self.using_traits@) == names_union(a.using_traits, names_view(other.using_traits@).take(t as int)),
            decreases other.using_traits.len() - t,
        {
            proof {
                assert(names_view(other.using_traits@).take(t + 1).drop_last() =~= names_view(other.using_traits@).take(t as int));
            }
            self.add_trait(&other.using_traits[t]);
            t = t + 1;
        }
        proof {
            assert(names_view(other.using_traits@).take(t as int) =~= names_view(other.using_traits@));
            let r = self@;
            let b = other@;
            assert(r.functions.len() == nf + b.functions.len());
            assert(r.fuzzable_params.len() == nz + b.fuzzable_params.len());
            assert forall|c: int| nf <= c < r.functions.len() implies r.functions[c] == shift_call(b.functions[c - nf], nf as nat, nz as nat) by {}
            assert forall|c: int| 0 <= c < nf implies r.functions[c] == a.functions[c] by {}
            lemma_set_union_contains(a.moved, shifted(b.moved, nf as nat));
            lemma_set_union_contains(a.function_mut_tag, shifted(b.function_mut_tag, nf as nat));
            lemma_set_union_contains(a.fuzzable_mut_tag, shifted(b.fuzzable_mut_tag, nz as nat));
            if a.consistent() {
                assert forall|c: int, p: int| #![trigger r.functions[c].params[p]]
                    0 <= c < r.functions.len() && 0 <= p < r.functions[c].params.len() implies {
                        let param = r.functions[c].params[p];
                        match param.param_type {
                            ParamType::FunctionReturn => param.index < c,
                            ParamType::FuzzableType => param.index < r.fuzzable_params.len(),
                        }
                    } by {
                    if c >= nf {
                        let bc = b.functions[c - nf];
                        assert(r.functions[c].params[p] == shift_param(bc.params[p], nf as nat, nz as nat));
                        assert(bc == b.functions[c - nf]);
                        let bp = b.functions[c - nf].params[p];
                        match bp.param_type {
                            ParamType::FunctionReturn => assert(bp.index < c - nf),
                            ParamType::FuzzableType => assert(bp.index < b.fuzzable_params.len()),
                        }
                    } else {
                        assert(r.functions[c].params[p] == a.functions[c].params[p]);
                    }
                }
                assert forall|k: int| 0 <= k < r.moved.len() implies #[trigger] r.moved[k] < r.functions.len() by {
                    let x = r.moved[k];
                    assert(r.moved.contains(x));
                    if a.moved.contains(x) {
                        let j = choose|j: int| 0 <= j < a.moved.len() && a.moved[j] == x;
                    } else {
                        let j = choose|j: int| 0 <= j < shifted(b.moved, nf as nat).len() && shifted(b.moved, nf as nat)[j] == x;
                        assert(b.moved[j] < b.functions.len());
                    }
                }
                assert forall|k: int| 0 <= k < r.function_mut_tag.len() implies #[trigger] r.function_mut_tag[k] < r.functions.len() by {
                    let x = r.function_mut_tag[k];
                    assert(r.function_mut_tag.contains(x));
                    if a.function_mut_tag.contains(x) {
                        let j = choose|j: int| 0 <= j < a.function_mut_tag.len() && a.function_mut_tag[j] == x;
                    } else {
                        let j = choose|j: int| 0 <= j < shifted(b.function_mut_tag, nf as nat).len()
                            && shifted(b.function_mut_tag, nf as nat)[j] == x;
                        assert(b.function_mut_tag[j] < b.functions.len());
                    }
                }
                assert forall|k: int| 0 <= k < r.fuzzable_mut_tag.len() implies #[trigger] r.fuzzable_mut_tag[k] < r.fuzzable_params.len() by {
                    let x = r.fuzzable_mut_tag[k];
                    assert(r.fuzzable_mut_tag.contains(x));
                    if a.fuzzable_mut_tag.contains(x) {
                        let j = choose|j: int| 0 <= j < a.fuzzable_mut_tag.len() && a.fuzzable_mut_tag[j] == x;
                    } else {
                        let j = choose|j: int| 0 <= j < shifted(b.fuzzable_mut_tag, nz as nat).len()
                            && shifted(b.fuzzable_mut_tag, nz as nat)[j] == x;
                        assert(b.fuzzable_mut_tag[j] < b.fuzzable_params.len());
                    }
                }
            }
            assert forall|nfun: nat| a.refers_within(nfun) && b.refers_within(nfun) implies #[trigger] r.refers_within(nfun) by {
                assert forall|c: int| 0 <= c < r.functions.len() implies {
                    &&& (#[trigger] r.functions[c]).func.0 == ApiType::BareFunction
                    &&& r.functions[c].func.1 < nfun
                } by {
                    if c >= nf {
                        assert(r.functions[c].func == b.functions[c - nf].func);
                    }
                }
            }
        }
    }

    /// The calls of all of `sequences`, one sequence after another.
    pub fn merge_sequences(sequences: &Vec<ApiSequence>) -> (r: ApiSequence)
        requires
            forall|i: int| 0 <= i < sequences@.len() ==> (#[trigger] sequences@[i])@.consistent(),
        ensures
            r@ == merge_all(sequences@.map_values(|q: ApiSequence| q@)),
            r@.consistent(),
            forall|nfun: nat| (forall|i: int| 0 <= i < sequences@.len() ==> (#[trigger] sequences@[i])@.refers_within(nfun))
                ==> #[trigger] r@.refers_within(nfun),
    {
        let ghost views = sequences@.map_values(|q: ApiSequence| q@);
        if sequences.len() == 0 {
            let e = ApiSequence::new();
            proof {
                assert(e@.functions.len() == 0);
            }
            return e;
        }
        let mut res = sequences[0].duplicate();
        proof {
            assert(views.take(1) =~= seq![views[0]]);
            assert forall|nfun: nat| (forall|m: int| 0 <= m < 1 ==> (#[trigger] sequences@[m])@.refers_within(nfun))
                implies #[trigger] res@.refers_within(nfun) by {
                assert(sequences@[0]@.refers_within(nfun));
            }
        }
        let mut i: usize = 1;
        while i < sequences.len()
            invariant
                1 <= i <= sequences@.len(),
                views == sequences@.map_values(|q: ApiSequence| q@),
                forall|m: int| 0 <= m < sequences@.len() ==> (#[trigger] sequences@[m])@.consistent(),
                res@ == merge_all(views.take(i as int)),
                res@.consistent(),
                forall|nfun: nat| (forall|m: int| 0 <= m < i ==> (#[trigger] sequences@[m])@.refers_within(nfun))
                    ==> #[trigger] res@.refers_within(nfun),
            decreases sequences.len() - i,
        {
            proof {
                assert(views.take(i + 1).drop_last() =~= views.take(i as int));
            }
            let ghost prev = res@;
            res.merge_another_sequence(&sequences[i]);
            proof {
                assert forall|nfun: nat| (forall|m: int| 0 <= m < i + 1 ==> (#[trigger] sequences@[m])@.refers_within(nfun))
                    implies #[trigger] res@.refers_within(nfun) by {
                    assert(prev.refers_within(nfun));
                    assert(sequences@[i as int]@.refers_within(nfun));
                }
            }
            i = i + 1;
        }
        proof {
            assert(views.take(i as int) =~= views);
        }
        res
    }
}

} // verus!
