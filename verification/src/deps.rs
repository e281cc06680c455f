//! Finding the dependencies: which result can be passed to which parameter.
use vstd::prelude::*;
use crate::graph::ApiGraph;
use crate::model::{
    ApiDependency, ApiFunction, ApiType, CallType, TypeLink, same_type, spec_same_type,
    spec_substitute, substitute_type,
};

verus! {

/// How the result of function `i` can be passed as parameter `k` of
/// function `j`, if it can: `i` must return something and not be an end
/// function, `j` must not be a start function, both types must survive the
/// substitution of generics, and the type layer must link them.
pub open spec fn dependency_candidate(
    fns: Seq<ApiFunction>,
    links: Seq<TypeLink>,
    i: int,
    j: int,
    k: int,
) -> Option<CallType> {
    if 0 <= i < fns.len() && 0 <= j < fns.len() && 0 <= k < fns[j].inputs@.len() && !fns[i].is_end_function
        && fns[i].output is Some && !fns[j].is_start_function {
        match spec_substitute(fns[i].output.unwrap(), fns[i].generic_substitutions@) {
            Some(o) => match spec_substitute(fns[j].inputs@[k].ty, fns[j].generic_substitutions@) {
                Some(t) => spec_same_type(links, o, t),
                None => None,
            },
            None => None,
        }
    } else {
        None
    }
}

/// The triple a dependency is ordered by.
pub open spec fn dep_key(d: ApiDependency) -> (int, int, int) {
    (d.output_fun.1 as int, d.input_fun.1 as int, d.input_param_index as int)
}

/// Lexicographic order on triples.
pub open spec fn key_lt(a: (int, int, int), b: (int, int, int)) -> bool {
    a.0 < b.0 || (a.0 == b.0 && (a.1 < b.1 || (a.1 == b.1 && a.2 < b.2)))
}

/// `d` is the dependency from `i` to parameter `k` of `j`, as the
/// candidate rule gives it.
pub open spec fn is_candidate_dependency(fns: Seq<ApiFunction>, links: Seq<TypeLink>, d: ApiDependency) -> bool {
    &&& d.output_fun.0 == ApiType::BareFunction
    &&& d.input_fun.0 == ApiType::BareFunction
    &&& dependency_candidate(fns, links, d.output_fun.1 as int, d.input_fun.1 as int, d.input_param_index as int)
        == Some(d.call_type)
}

/// The dependencies of `fns`: exactly one per candidate triple, in
/// increasing order of (producer, consumer, parameter).
pub open spec fn is_dependency_list(fns: Seq<ApiFunction>, links: Seq<TypeLink>, deps: Seq<ApiDependency>) -> bool {
    &&& forall|d: int| 0 <= d < deps.len() ==> is_candidate_dependency(fns, links, #[trigger] deps[d])
    &&& forall|d: int, e: int| 0 <= d < e < deps.len() ==> key_lt(dep_key(#[trigger] deps[d]), dep_key(#[trigger] deps[e]))
    &&& forall|i: int, j: int, k: int| #[trigger] dependency_candidate(fns, links, i, j, k) is Some ==> exists|d: int|
        0 <= d < deps.len() && dep_key(#[trigger] deps[d]) == (i, j, k)
}

proof fn lemma_same_key_same_dependency(fns: Seq<ApiFunction>, links: Seq<TypeLink>, d: ApiDependency, e: ApiDependency)
    requires
        is_candidate_dependency(fns, links, d),
        is_candidate_dependency(fns, links, e),
        dep_key(d) == dep_key(e),
    ensures
        d == e,
{
    assert(d.output_fun == e.output_fun);
    assert(d.input_fun == e.input_fun);
}

/// Some entry of `s` has key `k`.
spec fn has_key(s: Seq<ApiDependency>, k: (int, int, int)) -> bool {
    exists|e: int| 0 <= e < s.len() && dep_key(#[trigger] s[e]) == k
}

proof fn lemma_sorted_lists_equal(fns: Seq<ApiFunction>, links: Seq<TypeLink>, a: Seq<ApiDependency>, b: Seq<ApiDependency>)
    requires
        forall|d: int| 0 <= d < a.len() ==> is_candidate_dependency(fns, links, #[trigger] a[d]),
        forall|d: int| 0 <= d < b.len() ==> is_candidate_dependency(fns, links, #[trigger] b[d]),
        forall|d: int, e: int| 0 <= d < e < a.len() ==> key_lt(dep_key(#[trigger] a[d]), dep_key(#[trigger] a[e])),
        forall|d: int, e: int| 0 <= d < e < b.len() ==> key_lt(dep_key(#[trigger] b[d]), dep_key(#[trigger] b[e])),
        forall|d: int| 0 <= d < a.len() ==> has_key(b, dep_key(#[trigger] a[d])),
        forall|e: int| 0 <= e < b.len() ==> has_key(a, dep_key(#[trigger] b[e])),
    ensures
        a == b,
    decreases a.len() + b.len(),
{
    if a.len() > 0 && b.len() > 0 {
        assert(has_key(b, dep_key(a[0])));
        assert(has_key(a, dep_key(b[0])));
        let j = choose|e: int| 0 <= e < b.len() && dep_key(#[trigger] b[e]) == dep_key(a[0]);
        let i = choose|d: int| 0 <= d < a.len() && dep_key(#[trigger] a[d]) == dep_key(b[0]);
        if j > 0 {
            assert(key_lt(dep_key(b[0]), dep_key(b[j])));
        }
        if i > 0 {
            assert(key_lt(dep_key(a[0]), dep_key(a[i])));
        }
        assert(dep_key(a[0]) == dep_key(b[0]));
        lemma_same_key_same_dependency(fns, links, a[0], b[0]);
        let a1 = a.drop_first();
        let b1 = b.drop_first();
        assert forall|d: int| 0 <= d < a1.len() implies has_key(b1, dep_key(#[trigger] a1[d])) by {
            assert(a1[d] == a[d + 1]);
            assert(key_lt(dep_key(a[0]), dep_key(a[d + 1])));
            assert(has_key(b, dep_key(a[d + 1])));
            let e = choose|e: int| 0 <= e < b.len() && dep_key(#[trigger] b[e]) == dep_key(a[d + 1]);
            assert(e != 0);
            assert(b1[e - 1] == b[e]);
        }
        assert forall|e: int| 0 <= e < b1.len() implies has_key(a1, dep_key(#[trigger] b1[e])) by {
            assert(b1[e] == b[e + 1]);
            assert(key_lt(dep_key(b[0]), dep_key(b[e + 1])));
            assert(has_key(a, dep_key(b[e + 1])));
            let d = choose|d: int| 0 <= d < a.len() && dep_key(#[trigger] a[d]) == dep_key(b[e + 1]);
            assert(d != 0);
            assert(a1[d - 1] == a[d]);
        }
        assert forall|d: int, e: int| 0 <= d < e < a1.len() implies key_lt(dep_key(#[trigger] a1[d]), dep_key(#[trigger] a1[e])) by {
            assert(a1[d] == a[d + 1] && a1[e] == a[e + 1]);
        }
        assert forall|d: int, e: int| 0 <= d < e < b1.len() implies key_lt(dep_key(#[trigger] b1[d]), dep_key(#[trigger] b1[e])) by {
            assert(b1[d] == b[d + 1] && b1[e] == b[e + 1]);
        }
        lemma_sorted_lists_equal(fns, links, a1, b1);
        assert(a =~= seq![a[0]] + a1);
        assert(b =~= seq![b[0]] + b1);
    } else if a.len() > 0 {
        assert(has_key(b, dep_key(a[0])));
    } else if b.len() > 0 {
        assert(has_key(a, dep_key(b[0])));
    } else {
        assert(a =~= b);
    }
}

/// The dependencies of a graph are determined by its functions and type
/// links: two lists that are both its dependency list are the same list.
pub proof fn lemma_dependency_list_unique(fns: Seq<ApiFunction>, links: Seq<TypeLink>, a: Seq<ApiDependency>, b: Seq<ApiDependency>)
    requires
        is_dependency_list(fns, links, a),
        is_dependency_list(fns, links, b),
    ensures
        a == b,
{
    assert forall|d: int| 0 <= d < a.len() implies has_key(b, dep_key(#[trigger] a[d])) by {
        let x = a[d];
        assert(is_candidate_dependency(fns, links, x));
        assert(dependency_candidate(fns, links, x.output_fun.1 as int, x.input_fun.1 as int, x.input_param_index as int) is Some);
    }
    assert forall|e: int| 0 <= e < b.len() implies has_key(a, dep_key(#[trigger] b[e])) by {
        let x = b[e];
        assert(is_candidate_dependency(fns, links, x));
        assert(dependency_candidate(fns, links, x.output_fun.1 as int, x.input_fun.1 as int, x.input_param_index as int) is Some);
    }
    lemma_sorted_lists_equal(fns, links, a, b);
}

/// Every pair of functions whose types link gives a dependency: for each
/// producer `i` that is not an end function and returns something, each
/// consumer `j` that is not a start function (`j == i` included, so a
/// builder's result feeds another call of the same builder) and each
/// parameter `k` of `j`, when both types survive the substitution of
/// generics and the type layer links them, the dependency list holds the
/// edge `(i, j, k)`, passed as the link says.
pub proof fn lemma_dependency_list_complete(fns: Seq<ApiFunction>, links: Seq<TypeLink>, deps: Seq<ApiDependency>)
    requires
        is_dependency_list(fns, links, deps),
    ensures
        forall|i: int, j: int, k: int|
            #![trigger spec_same_type(links, spec_substitute(fns[i].output.unwrap(), fns[i].generic_substitutions@)->0,
                spec_substitute(fns[j].inputs@[k].ty, fns[j].generic_substitutions@)->0)]
            0 <= i < fns.len() && 0 <= j < fns.len() && 0 <= k < fns[j].inputs@.len()
                && !fns[i].is_end_function && fns[i].output is Some && !fns[j].is_start_function
                && spec_substitute(fns[i].output.unwrap(), fns[i].generic_substitutions@) is Some
                && spec_substitute(fns[j].inputs@[k].ty, fns[j].generic_substitutions@) is Some
                && spec_same_type(
                    links,
                    spec_substitute(fns[i].output.unwrap(), fns[i].generic_substitutions@)->0,
                    spec_substitute(fns[j].inputs@[k].ty, fns[j].generic_substitutions@)->0,
                ) is Some ==> exists|d: int|
                0 <= d < deps.len() && deps[d].output_fun == (ApiType::BareFunction, i as usize)
                    && deps[d].input_fun == (ApiType::BareFunction, j as usize) && deps[d].input_param_index == k as usize
                    && deps[d].call_type == spec_same_type(
                    links,
                    spec_substitute(fns[i].output.unwrap(), fns[i].generic_substitutions@)->0,
                    spec_substitute(fns[j].inputs@[k].ty, fns[j].generic_substitutions@)->0,
                )->0,
{
    assert forall|i: int, j: int, k: int|
        #![trigger spec_same_type(links, spec_substitute(fns[i].output.unwrap(), fns[i].generic_substitutions@)->0,
            spec_substitute(fns[j].inputs@[k].ty, fns[j].generic_substitutions@)->0)]
        0 <= i < fns.len() && 0 <= j < fns.len() && 0 <= k < fns[j].inputs@.len()
            && !fns[i].is_end_function && fns[i].output is Some && !fns[j].is_start_function
            && spec_substitute(fns[i].output.unwrap(), fns[i].generic_substitutions@) is Some
            && spec_substitute(fns[j].inputs@[k].ty, fns[j].generic_substitutions@) is Some
            && spec_same_type(
                links,
                spec_substitute(fns[i].output.unwrap(), fns[i].generic_substitutions@)->0,
                spec_substitute(fns[j].inputs@[k].ty, fns[j].generic_substitutions@)->0,
            ) is Some implies exists|d: int|
            0 <= d < deps.len() && deps[d].output_fun == (ApiType::BareFunction, i as usize)
                && deps[d].input_fun == (ApiType::BareFunction, j as usize) && deps[d].input_param_index == k as usize
                && deps[d].call_type == spec_same_type(
                links,
                spec_substitute(fns[i].output.unwrap(), fns[i].generic_substitutions@)->0,
                spec_substitute(fns[j].inputs@[k].ty, fns[j].generic_substitutions@)->0,
            )->0 by {
        assert(dependency_candidate(fns, links, i, j, k) is Some);
        let d = choose|d: int| 0 <= d < deps.len() && dep_key(#[trigger] deps[d]) == (i, j, k);
        assert(is_candidate_dependency(fns, links, deps[d]));
    }
}

impl ApiGraph {
    /// Finds every dependency between the functions of the graph.
    pub fn find_all_dependencies(&mut self)
        ensures
            is_dependency_list(old(self).api_functions@, old(self).type_links@, final(self).api_dependencies@),
            final(self).api_functions@ == old(self).api_functions@,
            final(self).api_sequences@ == old(self).api_sequences@,
            final(self).api_functions_visited@ == old(self).api_functions_visited@,
            final(self).type_links@ == old(self).type_links@,
            final(self)._crate_name == old(self)._crate_name,
            final(self).well_formed() == old(self).well_formed(),
            *final(self) == (ApiGraph { api_dependencies: final(self).api_dependencies, ..*old(self) }),
            is_dependency_list(old(self).api_functions@, old(self).type_links@, old(self).api_dependencies@)
                ==> final(self).api_dependencies@ == old(self).api_dependencies@,
    {
        self.api_dependencies.clear();
        let ghost fns = self.api_functions@;
        let ghost links = self.type_links@;
        let n = self.api_functions.len();
        let mut i: usize = 0;
        while i < n
            invariant
                *self == (ApiGraph { api_dependencies: self.api_dependencies, ..*old(self) }),
                n == fns.len(),
                i <= n,
                fns == self.api_functions@,
                links == self.type_links@,
                self.api_functions@ == old(self).api_functions@,
                self.api_sequences@ == old(self).api_sequences@,
                self.api_functions_visited@ == old(self).api_functions_visited@,
                self.type_links@ == old(self).type_links@,
                self._crate_name == old(self)._crate_name,
                forall|d: int| 0 <= d < self.api_dependencies@.len() ==> is_candidate_dependency(fns, links,
                    #[trigger] self.api_dependencies@[d]),
                forall|d: int, e: int| 0 <= d < e < self.api_dependencies@.len() ==> key_lt(
                    dep_key(#[trigger] self.api_dependencies@[d]), dep_key(#[trigger] self.api_dependencies@[e])),
                forall|d: int| 0 <= d < self.api_dependencies@.len() ==> key_lt(
                    dep_key(#[trigger] self.api_dependencies@[d]), (i as int, 0, 0)),
                forall|a: int, b: int, c: int| #[trigger] dependency_candidate(fns, links, a, b, c) is Some
                    && key_lt((a, b, c), (i as int, 0, 0)) ==> exists|d: int| 0 <= d < self.api_dependencies@.len()
                        && dep_key(#[trigger] self.api_dependencies@[d]) == (a, b, c),
            decreases n - i,
        {
            let first_fun = &self.api_functions[i];
            if !first_fun.is_end_function {
                if let Some(output_type) = &first_fun.output {
                    let mut j: usize = 0;
                    while j < n
                        invariant
                            *self == (ApiGraph { api_dependencies: self.api_dependencies, ..*old(self) }),
                            n == fns.len(),
                            i < n,
                            j <= n,
                            fns == self.api_functions@,
                            links == self.type_links@,
                            *first_fun == fns[i as int],
                            !first_fun.is_end_function,
                            first_fun.output == Some(*output_type),
                            self.api_functions@ == old(self).api_functions@,
                            self.api_sequences@ == old(self).api_sequences@,
                            self.api_functions_visited@ == old(self).api_functions_visited@,
                            self.type_links@ == old(self).type_links@,
                            self._crate_name == old(self)._crate_name,
                            forall|d: int| 0 <= d < self.api_dependencies@.len() ==> is_candidate_dependency(fns, links,
                                #[trigger] self.api_dependencies@[d]),
                            forall|d: int, e: int| 0 <= d < e < self.api_dependencies@.len() ==> key_lt(
                                dep_key(#[trigger] self.api_dependencies@[d]), dep_key(#[trigger] self.api_dependencies@[e])),
                            forall|d: int| 0 <= d < self.api_dependencies@.len() ==> key_lt(
                                dep_key(#[trigger] self.api_dependencies@[d]), (i as int, j as int, 0)),
                            forall|a: int, b: int, c: int| #[trigger] dependency_candidate(fns, links, a, b, c) is Some
                                && key_lt((a, b, c), (i as int, j as int, 0)) ==> exists|d: int| 0 <= d
                                    < self.api_dependencies@.len() && dep_key(#[trigger] self.api_dependencies@[d]) == (a, b, c),
                        decreases n - j,
                    {
                        let second_fun = &self.api_functions[j];
                        if !second_fun.is_start_function {
                            let mut k: usize = 0;
                            while k < second_fun.inputs.len()
                                invariant
                                    *self == (ApiGraph { api_dependencies: self.api_dependencies, ..*old(self) }),
                                    n == fns.len(),
                                    i < n,
                                    j < n,
                                    k <= second_fun.inputs@.len(),
                                    fns == self.api_functions@,
                                    links == self.type_links@,
                                    *first_fun == fns[i as int],
                                    *second_fun == fns[j as int],
                                    !first_fun.is_end_function,
                                    !second_fun.is_start_function,
                                    first_fun.output == Some(*output_type),
                                    self.api_functions@ == old(self).api_functions@,
                                    self.api_sequences@ == old(self).api_sequences@,
                                    self.api_functions_visited@ == old(self).api_functions_visited@,
                                    self.type_links@ == old(self).type_links@,
                                    self._crate_name == old(self)._crate_name,
                                    forall|d: int| 0 <= d < self.api_dependencies@.len() ==> is_candidate_dependency(
                                        fns, links, #[trigger] self.api_dependencies@[d]),
                                    forall|d: int, e: int| 0 <= d < e < self.api_dependencies@.len() ==> key_lt(
                                        dep_key(#[trigger] self.api_dependencies@[d]), dep_key(
                                            #[trigger] self.api_dependencies@[e])),
                                    forall|d: int| 0 <= d < self.api_dependencies@.len() ==> key_lt(
                                        dep_key(#[trigger] self.api_dependencies@[d]), (i as int, j as int, k as int)),
                                    forall|a: int, b: int, c: int| #[trigger] dependency_candidate(fns, links, a, b, c)
                                        is Some && key_lt((a, b, c), (i as int, j as int, k as int)) ==> exists|d: int|
                                        0 <= d < self.api_dependencies@.len() && dep_key(
                                            #[trigger] self.api_dependencies@[d]) == (a, b, c),
                                decreases second_fun.inputs.len() - k,
                            {
                                let ghost before = self.api_dependencies@;
                                let out = substitute_type(output_type, &first_fun.generic_substitutions);
                                let inp = substitute_type(&second_fun.inputs[k].ty, &second_fun.generic_substitutions);
                                let mut found: Option<CallType> = None;
                                if let Some(o) = out {
                                    if let Some(t) = inp {
                                        found = same_type(&self.type_links, o, t);
                                    }
                                }
                                proof {
                                    assert(found == dependency_candidate(fns, links, i as int, j as int, k as int));
                                }
                                if let Some(call_type) = found {
                                    let one_dependency = ApiDependency {
                                        output_fun: (ApiType::BareFunction, i),
                                        input_fun: (ApiType::BareFunction, j),
                                        input_param_index: k,
                                        call_type,
                                    };
                                    self.api_dependencies.push(one_dependency);
                                    proof {
                                        let last = self.api_dependencies@.len() - 1;
                                        assert(self.api_dependencies@[last] == one_dependency);
                                        assert(forall|d: int| 0 <= d < last ==> self.api_dependencies@[d] == before[d]);
                                    }
                                }
                                proof {
                                    assert forall|a: int, b: int, c: int| #[trigger] dependency_candidate(fns, links, a, b, c)
                                        is Some && key_lt((a, b, c), (i as int, j as int, k + 1)) implies exists|d: int|
                                        0 <= d < self.api_dependencies@.len() && dep_key(
                                            #[trigger] self.api_dependencies@[d]) == (a, b, c) by {
                                        if (a, b, c) == (i as int, j as int, k as int) {
                                            let last = self.api_dependencies@.len() - 1;
                                            assert(dep_key(self.api_dependencies@[last]) == (a, b, c));
                                        } else {
                                            assert(key_lt((a, b, c), (i as int, j as int, k as int)));
                                            let d = choose|d: int| 0 <= d < before.len() && dep_key(
                                                #[trigger] before[d]) == (a, b, c);
                                            assert(self.api_dependencies@[d] == before[d]);
                                        }
                                    }
                                }
                                k = k + 1;
                            }
                            proof {
                                assert forall|a: int, b: int, c: int| #[trigger] dependency_candidate(fns, links, a, b, c)
                                    is Some && key_lt((a, b, c), (i as int, j + 1, 0)) implies exists|d: int|
                                    0 <= d < self.api_dependencies@.len() && dep_key(
                                        #[trigger] self.api_dependencies@[d]) == (a, b, c) by {
                                    if a == i && b == j {
                                        assert(key_lt((a, b, c), (i as int, j as int, k as int)));
                                    }
                                }
                            }
                        } else {
                            proof {
                                assert forall|a: int, b: int, c: int| #[trigger] dependency_candidate(fns, links, a, b, c)
                                    is Some && key_lt((a, b, c), (i as int, j + 1, 0)) implies exists|d: int|
                                    0 <= d < self.api_dependencies@.len() && dep_key(
                                        #[trigger] self.api_dependencies@[d]) == (a, b, c) by {
                                    if a == i && b == j {
                                        assert(false);
                                    }
                                }
                            }
                        }
                        j = j + 1;
                    }
                    proof {
                        assert forall|a: int, b: int, c: int| #[trigger] dependency_candidate(fns, links, a, b, c) is Some
                            && key_lt((a, b, c), (i + 1, 0, 0)) implies exists|d: int| 0 <= d
                            < self.api_dependencies@.len() && dep_key(#[trigger] self.api_dependencies@[d]) == (a, b, c) by {
                            if a == i {
                                assert(key_lt((a, b, c), (i as int, j as int, 0)));
                            }
                        }
                    }
                }
            }
            i = i + 1;
        }
        proof {
            assert forall|a: int, b: int, c: int| #[trigger] dependency_candidate(fns, links, a, b, c) is Some implies exists|d: int|
                0 <= d < self.api_dependencies@.len() && dep_key(#[trigger] self.api_dependencies@[d]) == (a, b, c) by {
                assert(key_lt((a, b, c), (n as int, 0, 0)));
            }
            assert(is_dependency_list(fns, links, self.api_dependencies@));
            if is_dependency_list(fns, links, old(self).api_dependencies@) {
                lemma_dependency_list_unique(fns, links, self.api_dependencies@, old(self).api_dependencies@);
            }
        }
    }
}

} // verus!
