//! The graph itself: its functions, the dependencies found between them,
//! the sequences generated so far and which functions they reach.
use vstd::prelude::*;
use crate::model::{
    ApiDependency, ApiFunction, ApiType, ModVisibility, TypeLink, contains_name, names_contain,
};
use crate::model::{GenericParam, ModEntry};
use crate::sequence::{ApiSequence, SequenceView, name_insert, names_view};
use crate::util::{count_true, count_visited, is_prefix, starts_with};

verus! {

/// The graph of the public functions of one crate.
pub struct ApiGraph {
    /// The name of the crate under test.
    pub _crate_name: String,
    /// Its public functions.
    pub api_functions: Vec<ApiFunction>,
    /// Which functions some generated sequence calls.
    pub api_functions_visited: Vec<bool>,
    /// The dependencies found between the functions.
    pub api_dependencies: Vec<ApiDependency>,
    /// The sequences generated so far.
    pub api_sequences: Vec<ApiSequence>,
    /// What the type layer decided about pairs of types.
    pub type_links: Vec<TypeLink>,
    /// The visibility of the crate's modules.
    pub mod_visibility: ModVisibility,
    /// Functions left out because some parameter cannot be supplied.
    pub functions_with_unsupported_fuzzable_types: Vec<String>,
}

/// The crates for which a random walk takes a set number of steps.
pub open spec fn spec_random_walk_steps(crate_name: Seq<char>) -> Option<usize> {
    if crate_name == "regex"@ || crate_name == "url"@ || crate_name == "time"@ {
        Some(10000)
    } else {
        None
    }
}

/// The crates for which the number of functions a search can reach is
/// known in advance.
pub open spec fn spec_can_cover_nodes(crate_name: Seq<char>) -> Option<usize> {
    if crate_name == "regex"@ {
        Some(96)
    } else if crate_name == "serde_json"@ {
        Some(41)
    } else if crate_name == "clap"@ {
        Some(66)
    } else {
        None
    }
}

/// Whether `name` reads `literal`.
fn is_named(name: &String, literal: &str) -> (r: bool)
    ensures
        r == (name@ == literal@),
{
    let other = String::from_str(literal);
    *name == other
}

pub fn random_walk_steps(crate_name: &String) -> (r: Option<usize>)
    ensures
        r == spec_random_walk_steps(crate_name@),
{
    if is_named(crate_name, "regex") || is_named(crate_name, "url") || is_named(crate_name, "time") {
        Some(10000)
    } else {
        None
    }
}

pub fn can_cover_nodes(crate_name: &String) -> (r: Option<usize>)
    ensures
        r == spec_can_cover_nodes(crate_name@),
{
    if is_named(crate_name, "regex") {
        Some(96)
    } else if is_named(crate_name, "serde_json") {
        Some(41)
    } else if is_named(crate_name, "clap") {
        Some(66)
    } else {
        None
    }
}

/// Whether `d` is the edge from `output` to parameter `k` of `input`.
pub open spec fn dep_matches(d: ApiDependency, output: (ApiType, usize), input: (ApiType, usize), k: usize) -> bool {
    d.output_fun == output && d.input_fun == input && d.input_param_index == k
}

/// The position of the first edge from `output` to parameter `k` of `input`.
pub open spec fn spec_check_dependency(
    deps: Seq<ApiDependency>,
    output: (ApiType, usize),
    input: (ApiType, usize),
    k: usize,
) -> Option<usize> {
    if exists|d: int| 0 <= d < deps.len() && dep_matches(deps[d], output, input, k) {
        Some((choose|d: int| 0 <= d < deps.len() && dep_matches(deps[d], output, input, k)
            && forall|e: int| 0 <= e < d ==> !dep_matches(#[trigger] deps[e], output, input, k)) as usize)
    } else {
        None
    }
}

pub proof fn lemma_check_dependency_at(
    deps: Seq<ApiDependency>,
    output: (ApiType, usize),
    input: (ApiType, usize),
    k: usize,
    d: int,
)
    requires
        0 <= d < deps.len(),
        deps.len() <= usize::MAX,
        dep_matches(deps[d], output, input, k),
        forall|e: int| 0 <= e < d ==> !dep_matches(#[trigger] deps[e], output, input, k),
    ensures
        spec_check_dependency(deps, output, input, k) == Some(d as usize),
{
    let c = choose|c: int| 0 <= c < deps.len() && dep_matches(deps[c], output, input, k)
        && forall|e: int| 0 <= e < c ==> !dep_matches(#[trigger] deps[e], output, input, k);
    if c < d {
        assert(!dep_matches(deps[c], output, input, k));
    } else if c > d {
        assert(!dep_matches(deps[d], output, input, k));
    }
}

/// `b` is `a` with only the generated sequences and the visited flags
/// changed.
pub open spec fn search_frame(a: ApiGraph, b: ApiGraph) -> bool {
    b == (ApiGraph { api_sequences: b.api_sequences, api_functions_visited: b.api_functions_visited, ..a })
}

impl ApiGraph {
    /// The sequences are consistent and call functions of the graph.
    pub open spec fn well_formed(&self) -> bool {
        forall|s: int| 0 <= s < self.api_sequences@.len() ==> {
            &&& (#[trigger] self.api_sequences@[s])@.consistent()
            &&& self.api_sequences@[s]@.refers_within(self.api_functions@.len())
        }
    }

    /// The record of visited functions has one entry per function.
    pub open spec fn visited_ok(&self) -> bool {
        self.api_functions_visited@.len() == self.api_functions@.len()
    }

    /// There is a flag for every function (and possibly more).
    pub open spec fn flags_cover_functions(&self) -> bool {
        self.api_functions@.len() <= self.api_functions_visited@.len()
    }

    pub open spec fn sequences_view(&self) -> Seq<SequenceView> {
        self.api_sequences@.map_values(|s: ApiSequence| s@)
    }

    /// A graph for the crate `_crate_name` with nothing in it yet.
    pub fn new(_crate_name: &String) -> (r: Self)
        ensures
            r._crate_name@ == _crate_name@,
            r.api_functions@.len() == 0,
            r.api_functions_visited@.len() == 0,
            r.api_dependencies@.len() == 0,
            r.api_sequences@.len() == 0,
            r.type_links@.len() == 0,
            r.mod_visibility.crate_name@ == _crate_name@,
            r.mod_visibility.inner@.len() == 0,
            r.functions_with_unsupported_fuzzable_types@.len() == 0,
            r.well_formed(),
            r.visited_ok(),
    {
        ApiGraph {
            _crate_name: _crate_name.clone(),
            api_functions: Vec::new(),
            api_functions_visited: Vec::new(),
            api_dependencies: Vec::new(),
            api_sequences: Vec::new(),
            type_links: Vec::new(),
            mod_visibility: ModVisibility::new(_crate_name),
            functions_with_unsupported_fuzzable_types: Vec::new(),
        }
    }

    /// Installs what the type layer decided about pairs of types.
    pub fn set_type_links(&mut self, type_links: Vec<TypeLink>)
        ensures
            final(self).type_links@ == type_links@,
            final(self).api_functions@ == old(self).api_functions@,
            final(self).api_functions_visited@ == old(self).api_functions_visited@,
            final(self).api_dependencies@ == old(self).api_dependencies@,
            final(self).api_sequences@ == old(self).api_sequences@,
            final(self).well_formed() == old(self).well_formed(),
            *final(self) == (ApiGraph { type_links: final(self).type_links, ..*old(self) }),
    {
        self.type_links = type_links;
    }

    /// Records the visibility of a module, for the filter by visibility.
    pub fn add_mod_visibility(&mut self, mod_name: &String, is_public: bool)
        ensures
            final(self).api_functions@ == old(self).api_functions@,
            final(self).api_sequences@ == old(self).api_sequences@,
            final(self).api_dependencies@ == old(self).api_dependencies@,
            final(self).api_functions_visited@ == old(self).api_functions_visited@,
            final(self).well_formed() == old(self).well_formed(),
            final(self).mod_visibility.crate_name == old(self).mod_visibility.crate_name,
            crate::model::distinct_mods(old(self).mod_visibility.inner@) ==> crate::model::distinct_mods(
                final(self).mod_visibility.inner@,
            ),
            match crate::model::spec_find_mod(old(self).mod_visibility.inner@, mod_name@) {
                Some(p) => final(self).mod_visibility.inner@.len() == old(self).mod_visibility.inner@.len()
                    && final(self).mod_visibility.inner@[p].name@ == mod_name@
                    && final(self).mod_visibility.inner@[p].is_public == is_public
                    && forall|q: int| 0 <= q < old(self).mod_visibility.inner@.len() && q != p
                        ==> final(self).mod_visibility.inner@[q] == old(self).mod_visibility.inner@[q],
                None => final(self).mod_visibility.inner@.len() == old(self).mod_visibility.inner@.len() + 1
                    && final(self).mod_visibility.inner@.last().name@ == mod_name@
                    && final(self).mod_visibility.inner@.last().is_public == is_public
                    && forall|q: int| 0 <= q < old(self).mod_visibility.inner@.len()
                        ==> final(self).mod_visibility.inner@[q] == old(self).mod_visibility.inner@[q],
            },
            *final(self) == (ApiGraph { mod_visibility: final(self).mod_visibility, ..*old(self) }),
    {
        self.mod_visibility.add_one_mod(mod_name, is_public);
        proof {
            assert(self.api_sequences@ == old(self).api_sequences@);
            assert(self.api_functions@ == old(self).api_functions@);
            assert(self.api_dependencies@ == old(self).api_dependencies@);
        }
    }

    /// Marks every function as not visited.
    pub fn reset_visited(&mut self)
        ensures
            final(self).api_functions_visited@ == Seq::new(old(self).api_functions@.len(), |i: int| false),
            final(self).api_functions@ == old(self).api_functions@,
            final(self).api_dependencies@ == old(self).api_dependencies@,
            final(self).api_sequences@ == old(self).api_sequences@,
            final(self)._crate_name == old(self)._crate_name,
            final(self).type_links@ == old(self).type_links@,
            final(self).well_formed() == old(self).well_formed(),
            final(self).visited_ok(),
            *final(self) == (ApiGraph { api_functions_visited: final(self).api_functions_visited, ..*old(self) }),
    {
        self.api_functions_visited.clear();
        let n = self.api_functions.len();
        let mut i: usize = 0;
        while i < n
            invariant
                *self == (ApiGraph { api_functions_visited: self.api_functions_visited, ..*old(self) }),
                n == self.api_functions@.len(),
                i <= n,
                self.api_functions_visited@ =~= Seq::new(i as nat, |j: int| false),
                self.api_functions@ == old(self).api_functions@,
                self.api_dependencies@ == old(self).api_dependencies@,
                self.api_sequences@ == old(self).api_sequences@,
                self._crate_name == old(self)._crate_name,
                self.type_links@ == old(self).type_links@,
            decreases n - i,
        {
            self.api_functions_visited.push(false);
            i = i + 1;
        }
    }

    /// The number of visited functions.
    pub fn _visited_nodes_num(&self) -> (r: usize)
        ensures
            r == count_true(self.api_functions_visited@),
    {
        count_visited(&self.api_functions_visited)
    }

    /// Whether the search has visited all the functions it can: the number
    /// known in advance for this crate, else every function.
    pub fn check_all_visited(&self) -> (r: bool)
        ensures
            r == match spec_can_cover_nodes(self._crate_name@) {
                Some(n) => count_true(self.api_functions_visited@) == n,
                None => count_true(self.api_functions_visited@) == self.api_functions_visited@.len(),
            },
    {
        let visited_nodes = count_visited(&self.api_functions_visited);
        match can_cover_nodes(&self._crate_name) {
            Some(to_cover_nodes) => visited_nodes == to_cover_nodes,
            None => visited_nodes == self.api_functions_visited.len(),
        }
    }

    /// Whether the last call of `api_sequence` is of a function whose result
    /// is not worth handing on.
    pub open spec fn spec_is_sequence_ended(&self, api_sequence: SequenceView) -> bool {
        match api_sequence.last_func_index() {
            None => false,
            Some(index) => self.api_functions@[index as int].is_end_function,
        }
    }

    pub fn is_sequence_ended(&self, api_sequence: &ApiSequence) -> (r: bool)
        requires
            api_sequence@.refers_within(self.api_functions@.len()),
        ensures
            r == self.spec_is_sequence_ended(api_sequence@),
    {
        let n = api_sequence.functions.len();
        if n == 0 {
            false
        } else {
            let last = &api_sequence.functions[n - 1];
            proof {
                assert(api_sequence@.functions[n - 1] == last@);
            }
            match last.func.0 {
                ApiType::BareFunction => self.api_functions[last.func.1].is_end_function,
                ApiType::GenericFunction => false,
            }
        }
    }

    /// The first dependency from `output_index` to parameter
    /// `input_param_index_` of `input_index`, if any.
    pub fn check_dependency(
        &self,
        output_type: &ApiType,
        output_index: usize,
        input_type: &ApiType,
        input_index: usize,
        input_param_index_: usize,
    ) -> (r: Option<usize>)
        ensures
            r == spec_check_dependency(
                self.api_dependencies@,
                (*output_type, output_index),
                (*input_type, input_index),
                input_param_index_,
            ),
            r matches Some(d) ==> d < self.api_dependencies@.len() && dep_matches(
                self.api_dependencies@[d as int],
                (*output_type, output_index),
                (*input_type, input_index),
                input_param_index_,
            ),
    {
        let ghost output = (*output_type, output_index);
        let ghost input = (*input_type, input_index);
        let dependency_num = self.api_dependencies.len();
        let mut index: usize = 0;
        while index < dependency_num
            invariant
                dependency_num == self.api_dependencies@.len(),
                index <= dependency_num,
                output == (*output_type, output_index),
                input == (*input_type, input_index),
                forall|e: int| 0 <= e < index ==> !dep_matches(#[trigger] self.api_dependencies@[e], output, input,
                    input_param_index_),
            decreases dependency_num - index,
        {
            let dependency = &self.api_dependencies[index];
            if dependency.output_fun.0 == *output_type && dependency.output_fun.1 == output_index
                && dependency.input_fun.0 == *input_type && dependency.input_fun.1 == input_index
                && dependency.input_param_index == input_param_index_ {
                proof {
                    lemma_check_dependency_at(self.api_dependencies@, output, input, input_param_index_, index as int);
                }
                return Some(index);
            }
            index = index + 1;
        }
        None
    }
}

/// The names of the modules that are not public.
pub open spec fn invisible_mods(inner: Seq<ModEntry>) -> Seq<Seq<char>> {
    inner.filter(|e: ModEntry| !e.is_public).map_values(|e: ModEntry| e.name@)
}

/// Whether `name` lies inside one of the modules `mods`.
pub open spec fn inside_some(mods: Seq<Seq<char>>, name: Seq<char>) -> bool {
    exists|m: int| 0 <= m < mods.len() && is_prefix(mods[m], name)
}

/// A function is kept by the filter on visibility when it is public and
/// neither it nor the trait it implements lies inside a module that is not
/// public.
pub open spec fn is_visible(f: ApiFunction, mods: Seq<Seq<char>>) -> bool {
    &&& f.is_public
    &&& !inside_some(mods, f.full_name@)
    &&& match f.trait_full_path {
        Some(t) => !inside_some(mods, t@),
        None => true,
    }
}

/// A function is kept by the filter on prelude types when it is not
/// defined on one of `prelude_types`.
pub open spec fn not_on_prelude_type(f: ApiFunction, prelude_types: Seq<String>) -> bool {
    match f.self_type {
        Some(t) => !names_contain(prelude_types, t),
        None => true,
    }
}

/// The substitutions after each generic type parameter of `params` is set
/// to `i32`.
pub open spec fn substitutions_after(subs: Seq<Seq<char>>, params: Seq<GenericParam>) -> Seq<Seq<char>>
    decreases params.len(),
{
    if params.len() == 0 {
        subs
    } else {
        let before = substitutions_after(subs, params.drop_last());
        if params.last().is_type {
            name_insert(before, params.last().name@)
        } else {
            before
        }
    }
}

/// Adds `name` to the set of names `v`.
pub fn insert_name(v: &mut Vec<String>, name: &String)
    ensures
        names_view(final(v)@) == name_insert(names_view(old(v)@), name@),
{
    let mut i: usize = 0;
    while i < v.len()
        invariant
            i <= v@.len(),
            *v == *old(v),
            forall|j: int| 0 <= j < i ==> v@[j]@ != name@,
        decreases v.len() - i,
    {
        if v[i] == *name {
            proof {
                assert(names_view(v@)[i as int] == name@);
            }
            return;
        }
        i = i + 1;
    }
    proof {
        assert(!names_view(v@).contains(name@));
    }
    v.push(name.clone());
    proof {
        assert(names_view(v@) =~= names_view(old(v)@).push(name@));
    }
}

/// Whether `name` lies inside one of the modules `mods`.
fn inside_any(mods: &Vec<String>, name: &String) -> (r: bool)
    ensures
        r == inside_some(names_view(mods@), name@),
{
    let mut m: usize = 0;
    while m < mods.len()
        invariant
            m <= mods@.len(),
            forall|k: int| 0 <= k < m ==> !is_prefix(#[trigger] names_view(mods@)[k], name@),
        decreases mods.len() - m,
    {
        if starts_with(name.as_str(), mods[m].as_str()) {
            proof {
                assert(is_prefix(names_view(mods@)[m as int], name@));
            }
            return true;
        }
        m = m + 1;
    }
    false
}

impl ApiGraph {
    /// Adds a function to the graph. A function with a parameter that no
    /// input can be made for is only recorded by name; for the others each
    /// generic type parameter is set to `i32`.
    pub fn add_api_function(&mut self, api_fun: ApiFunction)
        ensures
            final(self).api_dependencies@ == old(self).api_dependencies@,
            final(self).api_sequences@ == old(self).api_sequences@,
            final(self).api_functions_visited@ == old(self).api_functions_visited@,
            final(self)._crate_name == old(self)._crate_name,
            old(self).well_formed() ==> final(self).well_formed(),
            api_fun.has_unsupported_fuzzable_type ==> {
                &&& final(self).api_functions@ == old(self).api_functions@
                &&& names_view(final(self).functions_with_unsupported_fuzzable_types@)
                    == name_insert(names_view(old(self).functions_with_unsupported_fuzzable_types@), api_fun.full_name@)
            },
            !api_fun.has_unsupported_fuzzable_type ==> {
                &&& final(self).functions_with_unsupported_fuzzable_types@ == old(self).functions_with_unsupported_fuzzable_types@
                &&& final(self).api_functions@.len() == old(self).api_functions@.len() + 1
                &&& final(self).api_functions@.drop_last() == old(self).api_functions@
                &&& final(self).api_functions@.last() == (ApiFunction {
                    generic_substitutions: final(self).api_functions@.last().generic_substitutions,
                    ..api_fun
                })
                &&& names_view(final(self).api_functions@.last().generic_substitutions@)
                    == substitutions_after(names_view(api_fun.generic_substitutions@), api_fun.generic_params@)
            },
            *final(self) == (ApiGraph {
                api_functions: final(self).api_functions,
                functions_with_unsupported_fuzzable_types: final(self).functions_with_unsupported_fuzzable_types,
                ..*old(self)
            }),
    {
        let mut api_fun = api_fun;
        if api_fun.has_unsupported_fuzzable_type {
            insert_name(&mut self.functions_with_unsupported_fuzzable_types, &api_fun.full_name);
            return;
        }
        let ghost start = api_fun;
        let mut g: usize = 0;
        while g < api_fun.generic_params.len()
            invariant
                g <= api_fun.generic_params@.len(),
                api_fun == (ApiFunction { generic_substitutions: api_fun.generic_substitutions, ..start }),
                names_view(api_fun.generic_substitutions@)
                    == substitutions_after(names_view(start.generic_substitutions@), start.generic_params@.take(g as int)),
            decreases api_fun.generic_params.len() - g,
        {
            proof {
                assert(start.generic_params@.take(g + 1).drop_last() =~= start.generic_params@.take(g as int));
            }
            if api_fun.generic_params[g].is_type {
                let name = api_fun.generic_params[g].name.clone();
                insert_name(&mut api_fun.generic_substitutions, &name);
            }
            g = g + 1;
        }
        proof {
            assert(start.generic_params@.take(g as int) =~= start.generic_params@);
        }
        self.api_functions.push(api_fun);
        proof {
            assert(self.api_functions@.drop_last() =~= old(self).api_functions@);
            assert forall|q: int| 0 <= q < self.api_sequences@.len() && old(self).well_formed()
                implies (#[trigger] self.api_sequences@[q])@.refers_within(self.api_functions@.len()) by {
                assert(old(self).api_sequences@[q]@.refers_within(old(self).api_functions@.len()));
            }
        }
    }

    /// Drops the functions defined on one of the prelude types.
    pub fn filter_functions_defined_on_prelude_type(&mut self, prelude_types: &Vec<String>)
        ensures
            final(self).api_functions@ == if prelude_types@.len() == 0 {
                old(self).api_functions@
            } else {
                old(self).api_functions@.filter(|f: ApiFunction| not_on_prelude_type(f, prelude_types@))
            },
            final(self).api_sequences@ == old(self).api_sequences@,
            final(self).api_dependencies@ == old(self).api_dependencies@,
            final(self).api_functions_visited@ == old(self).api_functions_visited@,
            final(self)._crate_name == old(self)._crate_name,
            final(self).mod_visibility == old(self).mod_visibility,
            old(self).api_sequences@.len() == 0 ==> final(self).well_formed(),
            *final(self) == (ApiGraph { api_functions: final(self).api_functions, ..*old(self) }),
    {
        if prelude_types.len() == 0 {
            return;
        }
        let ghost pred = |f: ApiFunction| not_on_prelude_type(f, prelude_types@);
        let mut rest: Vec<ApiFunction> = Vec::new();
        std::mem::swap(&mut rest, &mut self.api_functions);
        let ghost all = rest@;
        let n0 = rest.len();
        let mut i: usize = 0;
        while rest.len() > 0
            invariant
                *self == (ApiGraph { api_functions: self.api_functions, ..*old(self) }),
                all.len() == n0,
                pred == (|f: ApiFunction| not_on_prelude_type(f, prelude_types@)),
                all == old(self).api_functions@,
                i <= all.len(),
                rest@ == all.skip(i as int),
                self.api_functions@ == all.take(i as int).filter(pred),
                self.api_sequences@ == old(self).api_sequences@,
                self.api_dependencies@ == old(self).api_dependencies@,
                self.api_functions_visited@ == old(self).api_functions_visited@,
                self._crate_name == old(self)._crate_name,
                self.mod_visibility == old(self).mod_visibility,
            decreases rest.len(),
        {
            let f = rest.remove(0);
            proof {
                assert(all.take(i + 1) =~= all.take(i as int).push(f));
                all.take(i as int).lemma_filter_push(f, pred);
                assert(rest@ =~= all.skip(i + 1));
            }
            let keep = match &f.self_type {
                Some(t) => !contains_name(prelude_types, t),
                None => true,
            };
            if keep {
                self.api_functions.push(f);
            }
            i = i + 1;
        }
        proof {
            assert(all.take(i as int) =~= all);
        }
    }

    /// Drops the functions that are not public, or that lie (themselves or
    /// the trait they implement) inside a module that is not public.
    pub fn filter_api_functions_by_mod_visibility(&mut self)
        requires
            old(self).mod_visibility.inner@.len() > 0,
        ensures
            final(self).api_functions@ == old(self).api_functions@.filter(
                |f: ApiFunction| is_visible(f, invisible_mods(old(self).mod_visibility.inner@)),
            ),
            final(self).api_sequences@ == old(self).api_sequences@,
            final(self).api_dependencies@ == old(self).api_dependencies@,
            final(self).api_functions_visited@ == old(self).api_functions_visited@,
            final(self)._crate_name == old(self)._crate_name,
            final(self).mod_visibility == old(self).mod_visibility,
            old(self).api_sequences@.len() == 0 ==> final(self).well_formed(),
            *final(self) == (ApiGraph { api_functions: final(self).api_functions, ..*old(self) }),
    {
        let invisible = self.mod_visibility.get_invisible_mods();
        let ghost mods = invisible_mods(self.mod_visibility.inner@);
        proof {
            assert(names_view(invisible@) =~= mods);
        }
        let ghost pred = |f: ApiFunction| is_visible(f, mods);
        let mut rest: Vec<ApiFunction> = Vec::new();
        std::mem::swap(&mut rest, &mut self.api_functions);
        let ghost all = rest@;
        let n0 = rest.len();
        let mut i: usize = 0;
        while rest.len() > 0
            invariant
                *self == (ApiGraph { api_functions: self.api_functions, ..*old(self) }),
                all.len() == n0,
                pred == (|f: ApiFunction| is_visible(f, mods)),
                names_view(invisible@) == mods,
                mods == invisible_mods(old(self).mod_visibility.inner@),
                all == old(self).api_functions@,
                i <= all.len(),
                rest@ == all.skip(i as int),
                self.api_functions@ == all.take(i as int).filter(pred),
                self.api_sequences@ == old(self).api_sequences@,
                self.api_dependencies@ == old(self).api_dependencies@,
                self.api_functions_visited@ == old(self).api_functions_visited@,
                self._crate_name == old(self)._crate_name,
                self.mod_visibility == old(self).mod_visibility,
            decreases rest.len(),
        {
            let f = rest.remove(0);
            proof {
                assert(all.take(i + 1) =~= all.take(i as int).push(f));
                all.take(i as int).lemma_filter_push(f, pred);
                assert(rest@ =~= all.skip(i + 1));
            }
            let mut invisible_flag = inside_any(&invisible, &f.full_name);
            if !invisible_flag {
                if let Some(t) = &f.trait_full_path {
                    invisible_flag = inside_any(&invisible, t);
                }
            }
            if !invisible_flag && f.is_public {
                self.api_functions.push(f);
            }
            i = i + 1;
        }
        proof {
            assert(all.take(i as int) =~= all);
        }
    }

    /// Applies both filters.
    pub fn filter_functions(&mut self, prelude_types: &Vec<String>)
        requires
            old(self).mod_visibility.inner@.len() > 0,
        ensures
            final(self).api_functions@ == (if prelude_types@.len() == 0 {
                old(self).api_functions@
            } else {
                old(self).api_functions@.filter(|f: ApiFunction| not_on_prelude_type(f, prelude_types@))
            }).filter(|f: ApiFunction| is_visible(f, invisible_mods(old(self).mod_visibility.inner@))),
            final(self).api_sequences@ == old(self).api_sequences@,
            final(self).api_dependencies@ == old(self).api_dependencies@,
            final(self)._crate_name == old(self)._crate_name,
            old(self).api_sequences@.len() == 0 ==> final(self).well_formed(),
            *final(self) == (ApiGraph { api_functions: final(self).api_functions, ..*old(self) }),
    {
        self.filter_functions_defined_on_prelude_type(prelude_types);
        self.filter_api_functions_by_mod_visibility();
    }
}

} // verus!
