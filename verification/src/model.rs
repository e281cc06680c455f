//! The nodes and edges of the graph: functions with the facts about their
//! types that the search reads, and the dependencies between them.
//!
//! Types are interned: a type is known by a key, and what the type layer
//! decides about a pair of types (whether a value of one can be handed to a
//! parameter of the other, and how) comes in as a table of links.
use vstd::prelude::*;

verus! {

/// Whether a node is an ordinary function or a generic one. Only ordinary
/// functions take part in the search.
#[derive(Clone, Copy, PartialEq, Eq, Structural, Debug)]
pub enum ApiType {
    BareFunction,
    GenericFunction,
}

/// How a value reaches a parameter: an identifier of the conversion, and
/// what passing it that way implies.
#[derive(Clone, Copy, PartialEq, Eq, Structural, Debug)]
pub struct CallType {
    /// Identifies the conversion (direct, by reference, unwrapped, ...).
    pub kind: u64,
    /// Passing the value moves it: it cannot be used again afterwards.
    pub moves_value: bool,
    /// Passing the value borrows it mutably.
    pub borrows_mut: bool,
    /// Passing the value borrows it immutably.
    pub borrows_shared: bool,
    /// The variable that holds the value has to be declared `mut`.
    pub needs_mut_tag: bool,
    /// The conversion needs an `unsafe` block.
    pub is_unsafe: bool,
}

/// The kind of input a fuzzer supplies for a parameter.
#[derive(Clone, Copy, PartialEq, Eq, Structural, Debug)]
pub enum FuzzableType {
    /// The parameter looked fuzzable but no input can be made for it.
    NoFuzzable,
    /// An input of the given kind; `dynamic_parts` counts the parts of
    /// dynamic length in it (a string or a slice counts one each).
    Fuzzable { kind: u64, dynamic_parts: u32 },
}

impl FuzzableType {
    pub open spec fn is_fixed_length(self) -> bool {
        match self {
            FuzzableType::NoFuzzable => true,
            FuzzableType::Fuzzable { dynamic_parts, .. } => dynamic_parts == 0,
        }
    }

    pub open spec fn is_multiple_dynamic_length(self) -> bool {
        match self {
            FuzzableType::NoFuzzable => false,
            FuzzableType::Fuzzable { dynamic_parts, .. } => dynamic_parts > 1,
        }
    }

    pub fn fixed_length(&self) -> (r: bool)
        ensures
            r == self.is_fixed_length(),
    {
        match self {
            FuzzableType::NoFuzzable => true,
            FuzzableType::Fuzzable { dynamic_parts, .. } => *dynamic_parts == 0,
        }
    }

    pub fn multiple_dynamic_length(&self) -> (r: bool)
        ensures
            r == self.is_multiple_dynamic_length(),
    {
        match self {
            FuzzableType::NoFuzzable => false,
            FuzzableType::Fuzzable { dynamic_parts, .. } => *dynamic_parts > 1,
        }
    }
}

/// A type as the graph sees it: its key, the generic parameters it names,
/// and the key it gets once every generic parameter is replaced by `i32`.
pub struct TypeRef {
    pub key: u64,
    pub generics: Vec<String>,
    pub substituted_key: u64,
}

/// Whether `names` holds a string with the same characters as `name`.
pub open spec fn names_contain(names: Seq<String>, name: String) -> bool {
    exists|i: int| 0 <= i < names.len() && names[i]@ == name@
}

/// The key of `ty` once the generic parameters in `subs` are replaced by
/// `i32`; `None` when `ty` names a generic parameter that `subs` lacks.
pub open spec fn spec_substitute(ty: TypeRef, subs: Seq<String>) -> Option<u64> {
    if forall|g: int| 0 <= g < ty.generics@.len() ==> names_contain(subs, #[trigger] ty.generics@[g]) {
        if ty.generics@.len() == 0 {
            Some(ty.key)
        } else {
            Some(ty.substituted_key)
        }
    } else {
        None
    }
}

pub fn contains_name(names: &Vec<String>, name: &String) -> (r: bool)
    ensures
        r == names_contain(names@, *name),
{
    let mut i: usize = 0;
    while i < names.len()
        invariant
            i <= names.len(),
            forall|j: int| 0 <= j < i ==> names@[j]@ != name@,
        decreases names.len() - i,
    {
        if names[i] == *name {
            return true;
        }
        i = i + 1;
    }
    false
}

/// Replaces the generic parameters of `ty` that `subs` names by `i32`.
pub fn substitute_type(ty: &TypeRef, subs: &Vec<String>) -> (r: Option<u64>)
    ensures
        r == spec_substitute(*ty, subs@),
{
    let mut g: usize = 0;
    while g < ty.generics.len()
        invariant
            g <= ty.generics@.len(),
            forall|h: int| 0 <= h < g ==> names_contain(subs@, #[trigger] ty.generics@[h]),
        decreases ty.generics.len() - g,
    {
        if !contains_name(subs, &ty.generics[g]) {
            return None;
        }
        g = g + 1;
    }
    if ty.generics.len() == 0 {
        Some(ty.key)
    } else {
        Some(ty.substituted_key)
    }
}

/// One parameter of a function.
pub struct ParamInfo {
    pub ty: TypeRef,
    /// A fuzzer can supply it once the function's generics are replaced.
    pub fuzzable: bool,
    /// A fuzzer can supply it as written, generics left in place.
    pub fuzzable_plain: bool,
    /// The input made for it when it is fuzzable.
    pub fuzz_type: FuzzableType,
    /// How that input is passed.
    pub fuzz_call: CallType,
}

/// A generic parameter of a function: its name, and whether it stands for
/// a type (rather than a lifetime or a constant).
pub struct GenericParam {
    pub name: String,
    pub is_type: bool,
}

/// A public function of the crate under test.
pub struct ApiFunction {
    pub full_name: String,
    /// The trait it implements, if any.
    pub trait_full_path: Option<String>,
    /// The type it is defined on, if it is a method.
    pub self_type: Option<String>,
    pub inputs: Vec<ParamInfo>,
    pub output: Option<TypeRef>,
    pub is_public: bool,
    pub is_unsafe: bool,
    /// A call of it cannot take the result of another call.
    pub is_start_function: bool,
    /// Its result is not worth handing on.
    pub is_end_function: bool,
    /// Some parameter has a type that no input can be made for.
    pub has_unsupported_fuzzable_type: bool,
    pub generic_params: Vec<GenericParam>,
    /// The generic parameters that are replaced by `i32`.
    pub generic_substitutions: Vec<String>,
}

/// What the type layer decided for a pair of type keys: a value of type
/// `output_key` can reach a parameter of type `input_key` as `call_type`.
pub struct TypeLink {
    pub output_key: u64,
    pub input_key: u64,
    pub call_type: CallType,
}

/// The first link in `links` for the pair, if any.
pub open spec fn spec_same_type(links: Seq<TypeLink>, output_key: u64, input_key: u64) -> Option<CallType> {
    if exists|l: int| 0 <= l < links.len() && links[l].output_key == output_key && links[l].input_key == input_key {
        let l = choose|l: int|
            0 <= l < links.len() && links[l].output_key == output_key && links[l].input_key == input_key
                && forall|m: int| 0 <= m < l ==> !(links[m].output_key == output_key && links[m].input_key == input_key);
        Some(links[l].call_type)
    } else {
        None
    }
}

/// How a value of type `output_key` reaches a parameter of type
/// `input_key`; `None` when it cannot.
pub fn same_type(links: &Vec<TypeLink>, output_key: u64, input_key: u64) -> (r: Option<CallType>)
    ensures
        r == spec_same_type(links@, output_key, input_key),
{
    let mut l: usize = 0;
    while l < links.len()
        invariant
            l <= links.len(),
            forall|m: int| 0 <= m < l ==> !(links@[m].output_key == output_key && links@[m].input_key == input_key),
        decreases links.len() - l,
    {
        if links[l].output_key == output_key && links[l].input_key == input_key {
            let ghost w = l as int;
            proof {
                let c = choose|c: int|
                    0 <= c < links@.len() && links@[c].output_key == output_key && links@[c].input_key == input_key
                        && forall|m: int| 0 <= m < c ==> !(links@[m].output_key == output_key && links@[m].input_key == input_key);
                assert(0 <= w < links@.len() && links@[w].output_key == output_key && links@[w].input_key == input_key
                    && forall|m: int| 0 <= m < w ==> !(links@[m].output_key == output_key && links@[m].input_key == input_key));
                if c < w {
                } else if c > w {
                }
                assert(c == w);
            }
            return Some(links[l].call_type);
        }
        l = l + 1;
    }
    None
}

/// An edge: the result of `output_fun` can be passed as parameter
/// `input_param_index` of `input_fun`, in the way `call_type` says.
#[derive(Clone, Copy, Debug)]
pub struct ApiDependency {
    pub output_fun: (ApiType, usize),
    pub input_fun: (ApiType, usize),
    pub input_param_index: usize,
    pub call_type: CallType,
}

/// A module of the crate and whether it is public.
pub struct ModEntry {
    pub name: String,
    pub is_public: bool,
}

/// The position of the first entry for the module `name`.
pub open spec fn spec_find_mod(inner: Seq<ModEntry>, name: Seq<char>) -> Option<int> {
    if exists|p: int| 0 <= p < inner.len() && inner[p].name@ == name {
        Some(choose|p: int| 0 <= p < inner.len() && inner[p].name@ == name
            && forall|q: int| 0 <= q < p ==> inner[q].name@ != name)
    } else {
        None
    }
}

pub proof fn lemma_find_mod_at(inner: Seq<ModEntry>, name: Seq<char>, p: int)
    requires
        0 <= p < inner.len(),
        inner[p].name@ == name,
        forall|q: int| 0 <= q < p ==> inner[q].name@ != name,
    ensures
        spec_find_mod(inner, name) == Some(p),
{
    let c = choose|c: int| 0 <= c < inner.len() && inner[c].name@ == name
        && forall|q: int| 0 <= q < c ==> inner[q].name@ != name;
    assert(0 <= p < inner.len() && inner[p].name@ == name && forall|q: int| 0 <= q < p ==> inner[q].name@ != name);
    if c < p {
    } else if c > p {
    }
}

/// No module name is recorded twice.
pub open spec fn distinct_mods(inner: Seq<ModEntry>) -> bool {
    forall|i: int, j: int| 0 <= i < inner.len() && 0 <= j < inner.len() && i != j ==> inner[i].name@ != inner[j].name@
}

/// The visibility of the modules of the crate, one entry per module name.
pub struct ModVisibility {
    pub crate_name: String,
    pub inner: Vec<ModEntry>,
}

impl ModVisibility {
    pub fn new(crate_name: &String) -> (r: Self)
        ensures
            r.crate_name@ == crate_name@,
            r.inner@.len() == 0,
            distinct_mods(r.inner@),
    {
        ModVisibility { crate_name: crate_name.clone(), inner: Vec::new() }
    }

    /// Records the visibility of a module, replacing what was recorded for
    /// it before.
    pub fn add_one_mod(&mut self, mod_name: &String, is_public: bool)
        ensures
            final(self).crate_name == old(self).crate_name,
            match spec_find_mod(old(self).inner@, mod_name@) {
                Some(p) => final(self).inner@.len() == old(self).inner@.len()
                    && final(self).inner@[p].name@ == mod_name@
                    && final(self).inner@[p].is_public == is_public
                    && forall|q: int| 0 <= q < old(self).inner@.len() && q != p ==> final(self).inner@[q] == old(self).inner@[q],
                None => final(self).inner@.len() == old(self).inner@.len() + 1
                    && final(self).inner@.last().name@ == mod_name@
                    && final(self).inner@.last().is_public == is_public
                    && forall|q: int| 0 <= q < old(self).inner@.len() ==> final(self).inner@[q] == old(self).inner@[q],
            },
            distinct_mods(old(self).inner@) ==> distinct_mods(final(self).inner@),
    {
        let mut i: usize = 0;
        while i < self.inner.len()
            invariant
                i <= self.inner@.len(),
                self.inner@ == old(self).inner@,
                self.crate_name == old(self).crate_name,
                forall|j: int| 0 <= j < i ==> self.inner@[j].name@ != mod_name@,
            decreases self.inner.len() - i,
        {
            if self.inner[i].name == *mod_name {
                proof {
                    lemma_find_mod_at(self.inner@, mod_name@, i as int);
                }
                let name = self.inner[i].name.clone();
                self.inner.set(i, ModEntry { name, is_public });
                return;
            }
            i = i + 1;
        }
        self.inner.push(ModEntry { name: mod_name.clone(), is_public });
    }

    /// The names of the modules that are not public.
    pub fn get_invisible_mods(&self) -> (r: Vec<String>)
        ensures
            r@.len() == self.inner@.filter(|e: ModEntry| !e.is_public).len(),
            forall|k: int| 0 <= k < r@.len() ==> r@[k]@ == self.inner@.filter(|e: ModEntry| !e.is_public)[k].name@,
    {
        let ghost pred = |e: ModEntry| !e.is_public;
        let mut r: Vec<String> = Vec::new();
        let mut i: usize = 0;
        while i < self.inner.len()
            invariant
                i <= self.inner@.len(),
                pred == (|e: ModEntry| !e.is_public),
                r@.len() == self.inner@.take(i as int).filter(pred).len(),
                forall|k: int| 0 <= k < r@.len() ==> r@[k]@ == self.inner@.take(i as int).filter(pred)[k].name@,
            decreases self.inner.len() - i,
        {
            proof {
                assert(self.inner@.take(i + 1) =~= self.inner@.take(i as int).push(self.inner@[i as int]));
                self.inner@.take(i as int).lemma_filter_push(self.inner@[i as int], pred);
            }
            if !self.inner[i].is_public {
                r.push(self.inner[i].name.clone());
            }
            i = i + 1;
        }
        proof {
            assert(self.inner@.take(self.inner@.len() as int) =~= self.inner@);
        }
        r
    }
}

} // verus!
