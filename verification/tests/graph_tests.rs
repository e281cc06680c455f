use api_graph::corpus::{parse_corpus_line, CorpusLine};
use api_graph::generate::GraphTraverseAlgorithm;
use api_graph::graph::{can_cover_nodes, random_walk_steps, ApiGraph};
use api_graph::model::{
    ApiFunction, ApiType, CallType, FuzzableType, GenericParam, ParamInfo, TypeLink, TypeRef,
};
use api_graph::select::statistics;
use api_graph::sequence::{ApiSequence, ParamType};

const KEY_A: u64 = 1;
const KEY_B: u64 = 2;
const KEY_REF_A: u64 = 3;
const KEY_MUT_A: u64 = 4;
const KEY_U8: u64 = 10;
const KEY_STR: u64 = 11;

fn call_type(moves_value: bool, borrows_mut: bool, borrows_shared: bool) -> CallType {
    CallType {
        kind: 0,
        moves_value,
        borrows_mut,
        borrows_shared,
        needs_mut_tag: borrows_mut,
        is_unsafe: false,
    }
}

fn plain_call() -> CallType {
    call_type(false, false, false)
}

fn type_ref(key: u64) -> TypeRef {
    TypeRef { key, generics: Vec::new(), substituted_key: key }
}

fn struct_param(key: u64) -> ParamInfo {
    ParamInfo {
        ty: type_ref(key),
        fuzzable: false,
        fuzzable_plain: false,
        fuzz_type: FuzzableType::NoFuzzable,
        fuzz_call: plain_call(),
    }
}

fn fuzz_param(key: u64, dynamic_parts: u32) -> ParamInfo {
    ParamInfo {
        ty: type_ref(key),
        fuzzable: true,
        fuzzable_plain: true,
        fuzz_type: FuzzableType::Fuzzable { kind: key, dynamic_parts },
        fuzz_call: plain_call(),
    }
}

fn function(name: &str, inputs: Vec<ParamInfo>, output: Option<u64>) -> ApiFunction {
    ApiFunction {
        full_name: name.to_string(),
        trait_full_path: None,
        self_type: None,
        inputs,
        output: output.map(type_ref),
        is_public: true,
        is_unsafe: false,
        is_start_function: false,
        is_end_function: false,
        has_unsupported_fuzzable_type: false,
        generic_params: Vec::new(),
        generic_substitutions: Vec::new(),
    }
}

fn sample_links() -> Vec<TypeLink> {
    vec![
        TypeLink { output_key: KEY_A, input_key: KEY_A, call_type: call_type(true, false, false) },
        TypeLink { output_key: KEY_A, input_key: KEY_REF_A, call_type: call_type(false, false, true) },
        TypeLink { output_key: KEY_A, input_key: KEY_MUT_A, call_type: call_type(false, true, false) },
        TypeLink { output_key: KEY_B, input_key: KEY_B, call_type: call_type(true, false, false) },
    ]
}

/// f0: `new() -> A`; f1: `use_a(A) -> B`; f2: `fuzz(u8)`; f3: `peek(&A, &str)`.
fn sample_functions() -> Vec<ApiFunction> {
    vec![
        function("lib::A::new", Vec::new(), Some(KEY_A)),
        function("lib::use_a", vec![struct_param(KEY_A)], Some(KEY_B)),
        function("lib::fuzz", vec![fuzz_param(KEY_U8, 0)], None),
        function("lib::peek", vec![struct_param(KEY_REF_A), fuzz_param(KEY_STR, 1)], None),
    ]
}

fn graph_of(functions: Vec<ApiFunction>) -> ApiGraph {
    let mut graph = ApiGraph::new(&"lib".to_string());
    for f in functions {
        graph.add_api_function(f);
    }
    graph.set_type_links(sample_links());
    graph.find_all_dependencies();
    graph
}

fn sample_graph() -> ApiGraph {
    graph_of(sample_functions())
}

fn extend(graph: &ApiGraph, f: usize, seq: &ApiSequence) -> Option<ApiSequence> {
    graph.is_fun_satisfied(&ApiType::BareFunction, f, seq)
}

fn chain(graph: &ApiGraph, fs: &[usize]) -> ApiSequence {
    let mut seq = ApiSequence::new();
    for &f in fs {
        seq = extend(graph, f, &seq).expect("the call fits");
    }
    seq
}

fn called(seq: &ApiSequence) -> Vec<usize> {
    seq.functions.iter().map(|c| c.func.1).collect()
}

fn all_called(seqs: &[ApiSequence]) -> Vec<Vec<usize>> {
    seqs.iter().map(called).collect()
}

#[test]
fn dependencies_found_between_functions() {
    let graph = sample_graph();
    assert_eq!(graph.api_dependencies.len(), 2);
    let d0 = &graph.api_dependencies[0];
    assert_eq!(d0.output_fun, (ApiType::BareFunction, 0));
    assert_eq!(d0.input_fun, (ApiType::BareFunction, 1));
    assert_eq!(d0.input_param_index, 0);
    assert!(d0.call_type.moves_value);
    let d1 = &graph.api_dependencies[1];
    assert_eq!(d1.output_fun, (ApiType::BareFunction, 0));
    assert_eq!(d1.input_fun, (ApiType::BareFunction, 3));
    assert_eq!(d1.input_param_index, 0);
    assert!(d1.call_type.borrows_shared);
}

#[test]
fn end_and_start_functions_get_no_dependency() {
    let mut functions = sample_functions();
    functions[0].is_end_function = true;
    let graph = graph_of(functions);
    assert_eq!(graph.api_dependencies.len(), 0);
    let mut functions = sample_functions();
    functions[1].is_start_function = true;
    let graph = graph_of(functions);
    assert_eq!(graph.api_dependencies.len(), 1);
    assert_eq!(graph.api_dependencies[0].input_fun, (ApiType::BareFunction, 3));
}

#[test]
fn generic_parameter_without_substitution_gets_no_dependency() {
    let generic_functions = || {
        let mut functions = sample_functions();
        functions[1].inputs[0].ty.generics = vec!["T".to_string()];
        functions[1].inputs[0].ty.key = 99;
        functions[1].inputs[0].ty.substituted_key = KEY_A;
        functions
    };
    let graph = graph_of(generic_functions());
    assert_eq!(graph.api_dependencies.len(), 1);
    let mut functions = generic_functions();
    functions[1].generic_substitutions = vec!["T".to_string()];
    let graph = graph_of(functions);
    assert_eq!(graph.api_dependencies.len(), 2);
    let mut functions = generic_functions();
    functions[1].generic_params = vec![GenericParam { name: "T".to_string(), is_type: true }];
    let graph = graph_of(functions);
    assert_eq!(graph.api_dependencies.len(), 2);
}

#[test]
fn check_dependency_finds_the_edge() {
    let graph = sample_graph();
    let b = ApiType::BareFunction;
    assert_eq!(graph.check_dependency(&b, 0, &b, 1, 0), Some(0));
    assert_eq!(graph.check_dependency(&b, 0, &b, 3, 0), Some(1));
    assert_eq!(graph.check_dependency(&b, 0, &b, 3, 1), None);
    assert_eq!(graph.check_dependency(&b, 1, &b, 1, 0), None);
    assert_eq!(graph.check_dependency(&ApiType::GenericFunction, 0, &b, 1, 0), None);
}

#[test]
fn function_without_inputs_is_always_satisfied() {
    let graph = sample_graph();
    let seq = extend(&graph, 0, &ApiSequence::new()).unwrap();
    assert_eq!(called(&seq), vec![0]);
    assert!(seq.functions[0].params.is_empty());
    assert!(seq.fuzzable_params.is_empty());
}

#[test]
fn missing_producer_is_not_satisfied() {
    let graph = sample_graph();
    assert!(extend(&graph, 1, &ApiSequence::new()).is_none());
    assert!(extend(&graph, 3, &chain(&graph, &[2])).is_none());
}

#[test]
fn result_is_moved_into_call() {
    let graph = sample_graph();
    let seq = chain(&graph, &[0, 1]);
    assert_eq!(called(&seq), vec![0, 1]);
    let param = seq.functions[1].params[0];
    assert_eq!(param.param_type, ParamType::FunctionReturn);
    assert_eq!(param.index, 0);
    assert_eq!(seq.moved, vec![0]);
    assert_eq!(seq.covered_dependencies, vec![0]);
}

#[test]
fn moved_result_cannot_be_reused() {
    let graph = sample_graph();
    let seq = chain(&graph, &[0, 1]);
    assert!(extend(&graph, 1, &seq).is_none());
    assert!(extend(&graph, 3, &seq).is_none());
    let seq = chain(&graph, &[0, 0, 1]);
    let again = extend(&graph, 1, &seq).unwrap();
    assert_eq!(again.functions[3].params[0].index, 1);
    let mut moved = again.moved.clone();
    moved.sort();
    assert_eq!(moved, vec![0, 1]);
}

#[test]
fn borrowed_result_stays_usable() {
    let graph = sample_graph();
    let seq = chain(&graph, &[0, 3, 3]);
    assert_eq!(seq.functions[1].params[0].index, 0);
    assert_eq!(seq.functions[2].params[0].index, 0);
    assert!(seq.moved.is_empty());
}

#[test]
fn fuzzable_parameter_takes_new_input() {
    let graph = sample_graph();
    let seq = chain(&graph, &[2, 0, 3]);
    assert_eq!(
        seq.fuzzable_params,
        vec![
            FuzzableType::Fuzzable { kind: KEY_U8, dynamic_parts: 0 },
            FuzzableType::Fuzzable { kind: KEY_STR, dynamic_parts: 1 },
        ]
    );
    let peek = &seq.functions[2];
    assert_eq!(peek.params[0].param_type, ParamType::FunctionReturn);
    assert_eq!(peek.params[0].index, 1);
    assert_eq!(peek.params[1].param_type, ParamType::FuzzableType);
    assert_eq!(peek.params[1].index, 1);
}

#[test]
fn no_fuzzable_parameter_is_refused() {
    let mut functions = sample_functions();
    functions[2].inputs[0].fuzz_type = FuzzableType::NoFuzzable;
    let graph = graph_of(functions);
    assert!(extend(&graph, 2, &ApiSequence::new()).is_none());
}

#[test]
fn multiple_dynamic_input_is_refused() {
    let mut functions = sample_functions();
    functions[2].inputs[0] = fuzz_param(KEY_STR, 2);
    let graph = graph_of(functions);
    assert!(extend(&graph, 2, &ApiSequence::new()).is_none());
}

#[test]
fn unsafe_function_and_trait_are_recorded() {
    let mut functions = sample_functions();
    functions[0].is_unsafe = true;
    functions[0].trait_full_path = Some("lib::Make".to_string());
    let graph = graph_of(functions);
    let seq = chain(&graph, &[0, 0]);
    assert!(seq.unsafe_tag);
    assert_eq!(seq.using_traits, vec!["lib::Make".to_string()]);
}

#[test]
fn mutable_borrow_blocks_shared_borrow_of_same_result() {
    let mut functions = sample_functions();
    functions.push(function(
        "lib::both",
        vec![struct_param(KEY_MUT_A), struct_param(KEY_REF_A)],
        None,
    ));
    let graph = graph_of(functions);
    let one = chain(&graph, &[0]);
    assert!(extend(&graph, 4, &one).is_none());
    let two = chain(&graph, &[0, 0]);
    let seq = extend(&graph, 4, &two).unwrap();
    let call = &seq.functions[2];
    assert_eq!(call.params[0].index, 0);
    assert!(call.params[0].call_type.borrows_mut);
    assert_eq!(call.params[1].index, 1);
    assert!(call.params[1].call_type.borrows_shared);
    assert_eq!(seq.function_mut_tag, vec![0]);
}

#[test]
fn generic_function_is_never_satisfied() {
    let graph = sample_graph();
    assert!(graph.is_fun_satisfied(&ApiType::GenericFunction, 0, &ApiSequence::new()).is_none());
}

#[test]
fn bfs_grows_all_sequences_up_to_three_calls() {
    let mut graph = sample_graph();
    graph.bfs(3, false, false);
    assert_eq!(graph.api_sequences.len(), 29);
    assert!(graph.api_sequences[0].functions.is_empty());
    let seqs = all_called(&graph.api_sequences);
    assert_eq!(seqs[1], vec![0]);
    assert_eq!(seqs[2], vec![2]);
    assert_eq!(&seqs[3..9], &[vec![0, 0], vec![0, 1], vec![0, 2], vec![0, 3], vec![2, 0], vec![2, 2]]);
    assert!(seqs.iter().all(|s| s.len() <= 3));
    assert_eq!(graph.api_functions_visited, vec![true, true, true, true]);
    assert!(graph.check_all_visited());
    assert_eq!(graph._visited_nodes_num(), 4);
}

#[test]
fn bfs_keeps_earlier_sequences() {
    let mut graph = sample_graph();
    let start = chain(&graph, &[2]);
    graph.api_sequences.push(start);
    graph.bfs(1, false, false);
    let seqs = all_called(&graph.api_sequences);
    assert_eq!(seqs, vec![vec![2], vec![], vec![0], vec![2]]);
    assert_eq!(graph.api_functions_visited, vec![true, false, true, false]);
}

#[test]
fn fast_bfs_skips_visited_functions() {
    let mut graph = sample_graph();
    graph.bfs(3, false, true);
    let seqs = all_called(&graph.api_sequences);
    assert_eq!(seqs, vec![vec![], vec![0], vec![2], vec![0, 1], vec![0, 3]]);
}

#[test]
fn bfs_with_zero_length_adds_nothing() {
    let mut graph = sample_graph();
    graph.bfs(0, false, false);
    assert!(graph.api_sequences.is_empty());
    assert_eq!(graph.api_functions_visited, vec![false; 4]);
    assert!(!graph.check_all_visited());
}

#[test]
fn bfs_end_point_does_not_extend_ended_sequences() {
    let mut functions = sample_functions();
    functions[2].is_end_function = true;
    let mut graph = graph_of(functions);
    graph.bfs(2, true, false);
    let seqs = all_called(&graph.api_sequences);
    assert_eq!(
        seqs,
        vec![vec![], vec![0], vec![2], vec![0, 0], vec![0, 1], vec![0, 2], vec![0, 3]]
    );
}

#[test]
fn random_walk_grows_from_empty_sequence() {
    let mut graph = sample_graph();
    graph.random_walk(200, false, 0);
    let n = graph.api_sequences.len();
    assert!(n >= 1 && n <= 201);
    assert!(graph.api_sequences[0].functions.is_empty());
    for seq in &graph.api_sequences[1..] {
        let last = seq.functions.last().unwrap().func.1;
        assert!(graph.api_functions_visited[last]);
    }
    for (f, &v) in graph.api_functions_visited.iter().enumerate() {
        if v {
            assert!(graph.api_sequences[1..].iter().any(|s| s.functions.last().unwrap().func.1 == f));
        }
    }
}

#[test]
fn random_walk_on_empty_graph_leaves_nothing() {
    let mut graph = graph_of(Vec::new());
    graph.random_walk(10, false, 0);
    assert!(graph.api_sequences.is_empty());
}

#[test]
fn random_walk_respects_depth() {
    let mut graph = sample_graph();
    graph.random_walk(300, false, 2);
    assert!(graph.api_sequences.iter().all(|s| s.functions.len() <= 2));
}

#[test]
fn deep_bfs_reaches_every_function() {
    let mut graph = sample_graph();
    graph._try_deep_bfs(100000);
    assert!(graph.api_sequences[0].functions.is_empty());
    assert_eq!(graph.api_functions_visited, vec![true, true, true, true]);
}

#[test]
fn try_to_cover_reaches_unvisited_functions() {
    let mut graph = sample_graph();
    let start = chain(&graph, &[0]);
    graph.api_sequences = vec![ApiSequence::new(), start];
    graph.api_functions_visited = vec![true, false, false, false];
    assert_eq!(graph._choose_candidate_sequence_for_merge(), vec![1]);
    graph._try_to_cover_unvisited_nodes();
    let seqs = all_called(&graph.api_sequences);
    assert_eq!(seqs, vec![vec![], vec![0], vec![0, 1], vec![2], vec![0, 3]]);
    assert_eq!(graph.api_functions_visited, vec![true, true, true, true]);
}

#[test]
fn merge_sequences_renumbers_calls() {
    let graph = sample_graph();
    let first = chain(&graph, &[2]);
    let second = chain(&graph, &[0, 1, 2]);
    let merged = ApiSequence::merge_sequences(&vec![first, second]);
    assert_eq!(called(&merged), vec![2, 0, 1, 2]);
    assert_eq!(merged.functions[2].params[0].index, 1);
    assert_eq!(merged.functions[3].params[0].param_type, ParamType::FuzzableType);
    assert_eq!(merged.functions[3].params[0].index, 1);
    assert_eq!(merged.fuzzable_params.len(), 2);
    assert_eq!(merged.moved, vec![1]);
    assert_eq!(merged.len(), 4);
}

#[test]
fn merge_of_nothing_is_empty() {
    let merged = ApiSequence::merge_sequences(&Vec::new());
    assert_eq!(merged.len(), 0);
}

#[test]
fn dead_code_marks_unused_results() {
    let graph = sample_graph();
    let seq = chain(&graph, &[0, 2]);
    assert_eq!(seq.dead_code(), vec![true, true]);
    assert!(seq.contains_dead_code_except_last_one());
    let seq = chain(&graph, &[0, 1]);
    assert_eq!(seq.dead_code(), vec![false, true]);
    assert!(!seq.contains_dead_code_except_last_one());
}

#[test]
fn sequence_queries() {
    let graph = sample_graph();
    let seq = chain(&graph, &[0, 3, 0]);
    assert_eq!(seq.get_contained_api_functions(), vec![0, 3]);
    assert_eq!(seq.last_api_func_index(), Some(0));
    assert!(!seq.has_no_fuzzables());
    assert!(!seq.is_fuzzables_fixed_length());
    assert!(!seq.contains_multi_dynamic_length_fuzzable());
    assert!(chain(&graph, &[2]).is_fuzzables_fixed_length());
    assert_eq!(ApiSequence::new().last_api_func_index(), None);
}

fn selection_sequences(graph: &ApiGraph) -> Vec<ApiSequence> {
    vec![
        ApiSequence::new(),
        chain(graph, &[2]),
        chain(graph, &[0, 3]),
        chain(graph, &[0, 2]),
    ]
}

#[test]
fn statistics_counts_calls_nodes_edges() {
    let graph = sample_graph();
    let seqs = selection_sequences(&graph);
    let stats = statistics(&vec![seqs[1].duplicate(), seqs[2].duplicate()]);
    assert_eq!(stats.targets, 2);
    assert_eq!(stats.total_length, 3);
    assert_eq!(stats.covered_nodes, 3);
    assert_eq!(stats.covered_edges, 1);
}

#[test]
fn fuzz_target_statistics_skip_sequences_without_inputs() {
    let mut graph = sample_graph();
    graph.api_sequences = selection_sequences(&graph);
    assert_eq!(graph.fuzz_target_sequences().len(), 3);
    let stats = graph.fuzz_target_statistics();
    assert_eq!(stats.targets, 3);
    assert_eq!(stats.total_length, 5);
    assert_eq!(stats.covered_nodes, 3);
    assert_eq!(stats.covered_edges, 1);
}

#[test]
fn first_choose_takes_fuzz_targets_in_order() {
    let mut graph = sample_graph();
    graph.api_sequences = selection_sequences(&graph);
    assert_eq!(all_called(&graph._first_choose(1)), vec![vec![2]]);
    assert_eq!(all_called(&graph._first_choose(0)), vec![vec![2]]);
    assert_eq!(all_called(&graph._first_choose(5)), vec![vec![2], vec![0, 3], vec![0, 2]]);
}

#[test]
fn heuristic_choose_prefers_dynamic_inputs_then_new_functions() {
    let mut graph = sample_graph();
    graph.api_sequences = selection_sequences(&graph);
    assert_eq!(all_called(&graph._heuristic_choose(10, false)), vec![vec![0, 3], vec![2]]);
    assert_eq!(all_called(&graph._heuristic_choose(0, false)), vec![vec![0, 3]]);
}

#[test]
fn heuristic_choose_without_valid_targets_is_empty() {
    let mut graph = sample_graph();
    graph.api_sequences = vec![ApiSequence::new(), chain(&graph, &[0, 2])];
    assert!(graph._heuristic_choose(10, true).is_empty());
}

#[test]
fn random_choose_picks_distinct_sequences() {
    let mut graph = sample_graph();
    graph.api_sequences = selection_sequences(&graph);
    let one = graph._random_choose(1);
    assert_eq!(one.len(), 1);
    let all = graph._random_choose(10);
    let mut picked = all_called(&all);
    picked.sort();
    let mut expected = all_called(&graph.api_sequences);
    expected.sort();
    assert_eq!(picked, expected);
}

#[test]
fn naive_choose_covers_visited_functions() {
    let mut graph = sample_graph();
    graph.api_sequences = vec![chain(&graph, &[0, 3]), chain(&graph, &[2])];
    graph.api_functions_visited = vec![true, false, true, true];
    assert_eq!(all_called(&graph._naive_choose_sequence(10)), vec![vec![0, 3], vec![2]]);
    assert_eq!(all_called(&graph._naive_choose_sequence(1)), vec![vec![0, 3]]);
}

#[test]
fn naive_choose_stops_when_no_candidate_is_left() {
    let mut graph = sample_graph();
    graph.api_sequences = vec![chain(&graph, &[2]), chain(&graph, &[0, 3])];
    graph.api_functions_visited = vec![true, false, true, true];
    assert_eq!(all_called(&graph._naive_choose_sequence(10)), vec![vec![0, 3]]);
}

#[test]
fn reverse_construct_builds_backwards() {
    let mut functions = sample_functions();
    functions.push(function("lib::use_b", vec![struct_param(KEY_B)], None));
    let graph = graph_of(functions);
    let b = ApiType::BareFunction;
    let r = graph.reverse_construct(&b, 0).unwrap();
    assert_eq!(called_rev(&r), vec![0]);
    let r = graph.reverse_construct(&b, 3).unwrap();
    assert_eq!(called_rev(&r), vec![3, 0]);
    assert_eq!(r.functions[0].params[0].param_type, ParamType::FunctionReturn);
    assert_eq!(r.functions[0].params[0].index, 1);
    assert_eq!(r.functions[0].params[1].param_type, ParamType::FuzzableType);
    assert_eq!(r.functions[0].params[1].index, 0);
    assert_eq!(r.covered_dependencies, vec![1]);
    let r = graph.reverse_construct(&b, 4).unwrap();
    assert_eq!(called_rev(&r), vec![4, 1, 0]);
    assert_eq!(r.functions[0].params[0].index, 1);
    assert_eq!(r.functions[1].params[0].index, 1);
}

#[test]
fn reverse_construct_needs_a_lower_producer() {
    let functions = vec![
        function("lib::use_a", vec![struct_param(KEY_A)], Some(KEY_B)),
        function("lib::A::new", Vec::new(), Some(KEY_A)),
    ];
    let graph = graph_of(functions);
    assert!(graph.reverse_construct(&ApiType::BareFunction, 0).is_none());
    assert!(graph.reverse_construct(&ApiType::BareFunction, 1).is_some());
}

fn called_rev(seq: &api_graph::reverse::ReverseApiSequence) -> Vec<usize> {
    seq.functions.iter().map(|c| c.func.1).collect()
}

fn corpus() -> Vec<CorpusLine> {
    vec![
        CorpusLine { frequency: 3, functions: vec!["lib::A::new".to_string(), "lib::use_a".to_string()] },
        CorpusLine { frequency: 2, functions: vec!["lib::A::new".to_string(), "lib::missing".to_string()] },
        CorpusLine { frequency: 5, functions: vec!["lib::peek".to_string(), "lib::A::new".to_string()] },
    ]
}

#[test]
fn real_world_replays_corpus() {
    let mut graph = sample_graph();
    graph.api_sequences.push(chain(&graph, &[2]));
    let report = graph.real_world(&corpus());
    assert_eq!(all_called(&graph.api_sequences), vec![vec![0], vec![0, 1]]);
    assert_eq!(graph.api_functions_visited, vec![true, true, false, false]);
    let apis: Vec<(String, i32)> = report.corpus_apis.iter().map(|a| (a.name.clone(), a.frequency)).collect();
    assert_eq!(
        apis,
        vec![
            ("lib::A::new".to_string(), 8),
            ("lib::use_a".to_string(), 3),
            ("lib::peek".to_string(), 5),
        ]
    );
    assert_eq!(report.category1, vec!["lib::A::new".to_string(), "lib::use_a".to_string()]);
    assert_eq!(report.category2, vec!["lib::peek".to_string()]);
}

#[test]
fn generate_with_real_world_gives_report() {
    let mut graph = sample_graph();
    let report = graph.generate_all_possoble_sequences(GraphTraverseAlgorithm::_UseRealWorld, &corpus());
    assert!(report.is_some());
    assert_eq!(graph.api_sequences.len(), 2);
    let mut graph = sample_graph();
    let report = graph.generate_all_possoble_sequences(GraphTraverseAlgorithm::_Bfs, &corpus());
    assert!(report.is_none());
    assert_eq!(graph.api_sequences.len(), 29);
}

#[test]
fn generate_backward_search_from_scratch() {
    let mut graph = sample_graph();
    graph.api_sequences.push(chain(&graph, &[0]));
    graph.generate_all_possoble_sequences(GraphTraverseAlgorithm::_DirectBackwardSearch, &Vec::new());
    let seqs = all_called(&graph.api_sequences);
    assert_eq!(seqs, vec![vec![0], vec![2], vec![0, 1], vec![0, 3]]);
}

#[test]
fn default_generation_reaches_every_function() {
    let mut graph = sample_graph();
    graph._default_generate_sequences();
    assert_eq!(graph.api_sequences.len(), 29);
    assert!(graph.check_all_visited());
}

#[test]
fn parse_corpus_line_reads_fields() {
    let line = parse_corpus_line("id| 12 times |lib::a lib::b c  lib::c").unwrap();
    assert_eq!(line.frequency, 12);
    assert_eq!(line.functions, vec!["lib::a".to_string(), "lib::b".to_string(), "lib::c".to_string()]);
    let line = parse_corpus_line("x|2147483647|é").unwrap();
    assert_eq!(line.frequency, i32::MAX);
    assert_eq!(line.functions, vec!["é".to_string()]);
    let line = parse_corpus_line("x|7").unwrap();
    assert_eq!(line.frequency, 7);
    assert!(line.functions.is_empty());
}

#[test]
fn parse_corpus_line_rejects_bad_lines() {
    assert!(parse_corpus_line("no fields").is_none());
    assert!(parse_corpus_line("a|none|lib::f").is_none());
    assert!(parse_corpus_line("a|2147483648|lib::f").is_none());
    assert!(parse_corpus_line("").is_none());
}

#[test]
fn filter_by_prelude_type() {
    let mut functions = sample_functions();
    functions[1].self_type = Some("Vec".to_string());
    functions[2].self_type = Some("lib::A".to_string());
    let mut graph = graph_of(functions);
    graph.filter_functions_defined_on_prelude_type(&vec!["Vec".to_string(), "Option".to_string()]);
    let names: Vec<String> = graph.api_functions.iter().map(|f| f.full_name.clone()).collect();
    assert_eq!(names, vec!["lib::A::new".to_string(), "lib::fuzz".to_string(), "lib::peek".to_string()]);
    graph.filter_functions_defined_on_prelude_type(&Vec::new());
    assert_eq!(graph.api_functions.len(), 3);
}

#[test]
fn filter_by_mod_visibility() {
    let mut functions = sample_functions();
    functions[1].full_name = "lib::private::use_a".to_string();
    functions[2].is_public = false;
    functions[3].trait_full_path = Some("lib::private::Peek".to_string());
    let mut graph = graph_of(functions);
    graph.add_mod_visibility(&"lib".to_string(), true);
    graph.add_mod_visibility(&"lib::private".to_string(), false);
    graph.filter_api_functions_by_mod_visibility();
    let names: Vec<String> = graph.api_functions.iter().map(|f| f.full_name.clone()).collect();
    assert_eq!(names, vec!["lib::A::new".to_string()]);
}

#[test]
fn mod_visibility_is_replaced_by_a_later_record() {
    let mut functions = sample_functions();
    functions[1].full_name = "lib::private::use_a".to_string();
    let mut graph = graph_of(functions);
    graph.add_mod_visibility(&"lib::private".to_string(), false);
    graph.add_mod_visibility(&"lib::private".to_string(), true);
    assert_eq!(graph.mod_visibility.inner.len(), 1);
    graph.filter_functions(&vec!["Vec".to_string()]);
    assert_eq!(graph.api_functions.len(), 4);
}

#[test]
fn add_api_function_substitutes_type_generics() {
    let mut graph = ApiGraph::new(&"lib".to_string());
    let mut f = function("lib::g", Vec::new(), None);
    f.generic_params = vec![
        GenericParam { name: "T".to_string(), is_type: true },
        GenericParam { name: "'a".to_string(), is_type: false },
        GenericParam { name: "T".to_string(), is_type: true },
        GenericParam { name: "U".to_string(), is_type: true },
    ];
    graph.add_api_function(f);
    assert_eq!(graph.api_functions.len(), 1);
    assert_eq!(graph.api_functions[0].generic_substitutions, vec!["T".to_string(), "U".to_string()]);
}

#[test]
fn add_api_function_records_unsupported_once() {
    let mut graph = ApiGraph::new(&"lib".to_string());
    let mut f = function("lib::bad", Vec::new(), None);
    f.has_unsupported_fuzzable_type = true;
    graph.add_api_function(f);
    let mut f = function("lib::bad", Vec::new(), None);
    f.has_unsupported_fuzzable_type = true;
    graph.add_api_function(f);
    assert!(graph.api_functions.is_empty());
    assert_eq!(graph.functions_with_unsupported_fuzzable_types, vec!["lib::bad".to_string()]);
}

#[test]
fn crate_specific_numbers() {
    assert_eq!(random_walk_steps(&"regex".to_string()), Some(10000));
    assert_eq!(random_walk_steps(&"url".to_string()), Some(10000));
    assert_eq!(random_walk_steps(&"time".to_string()), Some(10000));
    assert_eq!(random_walk_steps(&"serde".to_string()), None);
    assert_eq!(can_cover_nodes(&"regex".to_string()), Some(96));
    assert_eq!(can_cover_nodes(&"serde_json".to_string()), Some(41));
    assert_eq!(can_cover_nodes(&"clap".to_string()), Some(66));
    assert_eq!(can_cover_nodes(&"url".to_string()), None);
}

#[test]
fn check_all_visited_uses_known_number() {
    let mut graph = ApiGraph::new(&"clap".to_string());
    for f in sample_functions() {
        graph.add_api_function(f);
    }
    graph.reset_visited();
    assert_eq!(graph._visited_nodes_num(), 0);
    graph.api_functions_visited = vec![true; 4];
    assert!(!graph.check_all_visited());
}

#[test]
fn sequence_ended_at_end_function() {
    let mut functions = sample_functions();
    functions[2].is_end_function = true;
    let graph = graph_of(functions);
    assert!(graph.is_sequence_ended(&chain(&graph, &[0, 2])));
    assert!(!graph.is_sequence_ended(&chain(&graph, &[2, 0])));
    assert!(!graph.is_sequence_ended(&ApiSequence::new()));
}

fn extends_one_of(seqs: &[Vec<usize>], s: &[usize]) -> bool {
    !s.is_empty() && seqs.iter().any(|p| p.as_slice() == &s[..s.len() - 1])
}

#[test]
fn bfs_sequences_extend_earlier_ones() {
    let mut graph = sample_graph();
    graph.bfs(3, false, false);
    let seqs = all_called(&graph.api_sequences);
    for s in 1..seqs.len() {
        assert!(extends_one_of(&seqs[..s], &seqs[s]));
    }
}

#[test]
fn deep_bfs_sequences_extend_earlier_ones() {
    let mut graph = sample_graph();
    graph._try_deep_bfs(100000);
    let seqs = all_called(&graph.api_sequences);
    for s in 1..seqs.len() {
        assert!(extends_one_of(&seqs[..s], &seqs[s]));
        assert!(seqs[s].len() <= 4);
    }
}

#[test]
fn random_walk_end_point_does_not_extend_ended_sequences() {
    let mut functions = sample_functions();
    functions[2].is_end_function = true;
    let mut graph = graph_of(functions);
    graph.random_walk(300, true, 0);
    let seqs = all_called(&graph.api_sequences);
    for s in 1..seqs.len() {
        let parent = &seqs[s][..seqs[s].len() - 1];
        assert!(parent.last() != Some(&2));
    }
}

#[test]
fn replayed_sequences_extend_the_previous_one() {
    let mut graph = sample_graph();
    graph.real_world(&corpus());
    let seqs = all_called(&graph.api_sequences);
    for s in 0..seqs.len() {
        assert!(seqs[s].len() == 1 || (s > 0 && seqs[s][..seqs[s].len() - 1] == seqs[s - 1][..]));
    }
}

#[test]
fn reverse_sequence_calls_lower_functions_after_the_tail() {
    let mut functions = sample_functions();
    functions.push(function("lib::use_b", vec![struct_param(KEY_B)], None));
    let graph = graph_of(functions);
    for t in 0..5 {
        if let Some(r) = graph.reverse_construct(&ApiType::BareFunction, t) {
            let calls = called_rev(&r);
            assert_eq!(calls[0], t);
            assert_eq!(r.functions[0].params.len(), graph.api_functions[t].inputs.len());
            assert!(calls[1..].iter().all(|&c| c < t));
        }
    }
}

#[test]
fn heuristic_choice_takes_valid_targets_once() {
    let mut graph = sample_graph();
    graph.bfs(3, false, false);
    let chosen = graph._heuristic_choose(100, false);
    assert!(!chosen.is_empty());
    for s in &chosen {
        assert!(!s.has_no_fuzzables());
        assert!(!s.contains_dead_code_except_last_one());
    }
    let calls = all_called(&chosen);
    for i in 0..calls.len() {
        for j in i + 1..calls.len() {
            assert_ne!(calls[i], calls[j]);
        }
    }
}

#[test]
fn backward_search_keeps_sequences_and_marks() {
    let mut graph = sample_graph();
    let start = chain(&graph, &[0]);
    graph.api_sequences = vec![ApiSequence::new(), start];
    graph.api_functions_visited = vec![true, false, false, false];
    graph._try_to_cover_unvisited_nodes();
    let seqs = all_called(&graph.api_sequences);
    assert_eq!(&seqs[..2], &[vec![], vec![0]]);
    assert!(graph.api_functions_visited[0]);
    for s in &seqs[2..] {
        assert!(graph.api_functions_visited[*s.last().unwrap()]);
    }
}

#[test]
fn naive_choice_picks_cover_new_functions() {
    let mut graph = sample_graph();
    graph.bfs(3, false, false);
    let picks = graph._naive_choose_sequence(100);
    let mut covered: Vec<usize> = Vec::new();
    for p in &picks {
        let funcs = p.get_contained_api_functions();
        assert!(funcs.iter().any(|f| graph.api_functions_visited[*f] && !covered.contains(f)));
        covered.extend(funcs);
    }
}

#[test]
fn merge_length_is_the_sum_of_lengths() {
    let graph = sample_graph();
    let parts = vec![chain(&graph, &[0, 1]), chain(&graph, &[2]), ApiSequence::new(), chain(&graph, &[0, 3])];
    let total: usize = parts.iter().map(|p| p.len()).sum();
    assert_eq!(ApiSequence::merge_sequences(&parts).len(), total);
}

fn sequence_fits(graph: &ApiGraph, seq: &ApiSequence) -> bool {
    seq.functions.iter().enumerate().all(|(c, call)| {
        let f = call.func.1;
        call.func.0 == ApiType::BareFunction
            && f < graph.api_functions.len()
            && call.params.len() == graph.api_functions[f].inputs.len()
            && call.params.iter().enumerate().all(|(q, arg)| {
                let p = &graph.api_functions[f].inputs[q];
                if p.fuzzable {
                    arg.param_type == ParamType::FuzzableType && arg.call_type == p.fuzz_call
                } else {
                    arg.param_type == ParamType::FunctionReturn
                        && arg.index < c
                        && graph.api_dependencies.iter().any(|d| {
                            d.output_fun == seq.functions[arg.index].func
                                && d.input_fun == (ApiType::BareFunction, f)
                                && d.input_param_index == q
                                && d.call_type == arg.call_type
                        })
                }
            })
    })
}

#[test]
fn generated_sequences_have_fitting_calls() {
    let mut graph = sample_graph();
    graph.bfs(3, false, false);
    assert!(graph.api_sequences.iter().all(|s| sequence_fits(&graph, s)));
    graph._try_deep_bfs(100000);
    assert!(graph.api_sequences.iter().all(|s| sequence_fits(&graph, s)));
    graph.random_walk(300, false, 0);
    assert!(graph.api_sequences.iter().all(|s| sequence_fits(&graph, s)));
    graph.real_world(&corpus());
    assert!(graph.api_sequences.iter().all(|s| sequence_fits(&graph, s)));
    graph.generate_all_possoble_sequences(GraphTraverseAlgorithm::_DirectBackwardSearch, &Vec::new());
    assert!(graph.api_sequences.iter().all(|s| sequence_fits(&graph, s)));
    let merged = ApiSequence::merge_sequences(&vec![chain(&graph, &[0, 3]), chain(&graph, &[0, 1])]);
    assert!(sequence_fits(&graph, &merged));
}

#[test]
fn random_walk_reaches_every_function() {
    let mut graph = sample_graph();
    graph.random_walk(2000, false, 0);
    assert_eq!(graph.api_functions_visited, vec![true, true, true, true]);
    let mut lengths: Vec<usize> = graph.api_sequences.iter().map(|s| s.len()).collect();
    lengths.sort();
    lengths.dedup();
    assert!(lengths.len() > 2);
}

#[test]
fn generic_function_on_empty_graph_is_not_satisfied() {
    let graph = graph_of(Vec::new());
    assert!(graph.is_fun_satisfied(&ApiType::GenericFunction, 7, &ApiSequence::new()).is_none());
}

#[test]
fn naive_choice_takes_a_sequence_when_one_calls_a_visited_function() {
    let mut graph = sample_graph();
    graph.api_sequences = vec![chain(&graph, &[2])];
    graph.api_functions_visited = vec![false, false, true, false];
    assert_eq!(all_called(&graph._naive_choose_sequence(1)), vec![vec![2]]);
    assert!(graph._naive_choose_sequence(0).is_empty());
    graph.api_functions_visited = vec![false, false, false, false];
    assert!(graph._naive_choose_sequence(5).is_empty());
}

#[test]
fn extra_visited_flags_are_left_alone() {
    let mut graph = sample_graph();
    graph.api_sequences = vec![ApiSequence::new(), chain(&graph, &[0])];
    graph.api_functions_visited = vec![true, false, false, false, false];
    graph._try_to_cover_unvisited_nodes();
    assert_eq!(graph.api_functions_visited, vec![true, true, true, true, false]);
    assert!(!graph._naive_choose_sequence(10).is_empty());
}

#[test]
fn searching_leaves_the_setup_alone() {
    let mut graph = sample_graph();
    graph.add_mod_visibility(&"lib".to_string(), true);
    graph.bfs(2, false, false);
    graph.random_walk(20, false, 0);
    assert_eq!(graph.type_links.len(), 4);
    assert_eq!(graph.mod_visibility.inner.len(), 1);
    assert_eq!(graph.api_dependencies.len(), 2);
    assert_eq!(graph.api_functions.len(), 4);
}

#[test]
fn fast_bfs_adds_one_sequence_per_function() {
    let mut graph = sample_graph();
    graph.bfs(3, false, true);
    let mut ends: Vec<usize> = graph.api_sequences[1..].iter().map(|s| *called(s).last().unwrap()).collect();
    let n = ends.len();
    ends.sort();
    ends.dedup();
    assert_eq!(ends.len(), n);
}

#[test]
fn random_walk_on_functions_without_inputs_grows_every_step() {
    let mut graph = graph_of(vec![function("lib::a", Vec::new(), None), function("lib::b", Vec::new(), None)]);
    graph.random_walk(60, false, 0);
    assert_eq!(graph.api_sequences.len(), 61);
    assert!(graph.api_sequences[0].functions.is_empty());
    for (s, seq) in graph.api_sequences.iter().enumerate().skip(1) {
        let calls = called(seq);
        let prefix = &calls[..calls.len() - 1];
        assert!(graph.api_sequences[..s].iter().any(|p| called(p) == prefix));
    }
    assert_eq!(graph.api_functions_visited, vec![true, true]);
}

#[test]
fn finding_dependencies_again_changes_nothing() {
    let mut graph = sample_graph();
    let first: Vec<_> = graph
        .api_dependencies
        .iter()
        .map(|d| (d.output_fun.1, d.input_fun.1, d.input_param_index, d.call_type))
        .collect();
    graph.find_all_dependencies();
    let second: Vec<_> = graph
        .api_dependencies
        .iter()
        .map(|d| (d.output_fun.1, d.input_fun.1, d.input_param_index, d.call_type))
        .collect();
    assert_eq!(first, second);
    assert_eq!(first.len(), 2);
}

#[test]
fn naive_choice_picks_contain_the_lowest_uncovered_function() {
    let mut graph = sample_graph();
    graph.bfs(3, false, false);
    let picks = graph._naive_choose_sequence(100);
    assert!(!picks.is_empty());
    let mut covered: Vec<usize> = Vec::new();
    for p in &picks {
        let lowest = (0..graph.api_functions.len())
            .find(|f| graph.api_functions_visited[*f] && !covered.contains(f))
            .unwrap();
        let funcs = p.get_contained_api_functions();
        assert!(funcs.contains(&lowest));
        covered.extend(funcs);
    }
}
