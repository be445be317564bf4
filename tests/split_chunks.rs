use dev_friendly_split_chunks::chunk_graph::ChunkGraph;
use dev_friendly_split_chunks::grouping::{
    count_windows, exceeds_size_cap, plan_batches, size_split_window, split_window_by_size,
    MAX_MODULES_PER_CHUNK, MAX_SIZE_PER_CHUNK,
};
use dev_friendly_split_chunks::model::{Chunk, ChunkKind, Module, ModuleType};
use dev_friendly_split_chunks::order::shared_modules;
use dev_friendly_split_chunks::plugin::{Compilation, DevFriendlySplitChunksPlugin, SplitError};

fn js(size: u64) -> Module {
    Module { module_type: ModuleType::Js, size }
}

fn jsx(size: u64) -> Module {
    Module { module_type: ModuleType::Jsx, size }
}

fn entry_chunk(name: &str) -> Chunk {
    Chunk { name: Some(name.to_string()), kind: ChunkKind::Normal, reasons: Vec::new() }
}

/// Modules A, B, C; chunk X holds A and B, chunk Y holds B and C.
fn example_a() -> Compilation {
    let mut c = Compilation::new(vec![js(10), js(20), js(30)]);
    let x = c.add_chunk(entry_chunk("X"));
    let y = c.add_chunk(entry_chunk("Y"));
    c.connect(x, 0);
    c.connect(x, 1);
    c.connect(y, 1);
    c.connect(y, 2);
    c
}

fn sorted(mut v: Vec<usize>) -> Vec<usize> {
    v.sort();
    v
}

#[test]
fn example_a_moves_shared_module_into_new_chunk() {
    let mut c = example_a();
    let plugin = DevFriendlySplitChunksPlugin::new();
    assert_eq!(plugin.optimize_chunks(&mut c), Ok(()));
    assert_eq!(c.chunks.len(), 3);
    assert_eq!(c.chunk_graph.modules_of_chunk(2), vec![1]);
    assert_eq!(c.chunk_graph.modules_of_chunk(0), vec![0]);
    assert_eq!(c.chunk_graph.modules_of_chunk(1), vec![2]);
    assert_eq!(c.chunk_graph.chunks_of_module(1), vec![2]);
    let z = &c.chunks[2];
    assert_eq!(z.name, None);
    assert_eq!(z.kind, ChunkKind::Normal);
    assert_eq!(z.reasons, vec!["Split with ref count> 1".to_string()]);
    let pairs: Vec<(usize, usize)> = c.splits.iter().map(|r| (r.parent, r.child)).collect();
    assert_eq!(sorted(pairs.iter().map(|p| p.0).collect()), vec![0, 1]);
    assert!(pairs.iter().all(|p| p.1 == 2));
}

#[test]
fn split_records_see_modules_before_disconnection() {
    let mut c = example_a();
    DevFriendlySplitChunksPlugin::new().optimize_chunks(&mut c).unwrap();
    for r in &c.splits {
        match r.parent {
            0 => assert_eq!(sorted(r.parent_modules.clone()), vec![0, 1]),
            1 => assert_eq!(sorted(r.parent_modules.clone()), vec![1, 2]),
            other => panic!("unexpected parent {}", other),
        }
    }
}

#[test]
fn no_module_is_shared_after_the_pass() {
    let mut c = Compilation::new(vec![js(1), js(2), js(3), js(4)]);
    for _ in 0..3 {
        c.add_chunk(entry_chunk("e"));
    }
    // module 0 in all three chunks, 1 in two, 2 in one, 3 in none
    c.connect(0, 0);
    c.connect(1, 0);
    c.connect(2, 0);
    c.connect(0, 1);
    c.connect(2, 1);
    c.connect(1, 2);
    DevFriendlySplitChunksPlugin::new().optimize_chunks(&mut c).unwrap();
    assert_eq!(c.chunks.len(), 4);
    assert_eq!(c.chunk_graph.chunks_of_module(0), vec![3]);
    assert_eq!(c.chunk_graph.chunks_of_module(1), vec![3]);
    assert_eq!(c.chunk_graph.chunks_of_module(2), vec![1]);
    assert_eq!(c.chunk_graph.chunks_of_module(3), Vec::<usize>::new());
    assert_eq!(c.chunk_graph.modules_of_chunk(3), vec![0, 1]);
    for m in 0..4 {
        assert!(c.chunk_graph.ref_count(m) <= 1);
    }
}

#[test]
fn rerun_on_output_adds_no_chunk() {
    let mut c = example_a();
    let plugin = DevFriendlySplitChunksPlugin::new();
    plugin.optimize_chunks(&mut c).unwrap();
    let chunks = c.chunks.len();
    let splits = c.splits.len();
    plugin.optimize_chunks(&mut c).unwrap();
    assert_eq!(c.chunks.len(), chunks);
    assert_eq!(c.splits.len(), splits);
    assert_eq!(c.chunk_graph.modules_of_chunk(2), vec![1]);
}

fn shared_by_two(n: usize) -> Compilation {
    let mut c = Compilation::new((0..n).map(|_| js(1)).collect());
    let x = c.add_chunk(entry_chunk("X"));
    let y = c.add_chunk(entry_chunk("Y"));
    for m in 0..n {
        c.connect(x, m);
        c.connect(y, m);
    }
    c
}

#[test]
fn example_b_three_windows() {
    let order: Vec<usize> = (0..1200).collect();
    let ws = count_windows(&order, MAX_MODULES_PER_CHUNK);
    let lens: Vec<usize> = ws.iter().map(|w| w.len()).collect();
    assert_eq!(lens, vec![500, 500, 200]);
    assert_eq!(ws[1][0], 500);
    assert_eq!(ws[2][199], 1199);
}

#[test]
fn example_b_full_pass() {
    let mut c = shared_by_two(1200);
    DevFriendlySplitChunksPlugin::new().optimize_chunks(&mut c).unwrap();
    assert_eq!(c.chunks.len(), 5);
    assert_eq!(c.chunk_graph.modules_of_chunk(2).len(), 500);
    assert_eq!(c.chunk_graph.modules_of_chunk(3).len(), 500);
    assert_eq!(c.chunk_graph.modules_of_chunk(4).len(), 200);
    assert_eq!(c.chunk_graph.modules_of_chunk(0).len(), 0);
    assert_eq!(c.chunk_graph.modules_of_chunk(1).len(), 0);
}

#[test]
fn windows_never_exceed_the_count_cap() {
    let order: Vec<usize> = (0..7).collect();
    let ws = count_windows(&order, 3);
    assert_eq!(ws, vec![vec![0, 1, 2], vec![3, 4, 5], vec![6]]);
    assert!(count_windows(&Vec::new(), 3).is_empty());
}

#[test]
fn example_c_weighted_decision_raw_boundaries() {
    let mods = vec![jsx(1_000_000), jsx(1_000_000)];
    let win = vec![0, 1];
    assert!(exceeds_size_cap(&mods, &win, MAX_SIZE_PER_CHUNK));
    assert_eq!(size_split_window(&mods, &win, MAX_SIZE_PER_CHUNK), vec![vec![0, 1]]);
    assert_eq!(split_window_by_size(&mods, &win, MAX_SIZE_PER_CHUNK), vec![vec![0, 1]]);
}

#[test]
fn size_split_cuts_before_exceeding_cap() {
    let mods = vec![js(2_000_000), js(2_000_000), js(2_000_000), js(500_000)];
    let win = vec![0, 1, 2, 3];
    let batches = split_window_by_size(&mods, &win, MAX_SIZE_PER_CHUNK);
    assert_eq!(batches, vec![vec![0, 1], vec![2, 3]]);
    for b in &batches[..batches.len() - 1] {
        let raw: u64 = b.iter().map(|&m| mods[m].size).sum();
        assert!(raw <= MAX_SIZE_PER_CHUNK);
    }
}

#[test]
fn oversized_module_stands_alone() {
    let mods = vec![js(1), js(7_000_000), js(1)];
    let win = vec![0, 1, 2];
    assert_eq!(size_split_window(&mods, &win, MAX_SIZE_PER_CHUNK), vec![vec![0], vec![1], vec![2]]);
}

#[test]
fn weight_formula_values() {
    assert_eq!(jsx(2).double_weight(), 20);
    assert_eq!(Module { module_type: ModuleType::Tsx, size: 2 }.double_weight(), 20);
    assert_eq!(Module { module_type: ModuleType::JsxDynamic, size: 3 }.double_weight(), 30);
    assert_eq!(Module { module_type: ModuleType::JsxEsm, size: 3 }.double_weight(), 30);
    assert_eq!(Module { module_type: ModuleType::Css, size: 2 }.double_weight(), 6);
    assert_eq!(js(4).double_weight(), 12);
    assert!(ModuleType::Tsx.expands_on_transform());
    assert!(!ModuleType::Ts.expands_on_transform());
}

#[test]
fn weighted_cap_boundaries() {
    // 5 * 1_000_000 is exactly the cap; one byte more is above it
    assert!(!exceeds_size_cap(&vec![jsx(1_000_000)], &vec![0], MAX_SIZE_PER_CHUNK));
    assert!(exceeds_size_cap(&vec![jsx(1_000_001)], &vec![0], MAX_SIZE_PER_CHUNK));
    // 1.5 * 3_333_333 is below the cap, 1.5 * 3_333_334 above it
    assert!(!exceeds_size_cap(&vec![js(3_333_333)], &vec![0], MAX_SIZE_PER_CHUNK));
    assert!(exceeds_size_cap(&vec![js(3_333_334)], &vec![0], MAX_SIZE_PER_CHUNK));
    assert!(!exceeds_size_cap(&Vec::new(), &Vec::new(), MAX_SIZE_PER_CHUNK));
}

#[test]
fn window_within_cap_is_one_batch() {
    let mods = vec![js(1_000_000), js(1_000_000)];
    assert_eq!(split_window_by_size(&mods, &vec![1, 0], MAX_SIZE_PER_CHUNK), vec![vec![1, 0]]);
}

#[test]
fn shared_order_most_shared_first_then_by_number() {
    let mut g = ChunkGraph::new();
    for _ in 0..5 {
        g.add_module();
    }
    for _ in 0..3 {
        g.add_empty_chunk();
    }
    // counts: module 0 -> 2, 1 -> 3, 2 -> 1, 3 -> 2, 4 -> 3
    for (c, m) in [(0, 0), (1, 0), (0, 1), (1, 1), (2, 1), (0, 2), (1, 3), (2, 3), (0, 4), (1, 4), (2, 4)] {
        g.connect(c, m);
    }
    assert_eq!(shared_modules(&g), vec![1, 4, 0, 3]);
}

#[test]
fn same_input_same_batches() {
    let plugin = DevFriendlySplitChunksPlugin::new();
    let mut a = shared_by_two(30);
    let mut b = shared_by_two(30);
    plugin.optimize_chunks(&mut a).unwrap();
    plugin.optimize_chunks(&mut b).unwrap();
    assert_eq!(a.chunks.len(), b.chunks.len());
    for c in 0..a.chunks.len() {
        assert_eq!(a.chunk_graph.modules_of_chunk(c), b.chunk_graph.modules_of_chunk(c));
        assert_eq!(a.chunks[c].reasons, b.chunks[c].reasons);
    }
}

#[test]
fn plan_uses_both_levels() {
    let mut mods: Vec<Module> = (0..4).map(|_| js(3_000_000)).collect();
    mods.push(js(1));
    let order: Vec<usize> = (0..5).collect();
    // windows [0,1,2] and [3,4]; the first is cut by size, the second too
    let batches = plan_batches(&mods, &order, 3, MAX_SIZE_PER_CHUNK);
    assert_eq!(batches, vec![vec![0], vec![1], vec![2], vec![3, 4]]);
}

#[test]
fn missing_shared_module_is_an_error_and_changes_nothing() {
    let mut c = example_a();
    c.modules.truncate(1);
    let r = DevFriendlySplitChunksPlugin::new().optimize_chunks(&mut c);
    assert_eq!(r, Err(SplitError::MissingModule(1)));
    assert_eq!(c.chunks.len(), 2);
    assert_eq!(c.chunk_graph.modules_of_chunk(0), vec![0, 1]);
    assert!(c.splits.is_empty());
}

#[test]
fn no_shared_module_leaves_graph_alone() {
    let mut c = Compilation::new(vec![js(1), js(2)]);
    let x = c.add_chunk(entry_chunk("X"));
    let y = c.add_chunk(entry_chunk("Y"));
    c.connect(x, 0);
    c.connect(y, 1);
    DevFriendlySplitChunksPlugin::new().optimize_chunks(&mut c).unwrap();
    assert_eq!(c.chunks.len(), 2);
    assert_eq!(c.chunk_graph.modules_of_chunk(0), vec![0]);
    assert_eq!(c.chunk_graph.modules_of_chunk(1), vec![1]);
    assert!(c.splits.is_empty());
}

#[test]
fn graph_connect_and_disconnect_agree_both_ways() {
    let mut g = ChunkGraph::new();
    g.add_module();
    g.add_module();
    g.add_empty_chunk();
    g.connect(0, 1);
    g.connect(0, 0);
    assert_eq!(g.modules_of_chunk(0), vec![1, 0]);
    g.disconnect(0, 1);
    assert_eq!(g.modules_of_chunk(0), vec![0]);
    assert_eq!(g.chunks_of_module(1), Vec::<usize>::new());
    assert_eq!(g.chunks_of_module(0), vec![0]);
    assert_eq!(DevFriendlySplitChunksPlugin::new().name(), "DevFriendlySplitChunksPlugin");
}
