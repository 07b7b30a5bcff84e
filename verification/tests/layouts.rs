use bc4py_plotter::layout::{
    block_count, block_read_offset, estimate_output_size, join_copy_source, joined_read_offset, plan_plotting,
    sha_scoop_offset, split_number, stage_action, transpose_block, PlotPlan, StageAction,
};

/// A pseudo-random unoptimized file of `count` plots.
fn sample_plots(count: usize) -> Vec<u8> {
    let mut x: u32 = 12345;
    let mut v = Vec::with_capacity(count * 524288);
    for _ in 0..count * 524288 {
        x = x.wrapping_mul(1103515245).wrapping_add(12345);
        v.push((x >> 16) as u8);
    }
    v
}

/// What the converter reads for block `b` with `split` scoops per block.
fn read_block(unopt: &[u8], count: usize, split: usize, b: usize) -> Vec<u8> {
    let mut raw = Vec::new();
    for n in 0..count {
        let at = block_read_offset(b as u64, split as u64, n as u64) as usize;
        raw.extend_from_slice(&unopt[at..at + split * 32]);
    }
    raw
}

#[test]
fn transpose_block_small_grid() {
    // two rows of three 32-byte chunks, chunk (r, c) filled with 10 * r + c
    let mut raw = Vec::new();
    for r in 0..2u8 {
        for c in 0..3u8 {
            raw.extend_from_slice(&[10 * r + c; 32]);
        }
    }
    let out = transpose_block(&raw, 2, 3);
    let order: Vec<u8> = out.chunks(32).map(|c| c[0]).collect();
    assert_eq!(order, vec![0, 10, 1, 11, 2, 12]);
    assert!(out.chunks(32).all(|c| c.iter().all(|b| *b == c[0])));
}

#[test]
fn transpose_block_empty() {
    assert_eq!(transpose_block(&[], 0, 5), Vec::<u8>::new());
    assert_eq!(transpose_block(&[], 4, 0), Vec::<u8>::new());
}

#[test]
fn blockwise_conversion_equals_whole_conversion() {
    let count = 3;
    let unopt = sample_plots(count);
    let whole = transpose_block(&unopt, count, 16384);
    for split in [16384usize, 4096, 1024] {
        let mut out = Vec::new();
        for b in 0..block_count(split) {
            let raw = read_block(&unopt, count, split, b);
            out.extend_from_slice(&transpose_block(&raw, count, split));
        }
        assert_eq!(out, whole);
    }
}

#[test]
fn joining_optimized_runs_equals_optimizing_all() {
    let length = 2;
    let parts_count = 2;
    let unopt = sample_plots(length * parts_count);
    let parts: Vec<Vec<u8>> = (0..parts_count)
        .map(|f| transpose_block(&unopt[f * length * 524288..(f + 1) * length * 524288], length, 16384))
        .collect();
    let mut joined = Vec::new();
    for step in 0..16384 * parts_count {
        let (file, at) = join_copy_source(length, parts_count, step);
        let at = at as usize;
        joined.extend_from_slice(&parts[file][at..at + length * 32]);
    }
    assert_eq!(joined, transpose_block(&unopt, length * parts_count, 16384));
}

#[test]
fn split_numbers() {
    assert_eq!(split_number(0, 0), 16384);
    assert_eq!(split_number(100, 100), 16384);
    // 10000 plots: 5242 MB, 2621 MB, then 1310 MB fits
    assert_eq!(split_number(0, 10000), 4096);
    assert_eq!(split_number(0, 2861), 16384);
    assert_eq!(split_number(0, 2862), 8192);
    assert_eq!(split_number(0, 46874999), 1);
    assert_eq!(split_number(0, 46875000), 0);
    assert_eq!(split_number(5, u32::MAX), 0);
}

#[test]
fn block_counts() {
    assert_eq!(block_count(16384), 1);
    assert_eq!(block_count(4096), 4);
    assert_eq!(block_count(1), 16384);
    assert_eq!(block_count(3), 5461);
}

#[test]
fn read_offsets() {
    assert_eq!(block_read_offset(0, 16384, 0), 0);
    assert_eq!(block_read_offset(2, 4096, 3), 3 * 524288 + 2 * 4096 * 32);
    assert_eq!(joined_read_offset(16384, 5), 16384 * 32 * 5);
    assert_eq!(join_copy_source(4, 3, 0), (0, 0));
    assert_eq!(join_copy_source(4, 3, 5), (2, 4 * 32));
    assert_eq!(join_copy_source(4, 3, 6), (0, 2 * 4 * 32));
    assert_eq!(sha_scoop_offset(4, 0, 0), 0);
    assert_eq!(sha_scoop_offset(4, 3, 1023), (3 * 1024 + 1023) * 32);
}

#[test]
fn output_sizes() {
    assert_eq!(estimate_output_size(10, 20), 10 * 524288);
    assert_eq!(estimate_output_size(7, 7), 0);
    assert_eq!(estimate_output_size(0, u32::MAX), u32::MAX as u64 * 524288);
}

#[test]
fn stage_actions() {
    assert_eq!(stage_action(None, 100), StageAction::Create);
    assert_eq!(stage_action(Some(100), 100), StageAction::Keep);
    assert_eq!(stage_action(Some(99), 100), StageAction::Replace);
    assert_eq!(stage_action(Some(0), 0), StageAction::Keep);
}

#[test]
fn plotting_plans() {
    assert_eq!(plan_plotting(true, None, Some(3), 10), PlotPlan::Done);
    assert_eq!(
        plan_plotting(false, None, None, 10),
        PlotPlan::Run { generate: StageAction::Create, convert: StageAction::Create, remove_unoptimized: true }
    );
    assert_eq!(
        plan_plotting(false, Some(10), Some(10), 10),
        PlotPlan::Run { generate: StageAction::Keep, convert: StageAction::Keep, remove_unoptimized: false }
    );
    assert_eq!(
        plan_plotting(false, Some(9), Some(3), 10),
        PlotPlan::Run { generate: StageAction::Replace, convert: StageAction::Replace, remove_unoptimized: true }
    );
}
