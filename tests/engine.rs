use ulp_merge::chunker::{seal_chunk, ChunkBuilder};
use ulp_merge::lines::read_next_line;
use ulp_merge::merger::{plan_round, MergeError, MergeGroup, MergeStep, MultiwayMerge, MAX_OPEN_MERGE_FILES};

fn lines_of(text: &[u8]) -> Vec<Vec<u8>> {
    let mut pos = 0;
    let mut out = Vec::new();
    while let Some(line) = read_next_line(text, &mut pos) {
        out.push(line);
    }
    out
}

fn render(run: &[Vec<u8>]) -> Vec<u8> {
    let mut out = Vec::new();
    for line in run {
        out.extend_from_slice(line);
        out.push(b'\n');
    }
    out
}

fn build(text: &[u8], chunk_lines: usize) -> Vec<Vec<Vec<u8>>> {
    let mut builder = ChunkBuilder::new(chunk_lines);
    let mut runs = Vec::new();
    for line in lines_of(text) {
        if let Some(run) = builder.push_line(line) {
            runs.push(run);
        }
    }
    if let Some(run) = builder.finish() {
        runs.push(run);
    }
    runs
}

/// Drives a merge over in-memory runs, as the program does over run files.
fn merge_all(runs: &[Vec<Vec<u8>>]) -> Vec<u8> {
    let mut cursors = vec![0usize; runs.len()];
    let mut merge = MultiwayMerge::new(runs.len());
    let mut out = Vec::new();
    loop {
        match merge.step() {
            MergeStep::Awaiting(s) => {
                let line = runs[s].get(cursors[s]).cloned();
                cursors[s] += 1;
                merge.offer(s, line).unwrap();
            }
            MergeStep::Write(line, _) => {
                out.extend_from_slice(&line);
                out.push(b'\n');
            }
            MergeStep::Suppress(_) => {}
            MergeStep::Finished => break,
        }
    }
    out
}

/// Merges in rounds of at most `MAX_OPEN_MERGE_FILES` runs, as the program does.
fn merge_in_rounds(mut runs: Vec<Vec<Vec<u8>>>) -> (Vec<u8>, usize) {
    let mut rounds = 0;
    while runs.len() > MAX_OPEN_MERGE_FILES {
        let plan = plan_round(runs.len());
        let mut next = Vec::new();
        for g in &plan {
            if g.end - g.start == 1 {
                next.push(runs[g.start].clone());
            } else {
                next.push(lines_of(&merge_all(&runs[g.start..g.end])));
            }
        }
        runs = next;
        rounds += 1;
    }
    (merge_all(&runs), rounds)
}

fn pipeline(files: &[&[u8]], chunk_lines: usize) -> Vec<u8> {
    let mut builder = ChunkBuilder::new(chunk_lines);
    let mut runs = Vec::new();
    for file in files {
        for line in lines_of(file) {
            if let Some(run) = builder.push_line(line) {
                runs.push(run);
            }
        }
    }
    if let Some(run) = builder.finish() {
        runs.push(run);
    }
    merge_in_rounds(runs).0
}

#[test]
fn splits_chunks_and_deduplicates_lines() {
    let chunks = build(b"c\nb\na\na\n", 2);
    assert_eq!(chunks.len(), 2);

    let mut contents: Vec<String> = chunks
        .iter()
        .map(|run| String::from_utf8(render(run)).unwrap())
        .collect();
    contents.sort();
    assert_eq!(contents[0], "a\n");
    assert_eq!(contents[1], "b\nc\n");
}

#[test]
fn chunk_boundary_example_merges_to_three_lines() {
    let runs = build(b"c\nb\na\na\n", 2);
    assert_eq!(runs, vec![vec![b"b".to_vec(), b"c".to_vec()], vec![b"a".to_vec()]]);
    assert_eq!(merge_all(&runs), b"a\nb\nc\n".to_vec());
}

#[test]
fn merges_and_deduplicates_all_chunks() {
    let tmp1 = lines_of(b"a\nc\n");
    let tmp2 = lines_of(b"b\nc\n");
    let result = merge_all(&[tmp1, tmp2]);
    assert_eq!(String::from_utf8(result).unwrap(), "a\nb\nc\n");
}

#[test]
fn zero_runs_give_an_empty_output() {
    let mut merge = MultiwayMerge::new(0);
    assert!(matches!(merge.step(), MergeStep::Finished));
    assert!(merge_all(&[]).is_empty());
    assert!(build(b"", 3).is_empty());
}

#[test]
fn merge_asks_for_sources_in_order_then_takes_the_least() {
    let mut merge = MultiwayMerge::new(2);
    assert!(matches!(merge.step(), MergeStep::Awaiting(0)));
    merge.offer(0, Some(b"b".to_vec())).unwrap();
    assert!(matches!(merge.step(), MergeStep::Awaiting(1)));
    merge.offer(1, Some(b"a".to_vec())).unwrap();
    match merge.step() {
        MergeStep::Write(line, source) => {
            assert_eq!(line, b"a".to_vec());
            assert_eq!(source, 1);
        }
        _ => panic!("expected a write"),
    }
    assert!(matches!(merge.step(), MergeStep::Awaiting(1)));
    merge.offer(1, Some(b"b".to_vec())).unwrap();
    // Equal lines: the lower source index goes first.
    assert!(matches!(merge.step(), MergeStep::Write(_, 0)));
    merge.offer(0, None).unwrap();
    assert!(matches!(merge.step(), MergeStep::Suppress(1)));
    merge.offer(1, None).unwrap();
    assert!(matches!(merge.step(), MergeStep::Finished));
}

#[test]
fn merge_refuses_bad_offers() {
    let mut merge = MultiwayMerge::new(1);
    assert_eq!(merge.offer(1, None), Err(MergeError::UnknownSource));
    merge.offer(0, Some(b"m".to_vec())).unwrap();
    assert_eq!(merge.offer(0, None), Err(MergeError::NotAwaiting));
    assert!(matches!(merge.step(), MergeStep::Write(_, 0)));
    assert_eq!(merge.offer(0, Some(b"a".to_vec())), Err(MergeError::OutOfOrder));
    merge.offer(0, Some(b"m".to_vec())).unwrap();
    assert!(matches!(merge.step(), MergeStep::Suppress(0)));
}

#[test]
fn seal_sorts_by_unsigned_bytes_and_dedups() {
    let run = seal_chunk(vec![
        vec![0xff],
        b"ab".to_vec(),
        b"a".to_vec(),
        Vec::new(),
        b"ab".to_vec(),
        vec![0x01],
    ]);
    assert_eq!(
        run,
        vec![Vec::new(), vec![0x01], b"a".to_vec(), b"ab".to_vec(), vec![0xff]]
    );
}

#[test]
fn chunk_bound_zero_counts_as_one() {
    let runs = build(b"b\na\n", 0);
    assert_eq!(runs, vec![vec![b"b".to_vec()], vec![b"a".to_vec()]]);
}

#[test]
fn run_count_depends_only_on_volume() {
    assert_eq!(build(b"1\n2\n3\n4\n5\n6\n7\n", 3).len(), 3);
    assert_eq!(build(b"1\n2\n3\n4\n5\n6\n", 3).len(), 2);
}

#[test]
fn output_holds_each_distinct_line_once_ascending() {
    let out = pipeline(&[b"b\r\na\nb\n", b"c\na", b"\n\na\n"], 2);
    assert_eq!(out, b"\na\nb\nc\n".to_vec());
}

#[test]
fn merging_the_output_again_is_identical() {
    let out = pipeline(&[b"z\ny\nz\r\nx", b"y\n"], 2);
    assert_eq!(out, b"x\ny\nz\n".to_vec());
    let again = pipeline(&[&out], 2);
    assert_eq!(again, out);
}

#[test]
fn input_order_does_not_change_the_output() {
    let a: &[u8] = b"q\nm\nq\n";
    let b: &[u8] = b"a\nz\n";
    let c: &[u8] = b"m\n\r\n";
    let first = pipeline(&[a, b, c], 2);
    assert_eq!(first, pipeline(&[c, a, b], 2));
    assert_eq!(first, pipeline(&[b, c, a], 5));
}

#[test]
fn plan_round_groups_runs_by_the_fan_in_bound() {
    let plan = plan_round(130);
    assert_eq!(
        plan,
        vec![
            MergeGroup { start: 0, end: 64 },
            MergeGroup { start: 64, end: 128 },
            MergeGroup { start: 128, end: 130 },
        ]
    );
    let plan = plan_round(129);
    assert_eq!(plan.last(), Some(&MergeGroup { start: 128, end: 129 }));
    assert_eq!(plan_round(64), vec![MergeGroup { start: 0, end: 64 }]);
    assert!(plan_round(0).is_empty());
}

#[test]
fn multi_round_merge_equals_single_round() {
    let mut runs = Vec::new();
    for i in 0..200u32 {
        let a = format!("{:05}", (i * 37) % 150).into_bytes();
        let b = format!("{:05}", (i * 11) % 90).into_bytes();
        runs.push(seal_chunk(vec![a, b]));
    }
    let (multi, rounds) = merge_in_rounds(runs.clone());
    assert!(rounds >= 1);
    let single = merge_all(&runs);
    assert_eq!(multi, single);
    let lines = lines_of(&multi);
    assert!(lines.windows(2).all(|w| w[0] < w[1]));
}
