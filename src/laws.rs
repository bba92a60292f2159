//! What holds of the pipeline as a whole, proved from the contracts of the
//! chunk builder, the merge and the framer.

use vstd::prelude::*;
use crate::chunker::run_lines;
use crate::lines::{block_len, frame, render, trim_break, CR, LF};
use crate::merger::{group_end, MAX_OPEN_MERGE_FILES};
use crate::order::{strictly_sorted, lemma_strictly_sorted_unique, lemma_lex_irreflexive};

verus! {

broadcast use vstd::seq_lib::group_to_multiset_ensures;

/// The lines of the input files, file after file.
pub open spec fn input_lines(files: Seq<Seq<u8>>) -> Seq<Seq<u8>>
    decreases files.len(),
{
    if files.len() == 0 {
        Seq::empty()
    } else {
        input_lines(files.drop_last()) + frame(files.last())
    }
}

/// `out` is what merging `runs` yields: strictly ascending, holding every
/// line of every run. The merge reaches this when it is finished after
/// being offered the lines of `runs`.
pub open spec fn is_merge_of(out: Seq<Seq<u8>>, runs: Seq<Seq<Seq<u8>>>) -> bool {
    strictly_sorted(out) && out.to_set() == run_lines(runs)
}

/// `out` is the output of the pipeline on `files`: strictly ascending and
/// holding exactly the lines of the files.
pub open spec fn is_output_of(out: Seq<Seq<u8>>, files: Seq<Seq<u8>>) -> bool {
    strictly_sorted(out) && out.to_set() == input_lines(files).to_set()
}

/// A line is among the input lines when some file holds it.
pub proof fn lemma_input_lines_contains(files: Seq<Seq<u8>>, l: Seq<u8>)
    ensures
        input_lines(files).contains(l) <==> exists|i: int| 0 <= i < files.len() && #[trigger] frame(files[i]).contains(l),
    decreases files.len(),
{
    if files.len() > 0 {
        let init = files.drop_last();
        lemma_input_lines_contains(init, l);
        let a = input_lines(init);
        let b = frame(files.last());
        if (a + b).contains(l) {
            let k = choose|k: int| 0 <= k < (a + b).len() && (a + b)[k] == l;
            if k < a.len() {
                assert(a[k] == l);
                let i = choose|i: int| 0 <= i < init.len() && #[trigger] frame(init[i]).contains(l);
                assert(files[i] == init[i]);
            } else {
                assert(b[k - a.len()] == l);
                assert(frame(files[files.len() - 1]).contains(l));
            }
        }
        if exists|i: int| 0 <= i < files.len() && #[trigger] frame(files[i]).contains(l) {
            let i = choose|i: int| 0 <= i < files.len() && #[trigger] frame(files[i]).contains(l);
            if i < files.len() - 1 {
                assert(init[i] == files[i]);
                assert(a.contains(l));
                let k = choose|k: int| 0 <= k < a.len() && a[k] == l;
                assert((a + b)[k] == l);
            } else {
                let k = choose|k: int| 0 <= k < b.len() && b[k] == l;
                assert((a + b)[a.len() + k] == l);
            }
        }
    }
}

/// The output holds exactly the distinct lines present across all input
/// files, each once, in strictly ascending byte order. Its premises are
/// what `ChunkBuilder::finish` states of the runs made from the input lines
/// and what a finished `MultiwayMerge` states after taking those runs.
pub proof fn lemma_output_exact(files: Seq<Seq<u8>>, runs: Seq<Seq<Seq<u8>>>, out: Seq<Seq<u8>>)
    requires
        run_lines(runs) == input_lines(files).to_set(),
        is_merge_of(out, runs),
    ensures
        is_output_of(out, files),
        strictly_sorted(out),
        out.no_duplicates(),
        forall|l: Seq<u8>| out.contains(l) <==> exists|i: int| 0 <= i < files.len() && #[trigger] frame(files[i]).contains(l),
{
    assert forall|l: Seq<u8>| out.contains(l) <==> exists|i: int| 0 <= i < files.len() && #[trigger] frame(files[i]).contains(l) by {
        lemma_input_lines_contains(files, l);
        assert(out.contains(l) <==> out.to_set().contains(l));
    }
    assert forall|a: int, b: int| 0 <= a < out.len() && 0 <= b < out.len() && a != b implies out[a] != out[b] by {
        if a < b {
            assert(crate::order::lex_lt(out[a], out[b]));
            lemma_lex_irreflexive(out[a]);
        } else {
            assert(crate::order::lex_lt(out[b], out[a]));
            lemma_lex_irreflexive(out[b]);
        }
    }
}

/// Reordering the input files does not change the output.
pub proof fn lemma_permutation_invariant(files1: Seq<Seq<u8>>, files2: Seq<Seq<u8>>, out1: Seq<Seq<u8>>, out2: Seq<Seq<u8>>)
    requires
        files1.to_multiset() == files2.to_multiset(),
        is_output_of(out1, files1),
        is_output_of(out2, files2),
    ensures
        out1 == out2,
{
    assert forall|l: Seq<u8>| input_lines(files1).to_set().contains(l) <==> input_lines(files2).to_set().contains(l) by {
        lemma_input_lines_contains(files1, l);
        lemma_input_lines_contains(files2, l);
        if exists|i: int| 0 <= i < files1.len() && #[trigger] frame(files1[i]).contains(l) {
            let i = choose|i: int| 0 <= i < files1.len() && #[trigger] frame(files1[i]).contains(l);
            assert(files1.contains(files1[i]));
            assert(files2.to_multiset().count(files1[i]) > 0);
            let j = choose|j: int| 0 <= j < files2.len() && files2[j] == files1[i];
            assert(frame(files2[j]).contains(l));
        }
        if exists|i: int| 0 <= i < files2.len() && #[trigger] frame(files2[i]).contains(l) {
            let i = choose|i: int| 0 <= i < files2.len() && #[trigger] frame(files2[i]).contains(l);
            assert(files2.contains(files2[i]));
            assert(files1.to_multiset().count(files2[i]) > 0);
            let j = choose|j: int| 0 <= j < files1.len() && files1[j] == files2[i];
            assert(frame(files1[j]).contains(l));
        }
    }
    assert(out1.to_set() =~= out2.to_set());
    lemma_strictly_sorted_unique(out1, out2);
}

/// One merge round agrees with merging everything at once: merging the
/// results of merging each group of a round, with groups as `plan_round`
/// lays them out, gives what a single merge of all the runs gives. Applied
/// round after round, any number of rounds gives the single-merge result.
pub proof fn lemma_fan_in_agrees(runs: Seq<Seq<Seq<u8>>>, round: Seq<Seq<Seq<u8>>>, multi: Seq<Seq<u8>>, single: Seq<Seq<u8>>)
    requires
        runs.len() > 0,
        (round.len() - 1) * MAX_OPEN_MERGE_FILES < runs.len() <= round.len() * MAX_OPEN_MERGE_FILES,
        forall|i: int| 0 <= i < round.len() ==> #[trigger] is_merge_of(
            round[i],
            runs.subrange(i * MAX_OPEN_MERGE_FILES, group_end(i, runs.len() as int)),
        ),
        is_merge_of(multi, round),
        is_merge_of(single, runs),
    ensures
        multi == single,
{
    let n = runs.len() as int;
    let k = MAX_OPEN_MERGE_FILES as int;
    assert forall|l: Seq<u8>| run_lines(round).contains(l) <==> run_lines(runs).contains(l) by {
        if run_lines(round).contains(l) {
            let i = choose|i: int| 0 <= i < round.len() && #[trigger] round[i].contains(l);
            let g = runs.subrange(i * k, group_end(i, n));
            assert(is_merge_of(round[i], g));
            assert(round[i].to_set().contains(l));
            assert(run_lines(g).contains(l));
            let r = choose|r: int| 0 <= r < g.len() && #[trigger] g[r].contains(l);
            assert(runs[i * k + r].contains(l));
        }
        if run_lines(runs).contains(l) {
            let r = choose|r: int| 0 <= r < runs.len() && #[trigger] runs[r].contains(l);
            let i = r / k;
            assert(i * k <= r < i * k + k);
            assert(0 <= i < round.len());
            let g = runs.subrange(i * k, group_end(i, n));
            assert(g[r - i * k] == runs[r]);
            assert(run_lines(g).contains(l));
            assert(is_merge_of(round[i], g));
            assert(round[i].to_set().contains(l));
            assert(round[i].contains(l));
        }
    }
    assert(multi.to_set() =~= single.to_set());
    lemma_strictly_sorted_unique(multi, single);
}

/// No line of a framed stream holds a `\n`.
pub proof fn lemma_frame_no_lf(b: Seq<u8>)
    ensures
        forall|i: int, j: int| 0 <= i < frame(b).len() && 0 <= j < frame(b)[i].len() ==> #[trigger] frame(b)[i][j] != LF,
    decreases b.len(),
{
    if b.len() > 0 {
        let n = block_len(b);
        crate::lines::lemma_block_len_bounds(b);
        let rest = b.subrange(n as int, b.len() as int);
        lemma_frame_no_lf(rest);
        let first = trim_break(b.subrange(0, n as int));
        assert forall|j: int| 0 <= j < first.len() implies first[j] != LF by {
            assert(first[j] == b[j]);
            if j == n - 1 {
                assert(b[j] != LF || b.subrange(0, n as int).last() == LF);
            }
        }
        assert forall|i: int, j: int| 0 <= i < frame(b).len() && 0 <= j < frame(b)[i].len() implies #[trigger] frame(b)[i][j] != LF by {
            if i > 0 {
                assert(frame(b)[i] == frame(rest)[i - 1]);
            }
        }
    }
}

/// The first block of a line followed by `\n` and more bytes is that line
/// and its `\n`.
proof fn lemma_block_of_line(x: Seq<u8>, y: Seq<u8>)
    requires
        forall|j: int| 0 <= j < x.len() ==> x[j] != LF,
    ensures
        block_len(x.push(LF) + y) == x.len() + 1,
    decreases x.len(),
{
    if x.len() > 0 {
        let t = x.drop_first();
        lemma_block_of_line(t, y);
        assert((x.push(LF) + y).drop_first() =~= t.push(LF) + y);
    }
}

/// Framing the bytes of a file written from `lines` gives `lines` back,
/// when no line holds a `\n` or ends with a `\r`.
pub proof fn lemma_frame_render(lines: Seq<Seq<u8>>)
    requires
        forall|i: int, j: int| 0 <= i < lines.len() && 0 <= j < lines[i].len() ==> #[trigger] lines[i][j] != LF,
        forall|i: int| 0 <= i < lines.len() && #[trigger] lines[i].len() > 0 ==> lines[i].last() != CR,
    ensures
        frame(render(lines)) == lines,
    decreases lines.len(),
{
    if lines.len() > 0 {
        let x = lines[0];
        let rest = lines.drop_first();
        let y = render(rest);
        assert forall|j: int| 0 <= j < x.len() implies x[j] != LF by {
            assert(lines[0][j] != LF);
        }
        lemma_block_of_line(x, y);
        let b = render(lines);
        assert(b == x.push(LF) + y);
        assert(b.subrange(0, x.len() as int + 1) =~= x.push(LF));
        assert(b.subrange(x.len() as int + 1, b.len() as int) =~= y);
        assert(x.push(LF).drop_last() =~= x);
        assert(trim_break(x.push(LF)) == x) by {
            if x.len() > 0 {
                assert(lines[0].len() > 0);
            }
        }
        assert forall|i: int, j: int| 0 <= i < rest.len() && 0 <= j < rest[i].len() implies #[trigger] rest[i][j] != LF by {
            assert(rest[i] == lines[i + 1]);
        }
        assert forall|i: int| 0 <= i < rest.len() && #[trigger] rest[i].len() > 0 implies rest[i].last() != CR by {
            assert(rest[i] == lines[i + 1]);
        }
        lemma_frame_render(rest);
        assert(frame(b) =~= seq![x] + rest);
        assert(lines =~= seq![x] + rest);
    }
}

/// Feeding the output back in as the sole input gives a byte-identical
/// output, provided no input line ends with a `\r` (which writing with a
/// `\n` and reading again would strip).
pub proof fn lemma_idempotent(files: Seq<Seq<u8>>, out: Seq<Seq<u8>>, again: Seq<Seq<u8>>)
    requires
        forall|i: int| 0 <= i < input_lines(files).len() && #[trigger] input_lines(files)[i].len() > 0 ==> input_lines(files)[i].last() != CR,
        is_output_of(out, files),
        is_output_of(again, seq![render(out)]),
    ensures
        render(again) == render(out),
        again == out,
{
    assert forall|i: int, j: int| 0 <= i < out.len() && 0 <= j < out[i].len() implies #[trigger] out[i][j] != LF by {
        assert(out.to_set().contains(out[i]));
        assert(input_lines(files).contains(out[i]));
        lemma_input_lines_contains(files, out[i]);
        let f = choose|f: int| 0 <= f < files.len() && #[trigger] frame(files[f]).contains(out[i]);
        let p = choose|p: int| 0 <= p < frame(files[f]).len() && frame(files[f])[p] == out[i];
        lemma_frame_no_lf(files[f]);
        assert(frame(files[f])[p][j] != LF);
    }
    assert forall|i: int| 0 <= i < out.len() && #[trigger] out[i].len() > 0 implies out[i].last() != CR by {
        assert(out.to_set().contains(out[i]));
        let p = choose|p: int| 0 <= p < input_lines(files).len() && input_lines(files)[p] == out[i];
    }
    lemma_frame_render(out);
    let single = seq![render(out)];
    assert(single.drop_last() =~= Seq::<Seq<u8>>::empty());
    assert(single.last() == render(out));
    assert(input_lines(single.drop_last()) =~= Seq::<Seq<u8>>::empty());
    assert(input_lines(single) =~= input_lines(single.drop_last()) + frame(single.last()));
    assert(input_lines(single) =~= frame(render(out)));
    lemma_strictly_sorted_unique(again, out);
}

} // verus!
