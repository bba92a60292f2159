//! The chunk builder: bounded batches of lines, each sorted and freed of
//! duplicates into a run.

use vstd::prelude::*;
use crate::order::{compare_lines, lex_le, lex_lt, sorted, strictly_sorted, lemma_lex_transitive};

verus! {

broadcast use vstd::seq_lib::group_to_multiset_ensures;

/// The lines held by a vector, as byte sequences.
pub open spec fn views(v: Seq<Vec<u8>>) -> Seq<Seq<u8>> {
    v.map_values(|l: Vec<u8>| l@)
}

/// `run` is the run made of `lines`: their distinct values in strictly
/// ascending order.
pub open spec fn is_run_of(run: Seq<Seq<u8>>, lines: Seq<Seq<u8>>) -> bool {
    strictly_sorted(run) && run.to_set() == lines.to_set()
}

/// Relies on `slice::sort_unstable`: it reorders the lines into ascending
/// order (the lexicographic order of `Ord` on byte vectors), keeping each.
#[verifier::external_body]
fn sort_lines(v: &mut Vec<Vec<u8>>)
    ensures
        views(final(v)@).to_multiset() == views(old(v)@).to_multiset(),
        sorted(views(final(v)@)),
{
    v.sort_unstable();
}

/// Keeps the first of each group of equal neighbours of a sorted sequence.
fn dedup_sorted(v: Vec<Vec<u8>>) -> (r: Vec<Vec<u8>>)
    requires
        sorted(views(v@)),
    ensures
        is_run_of(views(r@), views(v@)),
{
    let ghost src = views(v@);
    let mut out: Vec<Vec<u8>> = Vec::new();
    let n = v.len();
    let mut v = v;
    let mut i: usize = 0;
    while i < n
        invariant
            n == src.len(),
            v@.len() == n,
            forall|k: int| i <= k < n ==> #[trigger] v@[k]@ == src[k],
            0 <= i <= n,
            sorted(src),
            strictly_sorted(views(out@)),
            views(out@).to_set() == src.subrange(0, i as int).to_set(),
            i > 0 ==> out@.len() > 0 && views(out@).last() == src[i - 1],
            i == 0 ==> out@.len() == 0,
        decreases n - i,
    {
        let mut line: Vec<u8> = Vec::new();
        std::mem::swap(&mut line, &mut v[i]);
        let ghost cur = src[i as int];
        assert(line@ == cur);
        let ghost before = views(out@);
        let keep = if out.len() == 0 {
            true
        } else {
            let last = out.len() - 1;
            match compare_lines(out[last].as_slice(), line.as_slice()) {
                core::cmp::Ordering::Equal => false,
                _ => true,
            }
        };
        if keep {
            out.push(line);
            proof {
                assert(views(out@) =~= before.push(cur));
                if i > 0 {
                    assert(lex_le(src[i - 1], cur));
                    assert(lex_lt(before.last(), cur));
                    assert forall|a: int, b: int| 0 <= a < b < views(out@).len() implies #[trigger] lex_lt(
                        views(out@)[a],
                        views(out@)[b],
                    ) by {
                        if b == before.len() && a < before.len() - 1 {
                            lemma_lex_transitive(before[a], before.last(), cur);
                        }
                    }
                }
            }
        }
        proof {
            assert(src.subrange(0, i + 1) =~= src.subrange(0, i as int).push(cur));
            src.subrange(0, i as int).lemma_push_to_set_commute(cur);
            if keep {
                before.lemma_push_to_set_commute(cur);
            } else {
                assert(before.to_set().contains(cur)) by {
                    assert(before[before.len() - 1] == cur);
                }
                assert(before.to_set().insert(cur) =~= before.to_set());
            }
        }
        i = i + 1;
    }
    proof {
        assert(src.subrange(0, n as int) =~= src);
    }
    out
}

/// Every line that some run of `runs` holds.
pub open spec fn run_lines(runs: Seq<Seq<Seq<u8>>>) -> Set<Seq<u8>> {
    Set::new(|l: Seq<u8>| exists|r: int| 0 <= r < runs.len() && #[trigger] runs[r].contains(l))
}

pub proof fn lemma_run_lines_push(runs: Seq<Seq<Seq<u8>>>, run: Seq<Seq<u8>>)
    ensures
        run_lines(runs.push(run)) == run_lines(runs) + run.to_set(),
{
    let p = runs.push(run);
    assert forall|l: Seq<u8>| run_lines(p).contains(l) <==> (run_lines(runs) + run.to_set()).contains(l) by {
        if run_lines(p).contains(l) {
            let r = choose|r: int| 0 <= r < p.len() && #[trigger] p[r].contains(l);
            if r < runs.len() {
                assert(runs[r].contains(l));
            }
        }
        if run_lines(runs).contains(l) {
            let r = choose|r: int| 0 <= r < runs.len() && #[trigger] runs[r].contains(l);
            assert(p[r].contains(l));
        }
        if run.to_set().contains(l) {
            assert(p[runs.len() as int].contains(l));
        }
    }
    assert(run_lines(p) =~= run_lines(runs) + run.to_set());
}

/// Sorts a chunk and removes its duplicates: the run it becomes.
pub fn seal_chunk(chunk: Vec<Vec<u8>>) -> (run: Vec<Vec<u8>>)
    ensures
        is_run_of(views(run@), views(chunk@)),
{
    let ghost orig = views(chunk@);
    let mut chunk = chunk;
    sort_lines(&mut chunk);
    let ghost sorted_view = views(chunk@);
    let run = dedup_sorted(chunk);
    proof {
        assert forall|l: Seq<u8>| sorted_view.contains(l) <==> orig.contains(l) by {
            assert(sorted_view.contains(l) <==> sorted_view.to_multiset().count(l) > 0);
            assert(orig.contains(l) <==> orig.to_multiset().count(l) > 0);
        }
        assert(sorted_view.to_set() =~= orig.to_set());
    }
    run
}

/// Buffers lines up to a bound and turns each full batch into a run.
pub struct ChunkBuilder {
    max_lines: usize,
    chunk: Vec<Vec<u8>>,
    lines: Ghost<Seq<Seq<u8>>>,
    runs: Ghost<Seq<Seq<Seq<u8>>>>,
}

impl ChunkBuilder {
    /// The most lines a chunk holds before it is sealed.
    pub closed spec fn bound(&self) -> nat {
        self.max_lines as nat
    }

    /// Every line taken so far, in order.
    pub closed spec fn lines(&self) -> Seq<Seq<u8>> {
        self.lines@
    }

    /// The runs handed out so far, in order.
    pub closed spec fn runs(&self) -> Seq<Seq<Seq<u8>>> {
        self.runs@
    }

    /// The lines buffered in the current chunk.
    pub closed spec fn pending(&self) -> Seq<Seq<u8>> {
        views(self.chunk@)
    }

    pub closed spec fn wf(&self) -> bool {
        &&& 0 < self.max_lines
        &&& self.chunk@.len() < self.max_lines
        &&& self.lines@.len() == self.runs@.len() * self.max_lines + self.chunk@.len()
        &&& run_lines(self.runs@) + views(self.chunk@).to_set() == self.lines@.to_set()
        &&& forall|r: int| 0 <= r < self.runs@.len() ==> #[trigger] strictly_sorted(self.runs@[r])
    }

    /// What a well-formed builder holds: every line taken is in a run or in
    /// the chunk, each run is strictly ascending, and the count of runs is
    /// fixed by the count of lines and the bound alone.
    pub proof fn lemma_wf(&self)
        requires
            self.wf(),
        ensures
            self.bound() > 0,
            self.pending().len() < self.bound(),
            self.lines().len() == self.runs().len() * self.bound() + self.pending().len(),
            self.runs().len() == self.lines().len() / self.bound(),
            run_lines(self.runs()) + self.pending().to_set() == self.lines().to_set(),
            forall|r: int| 0 <= r < self.runs().len() ==> #[trigger] strictly_sorted(self.runs()[r]),
    {
        let k = self.max_lines as int;
        let n = self.runs@.len() as int;
        let c = self.chunk@.len() as int;
        vstd::arithmetic::div_mod::lemma_fundamental_div_mod_converse(n * k + c, k, n, c);
    }

    /// A builder whose chunks hold `max_lines` lines; a bound of zero counts
    /// as one.
    pub fn new(max_lines: usize) -> (b: Self)
        ensures
            b.wf(),
            b.bound() == if max_lines == 0 { 1 } else { max_lines as nat },
            b.lines() == Seq::<Seq<u8>>::empty(),
            b.runs() == Seq::<Seq<Seq<u8>>>::empty(),
            b.pending() == Seq::<Seq<u8>>::empty(),
    {
        let b = ChunkBuilder {
            max_lines: if max_lines == 0 { 1 } else { max_lines },
            chunk: Vec::new(),
            lines: Ghost(Seq::empty()),
            runs: Ghost(Seq::empty()),
        };
        proof {
            assert(views(b.chunk@) =~= Seq::<Seq<u8>>::empty());
            assert(run_lines(b.runs@) =~= Set::<Seq<u8>>::empty());
            assert(b.lines@.to_set() =~= Set::<Seq<u8>>::empty());
            assert(views(b.chunk@).to_set() =~= Set::<Seq<u8>>::empty());
            assert(run_lines(b.runs@) + views(b.chunk@).to_set() =~= b.lines@.to_set());
            assert(b.runs@.len() * b.max_lines == 0);
        }
        b
    }

    /// Takes one line. When the chunk reaches the bound it is sealed and the
    /// run returned, and a new chunk begins.
    pub fn push_line(&mut self, line: Vec<u8>) -> (r: Option<Vec<Vec<u8>>>)
        requires
            old(self).wf(),
        ensures
            final(self).wf(),
            final(self).bound() == old(self).bound(),
            final(self).lines() == old(self).lines().push(line@),
            old(self).pending().len() + 1 == old(self).bound() ==> (r matches Some(run) && is_run_of(
                views(run@),
                old(self).pending().push(line@),
            ) && final(self).pending() == Seq::<Seq<u8>>::empty() && final(self).runs()
                == old(self).runs().push(views(run@))),
            old(self).pending().len() + 1 < old(self).bound() ==> (r is None && final(self).pending()
                == old(self).pending().push(line@) && final(self).runs() == old(self).runs()),
    {
        let ghost l = line@;
        let ghost old_chunk = views(self.chunk@);
        let ghost old_lines = self.lines@;
        self.chunk.push(line);
        proof {
            assert(views(self.chunk@) =~= old_chunk.push(l));
            old_chunk.lemma_push_to_set_commute(l);
            old_lines.lemma_push_to_set_commute(l);
            self.lines = Ghost(old_lines.push(l));
            assert(run_lines(self.runs@) + views(self.chunk@).to_set() =~= self.lines@.to_set());
        }
        if self.chunk.len() >= self.max_lines {
            let mut full: Vec<Vec<u8>> = Vec::new();
            std::mem::swap(&mut full, &mut self.chunk);
            let run = seal_chunk(full);
            proof {
                let k = self.max_lines as int;
                let n = self.runs@.len() as int;
                assert((n + 1) * k == n * k + k) by (nonlinear_arith);
                lemma_run_lines_push(self.runs@, views(run@));
                self.runs = Ghost(self.runs@.push(views(run@)));
                assert(views(self.chunk@) =~= Seq::<Seq<u8>>::empty());
                assert(views(self.chunk@).to_set() =~= Set::<Seq<u8>>::empty());
                assert(run_lines(self.runs@) + views(self.chunk@).to_set() =~= self.lines@.to_set());
            }
            Some(run)
        } else {
            None
        }
    }

    /// Ends the input: seals what the chunk holds, if anything. With it, the
    /// runs hold every line taken, each run strictly ascending.
    pub fn finish(self) -> (r: Option<Vec<Vec<u8>>>)
        requires
            self.wf(),
        ensures
            self.pending().len() == 0 ==> r is None && run_lines(self.runs()) == self.lines().to_set(),
            self.pending().len() > 0 ==> (r matches Some(run) && is_run_of(views(run@), self.pending())
                && run_lines(self.runs().push(views(run@))) == self.lines().to_set()),
    {
        if self.chunk.len() == 0 {
            proof {
                assert(views(self.chunk@).to_set() =~= Set::<Seq<u8>>::empty());
                assert(run_lines(self.runs@) + Set::<Seq<u8>>::empty() =~= run_lines(self.runs@));
            }
            None
        } else {
            let run = seal_chunk(self.chunk);
            proof {
                lemma_run_lines_push(self.runs@, views(run@));
            }
            Some(run)
        }
    }
}

} // verus!
