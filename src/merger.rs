//! The merge engine: a bounded multiway merge of sorted runs that writes
//! each distinct line once, and the rounds that keep its fan-in bounded.

use vstd::prelude::*;
use crate::order::{compare_lines, lex_le, lex_lt, strictly_sorted, lemma_lex_transitive, lemma_lex_asymmetric, lemma_lex_total, lemma_lex_irreflexive};

verus! {

/// The most runs merged together in one pass.
pub const MAX_OPEN_MERGE_FILES: usize = 64;

/// What the merge knows of one source.
pub enum Head {
    /// The source's next line has not been offered yet.
    Awaiting,
    /// The source's current line, not yet consumed.
    Ready(Vec<u8>),
    /// The source has no more lines.
    Exhausted,
}

/// What the merge asks of its driver next.
pub enum MergeStep {
    /// Read the next line of this source and offer it.
    Awaiting(usize),
    /// Write this line, then a `\n`; it was taken from the given source.
    Write(Vec<u8>, usize),
    /// The line taken from the given source equals the last one written:
    /// nothing is written.
    Suppress(usize),
    /// Every source is exhausted: the output is complete.
    Finished,
}

/// Why a line offered to the merge was refused.
#[derive(Debug, PartialEq, Eq, Structural)]
pub enum MergeError {
    /// No source has that index.
    UnknownSource,
    /// That source already has a line, or has ended.
    NotAwaiting,
    /// The line sorts before one already written: its run is not sorted.
    OutOfOrder,
}

/// `(a, i)` comes before `(b, j)`: by line, then by source index.
pub open spec fn key_lt(a: Seq<u8>, i: int, b: Seq<u8>, j: int) -> bool {
    lex_lt(a, b) || (a == b && i < j)
}

pub open spec fn is_ready(h: Head) -> bool {
    h is Ready
}

/// The line of a ready head.
pub open spec fn head_line(h: Head) -> Seq<u8> {
    match h {
        Head::Ready(l) => l@,
        _ => Seq::empty(),
    }
}

/// The lines currently held by the ready heads.
pub open spec fn ready_lines(heads: Seq<Head>) -> Set<Seq<u8>> {
    Set::new(|l: Seq<u8>| exists|s: int| 0 <= s < heads.len() && #[trigger] is_ready(heads[s]) && head_line(heads[s]) == l)
}

/// Merges sorted sources into one strictly ascending stream, dropping lines
/// equal to the one last written.
pub struct MultiwayMerge {
    heads: Vec<Head>,
    last_written: Option<Vec<u8>>,
    fed: Ghost<Set<Seq<u8>>>,
    written: Ghost<Seq<Seq<u8>>>,
}

impl MultiwayMerge {
    /// The number of sources.
    pub closed spec fn sources(&self) -> nat {
        self.heads@.len()
    }

    /// The state of source `s`.
    pub closed spec fn head(&self, s: int) -> Head {
        self.heads@[s]
    }

    /// Every line offered so far.
    pub closed spec fn fed(&self) -> Set<Seq<u8>> {
        self.fed@
    }

    /// Every line written so far, in order.
    pub closed spec fn written(&self) -> Seq<Seq<u8>> {
        self.written@
    }

    /// The lines held by ready sources, not yet consumed.
    pub closed spec fn pending(&self) -> Set<Seq<u8>> {
        ready_lines(self.heads@)
    }

    pub closed spec fn wf(&self) -> bool {
        &&& strictly_sorted(self.written@)
        &&& (self.last_written matches Some(l) ==> self.written@.len() > 0 && l@ == self.written@.last())
        &&& (self.last_written is None ==> self.written@.len() == 0)
        &&& forall|s: int| 0 <= s < self.heads@.len() && #[trigger] is_ready(self.heads@[s]) ==> {
            &&& self.fed@.contains(head_line(self.heads@[s]))
            &&& self.written@.len() > 0 ==> lex_le(self.written@.last(), head_line(self.heads@[s]))
        }
        &&& self.written@.to_set().subset_of(self.fed@)
        &&& self.fed@.subset_of(self.written@.to_set() + ready_lines(self.heads@))
    }

    /// What a well-formed merge holds: the output so far is strictly
    /// ascending, and every line offered is written or still ahead.
    pub proof fn lemma_wf(&self)
        requires
            self.wf(),
        ensures
            strictly_sorted(self.written()),
            self.written().to_set().subset_of(self.fed()),
            self.fed().subset_of(self.written().to_set() + self.pending()),
    {
    }

    /// A merge of `n` sources, each awaiting its first line.
    pub fn new(n: usize) -> (m: Self)
        ensures
            m.wf(),
            m.sources() == n,
            forall|s: int| 0 <= s < n ==> #[trigger] m.head(s) is Awaiting,
            m.fed() == Set::<Seq<u8>>::empty(),
            m.written() == Seq::<Seq<u8>>::empty(),
    {
        let mut heads: Vec<Head> = Vec::new();
        let mut i: usize = 0;
        while i < n
            invariant
                i <= n,
                heads@.len() == i,
                forall|s: int| 0 <= s < i ==> #[trigger] heads@[s] is Awaiting,
            decreases n - i,
        {
            heads.push(Head::Awaiting);
            i = i + 1;
        }
        let m = MultiwayMerge {
            heads,
            last_written: None,
            fed: Ghost(Set::empty()),
            written: Ghost(Seq::empty()),
        };
        proof {
            assert(m.written@.to_set() =~= Set::<Seq<u8>>::empty());
        }
        m
    }

    /// Offers the next line of source `s`, or `None` when it has ended.
    pub fn offer(&mut self, s: usize, line: Option<Vec<u8>>) -> (r: Result<(), MergeError>)
        requires
            old(self).wf(),
        ensures
            final(self).wf(),
            final(self).sources() == old(self).sources(),
            final(self).written() == old(self).written(),
            s >= old(self).sources() ==> r == Err::<(), MergeError>(MergeError::UnknownSource),
            s < old(self).sources() && !(old(self).head(s as int) is Awaiting) ==> r == Err::<(), MergeError>(MergeError::NotAwaiting),
            s < old(self).sources() && old(self).head(s as int) is Awaiting ==> {
                match line {
                    Some(l) => if old(self).written().len() > 0 && lex_lt(l@, old(self).written().last()) {
                        r == Err::<(), MergeError>(MergeError::OutOfOrder)
                    } else {
                        &&& r is Ok
                        &&& final(self).head(s as int) matches Head::Ready(h) && h@ == l@
                        &&& final(self).fed() == old(self).fed().insert(l@)
                    },
                    None => {
                        &&& r is Ok
                        &&& final(self).head(s as int) is Exhausted
                        &&& final(self).fed() == old(self).fed()
                    },
                }
            },
            r is Err ==> final(self).fed() == old(self).fed() && forall|j: int| 0 <= j < final(self).sources() ==> #[trigger] final(self).head(j) == old(self).head(j),
            r is Ok ==> forall|j: int| 0 <= j < final(self).sources() && j != s ==> #[trigger] final(self).head(j) == old(self).head(j),
    {
        if s >= self.heads.len() {
            return Err(MergeError::UnknownSource);
        }
        match &self.heads[s] {
            Head::Awaiting => {},
            _ => {
                return Err(MergeError::NotAwaiting);
            },
        }
        let ghost old_heads = self.heads@;
        let ghost old_fed = self.fed@;
        match line {
            Some(l) => {
                let in_order = match &self.last_written {
                    Some(last) => match compare_lines(l.as_slice(), last.as_slice()) {
                        core::cmp::Ordering::Less => false,
                        _ => true,
                    },
                    None => true,
                };
                if !in_order {
                    return Err(MergeError::OutOfOrder);
                }
                let ghost lv = l@;
                self.heads.set(s, Head::Ready(l));
                proof {
                    self.fed = Ghost(old_fed.insert(lv));
                    if self.written@.len() > 0 {
                        lemma_lex_total(lv, self.written@.last());
                    }
                    self.lemma_ready_lines_set(old_heads, s as int);
                }
            },
            None => {
                self.heads.set(s, Head::Exhausted);
                proof {
                    self.lemma_ready_lines_set(old_heads, s as int);
                }
            },
        }
        Ok(())
    }

    /// The next move of the merge. While a source awaits its line, the
    /// least such source is named. Otherwise the least `(line, source)`
    /// among the ready sources is taken, and that source awaits its next
    /// line: the line is written unless it equals the last line written.
    /// With every source exhausted the merge is finished, and then the
    /// output holds exactly the lines offered, each once, ascending.
    pub fn step(&mut self) -> (r: MergeStep)
        requires
            old(self).wf(),
        ensures
            final(self).wf(),
            final(self).sources() == old(self).sources(),
            final(self).fed() == old(self).fed(),
            (exists|j: int| 0 <= j < old(self).sources() && #[trigger] old(self).head(j) is Awaiting) <==> r is Awaiting,
            r matches MergeStep::Awaiting(s) ==> {
                &&& s < old(self).sources()
                &&& old(self).head(s as int) is Awaiting
                &&& forall|j: int| 0 <= j < s ==> !(#[trigger] old(self).head(j) is Awaiting)
                &&& final(self).written() == old(self).written()
                &&& forall|j: int| 0 <= j < old(self).sources() ==> #[trigger] final(self).head(j) == old(self).head(j)
            },
            r is Finished <==> forall|j: int| 0 <= j < old(self).sources() ==> #[trigger] old(self).head(j) is Exhausted,
            r is Finished ==> {
                &&& final(self).written() == old(self).written()
                &&& final(self).written().to_set() == final(self).fed()
                &&& strictly_sorted(final(self).written())
            },
            r matches MergeStep::Write(l, s) ==> {
                &&& old(self).takes(s as int)
                &&& head_line(old(self).head(s as int)) == l@
                &&& (old(self).written().len() == 0 || old(self).written().last() != l@)
                &&& final(self).written() == old(self).written().push(l@)
                &&& final(self).head(s as int) is Awaiting
                &&& forall|j: int| 0 <= j < old(self).sources() && j != s ==> #[trigger] final(self).head(j) == old(self).head(j)
            },
            r matches MergeStep::Suppress(s) ==> {
                &&& old(self).takes(s as int)
                &&& old(self).written().len() > 0
                &&& old(self).written().last() == head_line(old(self).head(s as int))
                &&& final(self).written() == old(self).written()
                &&& final(self).head(s as int) is Awaiting
                &&& forall|j: int| 0 <= j < old(self).sources() && j != s ==> #[trigger] final(self).head(j) == old(self).head(j)
            },
    {
        let n = self.heads.len();
        let mut j: usize = 0;
        while j < n
            invariant
                self.wf(),
                n == self.heads@.len(),
                j <= n,
                forall|k: int| 0 <= k < j ==> !(#[trigger] self.heads@[k] is Awaiting),
            decreases n - j,
        {
            if matches!(self.heads[j], Head::Awaiting) {
                return MergeStep::Awaiting(j);
            }
            j = j + 1;
        }
        let mut best: usize = n;
        let mut k: usize = 0;
        while k < n
            invariant
                self.wf(),
                n == self.heads@.len(),
                k <= n,
                best == n || (best < k && is_ready(self.heads@[best as int])),
                best == n ==> forall|i: int| 0 <= i < k ==> !(#[trigger] is_ready(self.heads@[i])),
                best < n ==> forall|i: int| 0 <= i < k && i != best && #[trigger] is_ready(self.heads@[i]) ==> key_lt(
                    head_line(self.heads@[best as int]),
                    best as int,
                    head_line(self.heads@[i]),
                    i,
                ),
            decreases n - k,
        {
            let better = match &self.heads[k] {
                Head::Ready(l) => {
                    if best == n {
                        true
                    } else {
                        match &self.heads[best] {
                            Head::Ready(lb) => match compare_lines(l.as_slice(), lb.as_slice()) {
                                core::cmp::Ordering::Less => true,
                                _ => false,
                            },
                            _ => false,
                        }
                    }
                },
                _ => false,
            };
            proof {
                let hk = self.heads@[k as int];
                if is_ready(hk) && best < n {
                    let lb = head_line(self.heads@[best as int]);
                    let lk = head_line(hk);
                    lemma_lex_total(lk, lb);
                    lemma_lex_asymmetric(lk, lb);
                    if better {
                        assert forall|i: int| 0 <= i < k + 1 && i != k && #[trigger] is_ready(self.heads@[i]) implies key_lt(
                            lk,
                            k as int,
                            head_line(self.heads@[i]),
                            i,
                        ) by {
                            let li = head_line(self.heads@[i]);
                            if i != best {
                                if lex_lt(lb, li) {
                                    lemma_lex_transitive(lk, lb, li);
                                }
                            }
                        }
                    }
                }
            }
            if better {
                best = k;
            }
            k = k + 1;
        }
        if best == n {
            proof {
                assert forall|i: int| 0 <= i < n implies #[trigger] self.heads@[i] is Exhausted by {
                    assert(!is_ready(self.heads@[i]));
                }
                assert(ready_lines(self.heads@) =~= Set::<Seq<u8>>::empty());
                assert(self.written@.to_set() =~= self.fed@);
            }
            return MergeStep::Finished;
        }
        proof {
            assert(!(self.heads@[best as int] is Exhausted));
        }
        let ghost old_heads = self.heads@;
        let ghost old_written = self.written@;
        let mut taken = Head::Awaiting;
        std::mem::swap(&mut taken, &mut self.heads[best]);
        let line = match taken {
            Head::Ready(l) => l,
            _ => {
                proof {
                    assert(false);
                }
                Vec::new()
            },
        };
        let ghost lv = line@;
        let dup = match &self.last_written {
            Some(last) => match compare_lines(last.as_slice(), line.as_slice()) {
                core::cmp::Ordering::Equal => true,
                _ => false,
            },
            None => false,
        };
        proof {
            self.lemma_take_keeps(old_heads, best as int);
        }
        if dup {
            MergeStep::Suppress(best)
        } else {
            let copy = line.clone();
            proof {
                assert(copy@ =~= line@);
            }
            self.last_written = Some(copy);
            proof {
                if old_written.len() > 0 {
                    lemma_lex_total(old_written.last(), lv);
                }
                self.written = Ghost(old_written.push(lv));
                assert forall|a: int, b: int| 0 <= a < b < self.written@.len() implies #[trigger] lex_lt(
                    self.written@[a],
                    self.written@[b],
                ) by {
                    if b == old_written.len() && a < old_written.len() - 1 {
                        lemma_lex_transitive(old_written[a], old_written.last(), lv);
                    }
                }
                old_written.lemma_push_to_set_commute(lv);
                assert forall|s: int| 0 <= s < self.heads@.len() && #[trigger] is_ready(self.heads@[s]) implies lex_le(
                    self.written@.last(),
                    head_line(self.heads@[s]),
                ) by {
                    assert(s != best);
                    assert(key_lt(lv, best as int, head_line(old_heads[s]), s));
                }
            }
            MergeStep::Write(line, best)
        }
    }

    /// Source `s` holds the least `(line, source)` among the ready sources,
    /// and no source awaits a line.
    pub open spec fn takes(&self, s: int) -> bool {
        &&& 0 <= s < self.sources()
        &&& is_ready(self.head(s))
        &&& forall|j: int| 0 <= j < self.sources() ==> !(#[trigger] self.head(j) is Awaiting)
        &&& forall|j: int| 0 <= j < self.sources() && j != s && #[trigger] is_ready(self.head(j)) ==> key_lt(
            head_line(self.head(s)),
            s,
            head_line(self.head(j)),
            j,
        )
    }

    /// Taking the line of source `s` leaves every other ready line in place.
    proof fn lemma_take_keeps(&self, old_heads: Seq<Head>, s: int)
        requires
            0 <= s < old_heads.len(),
            is_ready(old_heads[s]),
            self.heads@.len() == old_heads.len(),
            self.heads@[s] is Awaiting,
            forall|j: int| 0 <= j < old_heads.len() && j != s ==> self.heads@[j] == old_heads[j],
        ensures
            ready_lines(old_heads).subset_of(ready_lines(self.heads@).insert(head_line(old_heads[s]))),
            ready_lines(self.heads@).subset_of(ready_lines(old_heads)),
    {
        assert forall|l: Seq<u8>| ready_lines(old_heads).contains(l) implies ready_lines(self.heads@).insert(head_line(old_heads[s])).contains(l) by {
            let j = choose|j: int| 0 <= j < old_heads.len() && #[trigger] is_ready(old_heads[j]) && head_line(old_heads[j]) == l;
            if j != s {
                assert(is_ready(self.heads@[j]));
            }
        }
        assert forall|l: Seq<u8>| ready_lines(self.heads@).contains(l) implies ready_lines(old_heads).contains(l) by {
            let j = choose|j: int| 0 <= j < self.heads@.len() && #[trigger] is_ready(self.heads@[j]) && head_line(self.heads@[j]) == l;
            assert(is_ready(old_heads[j]));
        }
    }

    /// Replacing an awaiting head loses no ready line.
    proof fn lemma_ready_lines_set(&self, old_heads: Seq<Head>, s: int)
        requires
            0 <= s < old_heads.len(),
            old_heads[s] is Awaiting,
            self.heads@.len() == old_heads.len(),
            forall|j: int| 0 <= j < old_heads.len() && j != s ==> self.heads@[j] == old_heads[j],
        ensures
            ready_lines(old_heads).subset_of(ready_lines(self.heads@)),
            is_ready(self.heads@[s]) ==> ready_lines(self.heads@).contains(head_line(self.heads@[s])),
    {
        assert forall|l: Seq<u8>| ready_lines(old_heads).contains(l) implies ready_lines(self.heads@).contains(l) by {
            let j = choose|j: int| 0 <= j < old_heads.len() && #[trigger] is_ready(old_heads[j]) && head_line(old_heads[j]) == l;
            assert(is_ready(self.heads@[j]));
        }
        if is_ready(self.heads@[s]) {
            assert(is_ready(self.heads@[s]) && head_line(self.heads@[s]) == head_line(self.heads@[s]));
        }
    }
}

/// One group of a merge round: the runs at positions `start..end`.
#[derive(Debug, Clone, Copy, PartialEq, Eq, Structural)]
pub struct MergeGroup {
    pub start: usize,
    pub end: usize,
}

/// The end of group `i` of a round over `n` runs.
pub open spec fn group_end(i: int, n: int) -> int {
    if (i + 1) * MAX_OPEN_MERGE_FILES < n {
        (i + 1) * MAX_OPEN_MERGE_FILES
    } else {
        n
    }
}

/// The groups of one merge round over `n` runs: consecutive, each of at most
/// `MAX_OPEN_MERGE_FILES` runs, covering all of them in order. A group of one
/// run, which only the last can be, is passed on as it is.
pub fn plan_round(n: usize) -> (groups: Vec<MergeGroup>)
    ensures
        groups@.len() > 0 <==> n > 0,
        n > 0 ==> groups@.last().end == n,
        forall|i: int| 0 <= i < groups@.len() ==> {
            &&& #[trigger] groups@[i].start == i * MAX_OPEN_MERGE_FILES
            &&& groups@[i].end == group_end(i, n as int)
            &&& groups@[i].start < groups@[i].end
        },
        n > 0 ==> (groups@.len() - 1) * MAX_OPEN_MERGE_FILES < n <= groups@.len() * MAX_OPEN_MERGE_FILES,
{
    let mut groups: Vec<MergeGroup> = Vec::new();
    let mut start: usize = 0;
    while start < n
        invariant
            start <= n,
            start < n ==> start == groups@.len() * MAX_OPEN_MERGE_FILES,
            groups@.len() > 0 ==> groups@.last().end == start,
            groups@.len() == 0 ==> start == 0,
            groups@.len() > 0 ==> (groups@.len() - 1) * MAX_OPEN_MERGE_FILES < start <= groups@.len() * MAX_OPEN_MERGE_FILES,
            forall|i: int| 0 <= i < groups@.len() ==> {
                &&& #[trigger] groups@[i].start == i * MAX_OPEN_MERGE_FILES
                &&& groups@[i].end == group_end(i, n as int)
                &&& groups@[i].start < groups@[i].end
            },
        decreases n - start,
    {
        let end = if n - start > MAX_OPEN_MERGE_FILES {
            start + MAX_OPEN_MERGE_FILES
        } else {
            n
        };
        let ghost g = groups@.len() as int;
        proof {
            assert((g + 1) * MAX_OPEN_MERGE_FILES == g * MAX_OPEN_MERGE_FILES + MAX_OPEN_MERGE_FILES) by (nonlinear_arith);
        }
        groups.push(MergeGroup { start, end });
        start = end;
    }
    groups
}

} // verus!
