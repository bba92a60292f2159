//! Line framing: bytes to lines, with `\n` and `\r\n` terminators removed.

use vstd::prelude::*;

verus! {

pub const LF: u8 = 10;

pub const CR: u8 = 13;

/// A line with its terminator removed: a final `\n`, together with a `\r`
/// just before it, or else a lone final `\r`.
pub open spec fn trim_break(l: Seq<u8>) -> Seq<u8> {
    if l.len() > 0 && l.last() == LF {
        let m = l.drop_last();
        if m.len() > 0 && m.last() == CR {
            m.drop_last()
        } else {
            m
        }
    } else if l.len() > 0 && l.last() == CR {
        l.drop_last()
    } else {
        l
    }
}

/// Length of the first block of `b`: its bytes up to and including the first
/// `\n`, or all of them when there is none.
pub open spec fn block_len(b: Seq<u8>) -> nat
    decreases b.len(),
{
    if b.len() == 0 {
        0
    } else if b[0] == LF {
        1
    } else {
        1 + block_len(b.drop_first())
    }
}

/// The lines of a byte stream: each block with its terminator removed. An
/// unterminated last fragment is a line too; an empty stream has none.
pub open spec fn frame(b: Seq<u8>) -> Seq<Seq<u8>>
    decreases b.len(),
{
    if b.len() == 0 {
        Seq::empty()
    } else {
        let n = block_len(b);
        if 0 < n <= b.len() {
            seq![trim_break(b.subrange(0, n as int))] + frame(b.subrange(n as int, b.len() as int))
        } else {
            Seq::empty()
        }
    }
}

/// The bytes of a file that holds `lines`, each followed by one `\n`.
pub open spec fn render(lines: Seq<Seq<u8>>) -> Seq<u8>
    decreases lines.len(),
{
    if lines.len() == 0 {
        Seq::empty()
    } else {
        lines[0].push(LF) + render(lines.drop_first())
    }
}

pub proof fn lemma_block_len_bounds(b: Seq<u8>)
    ensures
        block_len(b) <= b.len(),
        b.len() > 0 ==> block_len(b) > 0,
        forall|i: int| 0 <= i < block_len(b) - 1 ==> b[i] != LF,
        block_len(b) > 0 && block_len(b) < b.len() ==> b[block_len(b) - 1] == LF,
        block_len(b) > 0 && block_len(b) == b.len() ==> (b.last() == LF || forall|i: int| 0 <= i < b.len() ==> b[i] != LF),
    decreases b.len(),
{
    if b.len() > 0 && b[0] != LF {
        lemma_block_len_bounds(b.drop_first());
        assert forall|i: int| 0 <= i < block_len(b) - 1 implies b[i] != LF by {
            if i > 0 {
                assert(b[i] == b.drop_first()[i - 1]);
            }
        }
        if block_len(b) == b.len() && b.last() != LF {
            assert forall|i: int| 0 <= i < b.len() implies b[i] != LF by {
                if i > 0 {
                    assert(b[i] == b.drop_first()[i - 1]);
                }
            }
        }
    }
}

/// Removes the terminator of a line read up to `\n` (or to the end of the
/// stream), as `trim_break` describes.
pub fn trim_line_break(line: &mut Vec<u8>)
    ensures
        final(line)@ == trim_break(old(line)@),
{
    let n = line.len();
    if n > 0 && line[n - 1] == LF {
        line.pop();
        let m = line.len();
        if m > 0 && line[m - 1] == CR {
            line.pop();
        }
    } else if n > 0 && line[n - 1] == CR {
        line.pop();
    }
}

/// The next line of `buf` from position `*pos`, which then moves past the
/// line's terminator; `None` once `*pos` has reached the end.
pub fn read_next_line(buf: &[u8], pos: &mut usize) -> (r: Option<Vec<u8>>)
    requires
        *old(pos) <= buf@.len(),
    ensures
        ({
            let rest = buf@.subrange(*old(pos) as int, buf@.len() as int);
            &&& *old(pos) == buf@.len() ==> r is None && *final(pos) == *old(pos)
            &&& *old(pos) < buf@.len() ==> (r matches Some(l) && l@ == trim_break(
                rest.subrange(0, block_len(rest) as int),
            ) && *final(pos) == *old(pos) + block_len(rest))
        }),
        *final(pos) <= buf@.len(),
{
    let start = *pos;
    if start >= buf.len() {
        return None;
    }
    let ghost rest = buf@.subrange(start as int, buf@.len() as int);
    proof {
        lemma_block_len_bounds(rest);
    }
    let mut line: Vec<u8> = Vec::new();
    let mut i = start;
    let mut done = false;
    while i < buf.len() && !done
        invariant
            start <= i <= buf@.len(),
            rest == buf@.subrange(start as int, buf@.len() as int),
            line@ == buf@.subrange(start as int, i as int),
            done ==> i - start == block_len(rest),
            !done ==> i - start <= block_len(rest),
            !done ==> forall|k: int| start <= k < i ==> buf@[k] != LF,
        decreases buf.len() - i + (if done { 0int } else { 1int }),
    {
        let b = buf[i];
        line.push(b);
        proof {
            assert(rest[i - start] == b);
            assert(line@ =~= buf@.subrange(start as int, i + 1));
            if b == LF {
                lemma_block_len_prefix(rest, (i - start) as int);
            } else {
                lemma_block_len_prefix(rest, (i - start) + 1);
            }
        }
        i = i + 1;
        if b == LF {
            done = true;
        }
    }
    proof {
        if !done {
            lemma_block_len_prefix(rest, (i - start) as int);
        }
        assert(rest.subrange(0, block_len(rest) as int) =~= line@);
    }
    *pos = i;
    trim_line_break(&mut line);
    Some(line)
}

/// Where a prefix of `b` holds no `\n`, the first block reaches past it.
proof fn lemma_block_len_prefix(b: Seq<u8>, k: int)
    requires
        0 <= k <= b.len(),
        forall|j: int| 0 <= j < k ==> b[j] != LF,
    ensures
        block_len(b) >= k,
        k < b.len() && b[k] == LF ==> block_len(b) == k + 1,
        k == b.len() ==> block_len(b) == k,
    decreases k,
{
    if k > 0 {
        assert forall|j: int| 0 <= j < k - 1 implies b.drop_first()[j] != LF by {
            assert(b.drop_first()[j] == b[j + 1]);
        }
        lemma_block_len_prefix(b.drop_first(), k - 1);
        if k < b.len() {
            assert(b.drop_first()[k - 1] == b[k]);
        }
    } else {
        if b.len() > 0 && b[0] == LF {
        }
    }
}

} // verus!
