//! Instruction sequences paired with their jump tables, and the
//! stack-discipline scan that defines how a jump table is built.

use vstd::prelude::*;
use crate::ops::Eff;

verus! {

/// An executable program: an ordered instruction sequence and a same-length
/// jump table. For a loop start at index `i` matched with a loop end at
/// index `j`, the table holds `j + 1` at `i` (where to resume when the loop
/// is skipped) and `i + 1` at `j` (where to resume when the loop repeats);
/// every other entry is 0 and never read.
#[derive(Debug)]
pub struct Code<T> {
    /// The instructions, in program order.
    pub ops: Vec<T>,
    /// The jump table, one entry per instruction.
    pub jump_table: Vec<usize>,
}

/// A sequence of machine words as mathematical integers.
pub open spec fn usizes(s: Seq<usize>) -> Seq<int> {
    s.map_values(|x: usize| x as int)
}

/// The single-pass stack scan over the first `k` effects of `p`: yields the
/// jump table of that prefix (one entry per instruction) and the stack of
/// still-open loop starts. A loop end that finds the stack empty leaves the
/// table untouched; the parser and the compressor report it instead.
pub open spec fn scan(p: Seq<Eff>, k: nat) -> (Seq<int>, Seq<int>)
    decreases k,
{
    if k == 0 {
        (Seq::<int>::empty(), Seq::<int>::empty())
    } else {
        let prev = scan(p, (k - 1) as nat);
        let jt = prev.0.push(0);
        let st = prev.1;
        match p[k - 1] {
            Eff::Start => (jt, st.push(k - 1)),
            Eff::End => if st.len() > 0 {
                let b = st.last();
                (jt.update(b, k as int).update(k - 1, b + 1), st.drop_last())
            } else {
                (jt, st)
            },
            _ => (jt, st),
        }
    }
}

/// No loop end within the first `k` effects of `p` found the stack empty:
/// the prefix has no unmatched closer.
pub open spec fn scan_ok(p: Seq<Eff>, k: nat) -> bool
    decreases k,
{
    if k == 0 {
        true
    } else {
        scan_ok(p, (k - 1) as nat) && (p[k - 1] is End ==> scan(p, (k - 1) as nat).1.len() > 0)
    }
}

/// Every loop end has an open loop start, and no loop start is left open:
/// the program is well formed.
pub open spec fn balanced(p: Seq<Eff>) -> bool {
    scan_ok(p, p.len()) && scan(p, p.len()).1.len() == 0
}

/// The jump table of the whole program.
pub open spec fn jump_table_of(p: Seq<Eff>) -> Seq<int> {
    scan(p, p.len()).0
}

/// Loop nesting depth in front of position `k`: loop starts minus loop ends
/// among the first `k` effects.
pub open spec fn depth(p: Seq<Eff>, k: int) -> int
    decreases k,
{
    if k <= 0 {
        0
    } else {
        depth(p, k - 1) + (match p[k - 1] {
            Eff::Start => 1int,
            Eff::End => -1int,
            _ => 0int,
        })
    }
}

/// The loop start at `i` and the loop end at `j` belong together: the
/// nesting depth returns to its value in front of `i` right after `j`, and
/// stays above it strictly in between.
pub open spec fn matched_pair(p: Seq<Eff>, i: int, j: int) -> bool {
    &&& 0 <= i < j < p.len()
    &&& p[i] is Start
    &&& p[j] is End
    &&& depth(p, j + 1) == depth(p, i)
    &&& forall|k: int| i < k <= j ==> depth(p, k) > depth(p, i)
}

/// The scan of a prefix depends only on that prefix.
pub proof fn lemma_scan_prefix(p: Seq<Eff>, q: Seq<Eff>, k: nat)
    requires
        k <= p.len(),
        k <= q.len(),
        p.take(k as int) == q.take(k as int),
    ensures
        scan(p, k) == scan(q, k),
        scan_ok(p, k) == scan_ok(q, k),
    decreases k,
{
    if k > 0 {
        assert(p.take(k as int)[k - 1] == p[k - 1]);
        assert(q.take(k as int)[k - 1] == q[k - 1]);
        assert(p.take((k - 1) as int) =~= q.take((k - 1) as int)) by {
            assert(forall|i: int|
                0 <= i < k - 1 ==> p.take((k - 1) as int)[i] == p.take(k as int)[i]
                    && q.take((k - 1) as int)[i] == q.take(k as int)[i]);
        }
        lemma_scan_prefix(p, q, (k - 1) as nat);
    }
}

/// Bounds delivered by the scan: the prefix jump table has one entry per
/// instruction, every entry lies in `[0, k]`, and the stack holds strictly
/// increasing instruction indices below `k`.
pub proof fn lemma_scan_bounds(p: Seq<Eff>, k: nat)
    requires
        k <= p.len(),
    ensures
        scan(p, k).0.len() == k,
        forall|i: int| 0 <= i < k ==> 0 <= #[trigger] scan(p, k).0[i] <= k,
        forall|t: int| 0 <= t < scan(p, k).1.len() ==> 0 <= #[trigger] scan(p, k).1[t] < k,
        forall|t1: int, t2: int|
            0 <= t1 < t2 < scan(p, k).1.len()
                ==> #[trigger] scan(p, k).1[t1] < #[trigger] scan(p, k).1[t2],
    decreases k,
{
    if k > 0 {
        lemma_scan_bounds(p, (k - 1) as nat);
    }
}

/// Pushing a machine word commutes with reading a word sequence as
/// integers.
pub proof fn lemma_usizes_push(s: Seq<usize>, x: usize)
    ensures
        usizes(s.push(x)) == usizes(s).push(x as int),
{
    assert(usizes(s.push(x)) =~= usizes(s).push(x as int));
}

/// Updating a machine word commutes with reading a word sequence as
/// integers.
pub proof fn lemma_usizes_update(s: Seq<usize>, i: int, x: usize)
    requires
        0 <= i < s.len(),
    ensures
        usizes(s.update(i, x)) == usizes(s).update(i, x as int),
{
    assert(usizes(s.update(i, x)) =~= usizes(s).update(i, x as int));
}

/// Dropping the last machine word commutes with reading a word sequence as
/// integers.
pub proof fn lemma_usizes_drop_last(s: Seq<usize>)
    requires
        s.len() > 0,
    ensures
        usizes(s.subrange(0, s.len() - 1)) == usizes(s).drop_last(),
{
    assert(usizes(s.subrange(0, s.len() - 1)) =~= usizes(s).drop_last());
}

/// Once a prefix has an unmatched closer, every longer prefix has one.
pub proof fn lemma_scan_ok_monotone(p: Seq<Eff>, k1: nat, k2: nat)
    requires
        k1 <= k2,
        scan_ok(p, k2),
    ensures
        scan_ok(p, k1),
    decreases k2,
{
    if k1 < k2 {
        lemma_scan_ok_monotone(p, k1, (k2 - 1) as nat);
    }
}

} // verus!
