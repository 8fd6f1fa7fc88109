//! The peephole compressor: maximal runs of identical accumulating
//! instructions become one counted instruction; every other instruction is
//! kept as a singleton, and the jump table is rebuilt from scratch against
//! the new, shorter index space.

use vstd::prelude::*;
use vstd::pervasive::VecAdditionalExecFns;
use crate::code::{scan, scan_ok, jump_table_of, usizes, Code};
use crate::code::{lemma_scan_bounds, lemma_usizes_drop_last, lemma_usizes_push, lemma_usizes_update};
use crate::exec::{effs, lemma_effs_extend, lemma_scan_ok_extends, Runnable};
use crate::ops::{CompressedOp, Error, Op};

verus! {

/// The four instruction kinds whose runs are merged. Write, read, and the
/// loop delimiters always stay singletons: only fixed-cost repeatable
/// mutations are counted, never repeatable output, input or control.
pub open spec fn accumulating(op: Op) -> bool {
    op == Op::Inc || op == Op::Dec || op == Op::IncPtr || op == Op::DecPtr
}

/// The compressed instruction a run of `count` copies of `op` becomes. The
/// cell counts live in eight bits, so a run length narrows modulo 256,
/// which is exactly what that many single steps of wraparound arithmetic
/// amount to; pointer counts are kept in full.
pub open spec fn merged(op: Op, count: nat) -> CompressedOp {
    match op {
        Op::Inc => CompressedOp::Add(((count % 256) as u8)),
        Op::Dec => CompressedOp::Sub(((count % 256) as u8)),
        Op::IncPtr => CompressedOp::Forward(count as usize),
        Op::DecPtr => CompressedOp::Back(count as usize),
        Op::PutChar => CompressedOp::PutChar,
        Op::GetChar => CompressedOp::GetChar,
        Op::LoopStart => CompressedOp::LoopStart,
        Op::LoopEnd => CompressedOp::LoopEnd,
    }
}

/// The compressed form of a pending run of `count` copies of `cur`
/// followed by `rest`: the run grows while `rest` keeps starting with the
/// same accumulating instruction, and is emitted where it ends.
pub open spec fn comp_rec(rest: Seq<Op>, cur: Op, count: nat) -> Seq<CompressedOp>
    decreases rest.len(),
{
    if rest.len() == 0 {
        seq![merged(cur, count)]
    } else if rest[0] == cur && accumulating(cur) {
        comp_rec(rest.drop_first(), cur, count + 1)
    } else {
        seq![merged(cur, count)] + comp_rec(rest.drop_first(), rest[0], 1)
    }
}

/// The compressed form of an instruction sequence.
pub open spec fn compress_spec(ops: Seq<Op>) -> Seq<CompressedOp> {
    if ops.len() == 0 {
        Seq::<CompressedOp>::empty()
    } else {
        comp_rec(ops.drop_first(), ops[0], 1)
    }
}

/// Append one compressed instruction, give it a zero jump-table entry, and
/// match loop delimiters with the stack of open loops, exactly as the
/// parser does over raw instructions.
fn push_cop(
    ops: &mut Vec<CompressedOp>,
    jump_table: &mut Vec<usize>,
    stack: &mut Vec<usize>,
    op: CompressedOp,
) -> (r: Result<(), Error>)
    requires
        old(jump_table)@.len() == old(ops)@.len(),
        usizes(old(jump_table)@) == scan(effs(old(ops)@), old(ops)@.len()).0,
        usizes(old(stack)@) == scan(effs(old(ops)@), old(ops)@.len()).1,
        scan_ok(effs(old(ops)@), old(ops)@.len()),
    ensures
        match r {
            Ok(()) => {
                &&& final(ops)@ == old(ops)@.push(op)
                &&& final(jump_table)@.len() == final(ops)@.len()
                &&& usizes(final(jump_table)@) == scan(effs(final(ops)@), final(ops)@.len()).0
                &&& usizes(final(stack)@) == scan(effs(final(ops)@), final(ops)@.len()).1
                &&& scan_ok(effs(final(ops)@), final(ops)@.len())
            },
            Err(e) => {
                &&& e == Error::UnmatchedLoopEnd
                &&& !scan_ok(effs(old(ops)@.push(op)), (old(ops)@.len() + 1) as nat)
                &&& final(ops)@ == old(ops)@
                &&& final(jump_table)@ == old(jump_table)@
                &&& final(stack)@ == old(stack)@
            },
        },
{
    let ghost ops0 = old(ops)@;
    let ghost p0 = effs(ops0);
    let ghost k0 = ops0.len();
    proof {
        lemma_effs_extend(ops0, op);
        lemma_scan_bounds(p0, k0);
    }
    let idx = ops.len();
    if op == CompressedOp::LoopEnd && stack.len() == 0 {
        return Err(Error::UnmatchedLoopEnd);
    }
    ops.push(op);
    jump_table.push(0);
    let new_len = jump_table.len();
    proof {
        lemma_usizes_push(old(jump_table)@, 0);
    }
    if op == CompressedOp::LoopStart {
        stack.push(idx);
        proof {
            lemma_usizes_push(old(stack)@, idx);
        }
    } else if op == CompressedOp::LoopEnd {
        let begin = match stack.pop() {
            Some(b) => b,
            None => {
                proof {
                    assert(false);
                }
                return Err(Error::UnmatchedLoopEnd);
            },
        };
        proof {
            assert(begin as int == scan(p0, k0).1.last());
            assert(begin < idx);
            lemma_usizes_drop_last(old(stack)@);
        }
        jump_table.set(begin, new_len);
        jump_table.set(idx, begin + 1);
        proof {
            lemma_usizes_update(old(jump_table)@.push(0), begin as int, new_len);
            lemma_usizes_update(
                old(jump_table)@.push(0).update(begin as int, new_len),
                idx as int,
                (begin + 1) as usize,
            );
        }
    }
    Ok(())
}

/// Compress an instruction sequence: group maximal runs of identical
/// accumulating instructions, emit one counted instruction per group and
/// every other instruction unchanged, and rebuild the jump table against
/// the new indices; the original table is discarded, never patched. A loop
/// end with no open loop start is reported; loop starts left open keep
/// their zeroed entries, as a parsed program can never carry any.
pub fn compress(code: &Code<Op>) -> (r: Result<Code<CompressedOp>, Error>)
    ensures
        ({
            let cs = compress_spec(code.ops@);
            let q = effs(cs);
            match r {
                Ok(out) => {
                    &&& out.ops@ == cs
                    &&& out.jump_table@.len() == cs.len()
                    &&& usizes(out.jump_table@) == jump_table_of(q)
                    &&& scan_ok(q, q.len())
                },
                Err(e) => e == Error::UnmatchedLoopEnd && !scan_ok(q, q.len()),
            }
        }),
{
    let ghost cs = compress_spec(code.ops@);
    let n = code.ops.len();
    let mut out: Vec<CompressedOp> = Vec::new();
    let mut jump_table: Vec<usize> = Vec::new();
    let mut stack: Vec<usize> = Vec::new();
    if n == 0 {
        proof {
            assert(usizes(jump_table@) =~= scan(effs(out@), 0).0);
            assert(usizes(stack@) =~= scan(effs(out@), 0).1);
        }
        return Ok(Code { ops: out, jump_table });
    }
    let mut cur: Op = code.ops[0];
    let mut count: usize = 1;
    let mut i: usize = 1;
    proof {
        assert(code.ops@.drop_first() =~= code.ops@.skip(1));
    }
    while i < n
        invariant
            1 <= i <= n,
            n == code.ops@.len(),
            1 <= count <= i,
            cs == compress_spec(code.ops@),
            cs == out@ + comp_rec(code.ops@.skip(i as int), cur, count as nat),
            jump_table@.len() == out@.len(),
            usizes(jump_table@) == scan(effs(out@), out@.len()).0,
            usizes(stack@) == scan(effs(out@), out@.len()).1,
            scan_ok(effs(out@), out@.len()),
        decreases n - i,
    {
        let op = code.ops[i];
        proof {
            assert(code.ops@.skip(i as int)[0] == code.ops@[i as int]);
            assert(code.ops@.skip(i as int).drop_first() =~= code.ops@.skip(i + 1));
        }
        if op == cur && (cur == Op::Inc || cur == Op::Dec || cur == Op::IncPtr
            || cur == Op::DecPtr) {
            count = count + 1;
        } else {
            let cop = merged_exec(cur, count);
            let ghost pre = out@.push(cop);
            match push_cop(&mut out, &mut jump_table, &mut stack, cop) {
                Ok(()) => {
                    proof {
                        assert(pre + comp_rec(code.ops@.skip(i + 1), op, 1) =~= out@.drop_last()
                            + (seq![cop] + comp_rec(code.ops@.skip(i + 1), op, 1)));
                        assert(cs == out@ + comp_rec(code.ops@.skip(i + 1), op, 1));
                    }
                },
                Err(e) => {
                    proof {
                        assert(cs.take(pre.len() as int) =~= pre);
                        lemma_scan_ok_extends(pre, cs);
                    }
                    return Err(e);
                },
            }
            cur = op;
            count = 1;
        }
        i = i + 1;
    }
    proof {
        assert(code.ops@.skip(n as int) =~= Seq::<Op>::empty());
    }
    let cop = merged_exec(cur, count);
    let ghost pre = out@.push(cop);
    match push_cop(&mut out, &mut jump_table, &mut stack, cop) {
        Ok(()) => {},
        Err(e) => {
            proof {
                assert(cs.take(pre.len() as int) =~= pre);
                lemma_scan_ok_extends(pre, cs);
            }
            return Err(e);
        },
    }
    proof {
        assert(out@ =~= cs);
    }
    Ok(Code { ops: out, jump_table })
}

/// The counted instruction a finished run becomes; cell counts narrow
/// modulo 256.
fn merged_exec(cur: Op, count: usize) -> (r: CompressedOp)
    ensures
        r == merged(cur, count as nat),
{
    match cur {
        Op::Inc => CompressedOp::Add((count % 256) as u8),
        Op::Dec => CompressedOp::Sub((count % 256) as u8),
        Op::IncPtr => CompressedOp::Forward(count),
        Op::DecPtr => CompressedOp::Back(count),
        Op::PutChar => CompressedOp::PutChar,
        Op::GetChar => CompressedOp::GetChar,
        Op::LoopStart => CompressedOp::LoopStart,
        Op::LoopEnd => CompressedOp::LoopEnd,
    }
}

} // verus!
