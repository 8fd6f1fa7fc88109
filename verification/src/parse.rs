//! The parser: one linear pass over the source that keeps the recognized
//! tokens, builds the instruction sequence, and matches loop delimiters
//! with a stack to fill the jump table.

use vstd::prelude::*;
use vstd::pervasive::VecAdditionalExecFns;
use crate::code::{balanced, jump_table_of, scan, scan_ok, usizes, Code};
use crate::code::{lemma_scan_bounds, lemma_usizes_drop_last, lemma_usizes_push, lemma_usizes_update};
use crate::exec::{effs, lemma_effs_extend, lemma_scan_ok_extends, Runnable};
use crate::language::Language;
use crate::ops::{Error, Op};

verus! {

/// The operation a recognized character stands for. When two roles share a
/// character the first role in this fixed order wins: increment, decrement,
/// pointer-forward, pointer-backward, write-byte, read-byte, loop-start,
/// loop-end.
pub open spec fn op_of(lang: Language, ch: char) -> Op {
    if ch == lang.inc {
        Op::Inc
    } else if ch == lang.dec {
        Op::Dec
    } else if ch == lang.inc_ptr {
        Op::IncPtr
    } else if ch == lang.dec_ptr {
        Op::DecPtr
    } else if ch == lang.put_char {
        Op::PutChar
    } else if ch == lang.get_char {
        Op::GetChar
    } else if ch == lang.loop_start {
        Op::LoopStart
    } else {
        Op::LoopEnd
    }
}

/// Membership in the language's token set, as a predicate on characters.
pub open spec fn is_token_pred(lang: Language) -> spec_fn(char) -> bool {
    |c: char| lang.spec_is_token(c)
}

/// The instruction sequence of a source text: every character the language
/// does not recognize is discarded, every recognized one becomes its
/// operation, in source order.
pub open spec fn tokens(lang: Language, s: Seq<char>) -> Seq<Op>
    decreases s.len(),
{
    if s.len() == 0 {
        Seq::<Op>::empty()
    } else {
        tokens(lang, s.drop_last()) + (if lang.spec_is_token(s.last()) {
            seq![op_of(lang, s.last())]
        } else {
            Seq::<Op>::empty()
        })
    }
}

/// Tokenizing a concatenation tokenizes the parts in place.
pub proof fn lemma_tokens_concat(lang: Language, a: Seq<char>, b: Seq<char>)
    ensures
        tokens(lang, a + b) == tokens(lang, a) + tokens(lang, b),
    decreases b.len(),
{
    if b.len() == 0 {
        assert(a + b =~= a);
        assert(tokens(lang, a) + tokens(lang, b) =~= tokens(lang, a));
    } else {
        assert((a + b).drop_last() =~= a + b.drop_last());
        assert((a + b).last() == b.last());
        lemma_tokens_concat(lang, a, b.drop_last());
        assert(tokens(lang, a) + tokens(lang, b.drop_last()) + (if lang.spec_is_token(b.last()) {
            seq![op_of(lang, b.last())]
        } else {
            Seq::<Op>::empty()
        }) =~= tokens(lang, a) + tokens(lang, b));
    }
}

/// Append one instruction, give it a zero jump-table entry, and match loop
/// delimiters: a loop start is pushed on the stack of open loops; a loop
/// end pops its partner and the two entries are filled in; a loop end with
/// no open loop start is reported and nothing changes.
fn push_tok(ops: &mut Vec<Op>, jump_table: &mut Vec<usize>, stack: &mut Vec<usize>, op: Op) -> (r:
    Result<(), Error>)
    requires
        old(jump_table)@.len() == old(ops)@.len(),
        usizes(old(jump_table)@) == scan(effs(old(ops)@), old(ops)@.len()).0,
        usizes(old(stack)@) == scan(effs(old(ops)@), old(ops)@.len()).1,
        scan_ok(effs(old(ops)@), old(ops)@.len()),
    ensures
        match r {
            Ok(()) => {
                &&& final(ops)@ == old(ops)@.push(op)
                &&& final(jump_table)@.len() == final(ops)@.len()
                &&& usizes(final(jump_table)@) == scan(effs(final(ops)@), final(ops)@.len()).0
                &&& usizes(final(stack)@) == scan(effs(final(ops)@), final(ops)@.len()).1
                &&& scan_ok(effs(final(ops)@), final(ops)@.len())
            },
            Err(e) => {
                &&& e == Error::UnmatchedLoopEnd
                &&& !scan_ok(effs(old(ops)@.push(op)), (old(ops)@.len() + 1) as nat)
                &&& final(ops)@ == old(ops)@
                &&& final(jump_table)@ == old(jump_table)@
                &&& final(stack)@ == old(stack)@
            },
        },
{
    let ghost ops0 = old(ops)@;
    let ghost p0 = effs(ops0);
    let ghost k0 = ops0.len();
    let ghost p1 = effs(ops0.push(op));
    proof {
        lemma_effs_extend(ops0, op);
        lemma_scan_bounds(p0, k0);
    }
    let idx = ops.len();
    if op == Op::LoopEnd && stack.len() == 0 {
        return Err(Error::UnmatchedLoopEnd);
    }
    ops.push(op);
    jump_table.push(0);
    let new_len = jump_table.len();
    proof {
        lemma_usizes_push(old(jump_table)@, 0);
    }
    if op == Op::LoopStart {
        stack.push(idx);
        proof {
            lemma_usizes_push(old(stack)@, idx);
        }
    } else if op == Op::LoopEnd {
        let begin = match stack.pop() {
            Some(b) => b,
            None => {
                proof {
                    assert(false);
                }
                return Err(Error::UnmatchedLoopEnd);
            },
        };
        proof {
            assert(begin as int == scan(p0, k0).1.last());
            assert(begin < idx);
            lemma_usizes_drop_last(old(stack)@);
        }
        jump_table.set(begin, new_len);
        jump_table.set(idx, begin + 1);
        proof {
            lemma_usizes_update(old(jump_table)@.push(0), begin as int, new_len);
            lemma_usizes_update(old(jump_table)@.push(0).update(begin as int, new_len), idx as int, (begin + 1) as usize);
        }
    }
    Ok(())
}

/// Parse a source text against a language: scan left to right, discard
/// unrecognized characters, and build the instruction sequence with its
/// jump table. A loop end with no open loop start, and a loop start still
/// open at the end of the scan, are each reported as a malformed program;
/// the latter check is deliberate, so that no zeroed jump-table entry can
/// misdirect a run.
pub fn parse(source: &String, language: &Language) -> (r: Result<Code<Op>, Error>)
    ensures
        ({
            let toks = tokens(*language, source@);
            let p = effs(toks);
            match r {
                Ok(code) => {
                    &&& balanced(p)
                    &&& code.ops@ == toks
                    &&& code.jump_table@.len() == toks.len()
                    &&& usizes(code.jump_table@) == jump_table_of(p)
                },
                Err(Error::UnmatchedLoopEnd) => !scan_ok(p, p.len()),
                Err(Error::UnmatchedLoopStart) => scan_ok(p, p.len()) && scan(
                    p,
                    p.len(),
                ).1.len() != 0,
                Err(_) => false,
            }
        }),
{
    let ghost lang = *language;
    let ghost toks = tokens(lang, source@);
    let st = source.as_str();
    let n = st.unicode_len();
    let mut ops: Vec<Op> = Vec::new();
    let mut jump_table: Vec<usize> = Vec::new();
    let mut stack: Vec<usize> = Vec::new();
    let mut i: usize = 0;
    while i < n
        invariant
            i <= n,
            n == source@.len(),
            st@ == source@,
            lang == *language,
            toks == tokens(lang, source@),
            ops@ == tokens(lang, source@.take(i as int)),
            jump_table@.len() == ops@.len(),
            usizes(jump_table@) == scan(effs(ops@), ops@.len()).0,
            usizes(stack@) == scan(effs(ops@), ops@.len()).1,
            scan_ok(effs(ops@), ops@.len()),
        decreases n - i,
    {
        let ch = st.get_char(i);
        proof {
            assert(source@.take(i + 1).drop_last() =~= source@.take(i as int));
            assert(source@.take(i + 1).last() == source@[i as int]);
        }
        if language.is_token(ch) {
            let op: Op = if language.inc == ch {
                Op::Inc
            } else if language.dec == ch {
                Op::Dec
            } else if language.inc_ptr == ch {
                Op::IncPtr
            } else if language.dec_ptr == ch {
                Op::DecPtr
            } else if language.put_char == ch {
                Op::PutChar
            } else if language.get_char == ch {
                Op::GetChar
            } else if language.loop_start == ch {
                Op::LoopStart
            } else {
                Op::LoopEnd
            };
            proof {
                assert(op == op_of(lang, ch));
                assert(tokens(lang, source@.take(i + 1)) =~= ops@.push(op));
            }
            let ghost pre = ops@.push(op);
            match push_tok(&mut ops, &mut jump_table, &mut stack, op) {
                Ok(()) => {},
                Err(e) => {
                    proof {
                        lemma_tokens_concat(lang, source@.take(i + 1), source@.skip(i + 1));
                        assert(source@.take(i + 1) + source@.skip(i + 1) =~= source@);
                        assert(toks.take(pre.len() as int) =~= pre);
                        lemma_scan_ok_extends(pre, toks);
                    }
                    return Err(e);
                },
            }
        } else {
            proof {
                assert(tokens(lang, source@.take(i + 1)) =~= ops@);
            }
        }
        i = i + 1;
    }
    proof {
        assert(source@.take(n as int) =~= source@);
    }
    if stack.len() > 0 {
        return Err(Error::UnmatchedLoopStart);
    }
    Ok(Code { ops, jump_table })
}

} // verus!
