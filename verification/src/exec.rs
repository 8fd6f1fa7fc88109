//! The execution engine: one dispatch contract shared by the raw and the
//! compressed instruction sets, and the driver loop that walks a program to
//! completion within a step budget.

use vstd::prelude::*;
use crate::code::{scan, scan_ok, usizes, Code};
use crate::code::{lemma_scan_ok_monotone, lemma_scan_prefix};
use crate::ops::{cop_eff, op_eff, CompressedOp, Eff, Error, Op};
use crate::state::{iter_steps, reaches, step, Environment};

verus! {

/// The effects of an instruction sequence, in order.
pub open spec fn effs<O: Runnable>(ops: Seq<O>) -> Seq<Eff> {
    ops.map_values(|o: O| o.eff())
}

/// Appending one instruction leaves the scan of the untouched prefix, and
/// its freedom from unmatched closers, as they were.
pub proof fn lemma_effs_extend<O: Runnable>(ops: Seq<O>, op: O)
    ensures
        effs(ops.push(op)) == effs(ops).push(op.eff()),
        effs(ops.push(op))[ops.len() as int] == op.eff(),
        scan(effs(ops.push(op)), ops.len()) == scan(effs(ops), ops.len()),
        scan_ok(effs(ops.push(op)), ops.len()) == scan_ok(effs(ops), ops.len()),
    {
    let p = effs(ops);
    let p1 = effs(ops.push(op));
    assert(p1 =~= p.push(op.eff()));
    assert(p1.take(ops.len() as int) =~= p.take(ops.len() as int));
    lemma_scan_prefix(p1, p, ops.len());
}

/// A program whose prefix already holds an unmatched closer holds one too.
pub proof fn lemma_scan_ok_extends<O: Runnable>(pre: Seq<O>, full: Seq<O>)
    requires
        pre.len() <= full.len(),
        full.take(pre.len() as int) == pre,
        !scan_ok(effs(pre), pre.len()),
    ensures
        !scan_ok(effs(full), full.len()),
    {
    assert(effs(full).take(pre.len() as int) =~= effs(pre)) by {
        assert(forall|i: int|
            0 <= i < pre.len() ==> full.take(pre.len() as int)[i] == #[trigger] pre[i]);
    }
    assert(effs(pre).take(pre.len() as int) =~= effs(pre));
    lemma_scan_prefix(effs(full), effs(pre), pre.len());
    if scan_ok(effs(full), full.len()) {
        lemma_scan_ok_monotone(effs(full), pre.len(), full.len());
    }
}

/// An instruction set the engine can dispatch: each instruction names its
/// effect, and running it performs exactly one dispatch step of that effect.
pub trait Runnable: Sized + Copy {
    /// The effect of this instruction.
    spec fn eff(self) -> Eff;

    /// Run this instruction, which is the one the program counter points
    /// at, against the code and the environment: one dispatch step, or an
    /// error when the step would touch a cell outside the tape or move the
    /// pointer out of the address space (the state is then unchanged).
    fn run(&self, code: &Code<Self>, env: &mut Environment) -> (r: Result<(), Error>)
        requires
            code.jump_table@.len() == code.ops@.len(),
            old(env).pc < code.ops@.len(),
            code.ops@[old(env).pc as int] == *self,
        ensures
            match r {
                Ok(()) => step(code.ops@.map_values(|o: Self| o.eff()), usizes(code.jump_table@), old(env)@)
                    == Some(final(env)@),
                Err(e) => {
                    &&& e == Error::PointerOutOfBounds
                    &&& step(code.ops@.map_values(|o: Self| o.eff()), usizes(code.jump_table@), old(env)@) is None
                    &&& final(env)@ == old(env)@
                },
            },
    ;

    /// Shared dispatch for a loop start: when the cell under the pointer is
    /// zero, jump past the matching loop end; otherwise enter the loop.
    fn process_loop_start(code: &Code<Self>, env: &mut Environment) -> (r: Result<(), Error>)
        requires
            code.jump_table@.len() == code.ops@.len(),
            old(env).pc < code.ops@.len(),
            code.ops@.map_values(|o: Self| o.eff())[old(env).pc as int] is Start,
        ensures
            match r {
                Ok(()) => step(code.ops@.map_values(|o: Self| o.eff()), usizes(code.jump_table@), old(env)@)
                    == Some(final(env)@),
                Err(e) => {
                    &&& e == Error::PointerOutOfBounds
                    &&& step(code.ops@.map_values(|o: Self| o.eff()), usizes(code.jump_table@), old(env)@) is None
                    &&& final(env)@ == old(env)@
                },
            },
    {
        let _n = code.ops.len();
        if env.pointer < env.data.len() {
            if env.read_data() == 0 {
                let t = code.jump_table[env.pc];
                env.set_pc(t);
            } else {
                env.advance_pc();
            }
            Ok(())
        } else {
            Err(Error::PointerOutOfBounds)
        }
    }

    /// Shared dispatch for a loop end: when the cell under the pointer is
    /// nonzero, jump back to the instruction after the matching loop start;
    /// otherwise leave the loop.
    fn process_loop_end(code: &Code<Self>, env: &mut Environment) -> (r: Result<(), Error>)
        requires
            code.jump_table@.len() == code.ops@.len(),
            old(env).pc < code.ops@.len(),
            code.ops@.map_values(|o: Self| o.eff())[old(env).pc as int] is End,
        ensures
            match r {
                Ok(()) => step(code.ops@.map_values(|o: Self| o.eff()), usizes(code.jump_table@), old(env)@)
                    == Some(final(env)@),
                Err(e) => {
                    &&& e == Error::PointerOutOfBounds
                    &&& step(code.ops@.map_values(|o: Self| o.eff()), usizes(code.jump_table@), old(env)@) is None
                    &&& final(env)@ == old(env)@
                },
            },
    {
        let _n = code.ops.len();
        if env.pointer < env.data.len() {
            if env.read_data() != 0 {
                let t = code.jump_table[env.pc];
                env.set_pc(t);
            } else {
                env.advance_pc();
            }
            Ok(())
        } else {
            Err(Error::PointerOutOfBounds)
        }
    }
}

impl Runnable for Op {
    open spec fn eff(self) -> Eff {
        op_eff(self)
    }

    fn run(&self, code: &Code<Op>, env: &mut Environment) -> (r: Result<(), Error>) {
        let _n = code.ops.len();
        match self {
            Op::Inc => {
                if env.pointer < env.data.len() {
                    env.add(1);
                    env.advance_pc();
                    Ok(())
                } else {
                    Err(Error::PointerOutOfBounds)
                }
            },
            Op::Dec => {
                if env.pointer < env.data.len() {
                    env.sub(1);
                    env.advance_pc();
                    Ok(())
                } else {
                    Err(Error::PointerOutOfBounds)
                }
            },
            Op::IncPtr => {
                if env.pointer < usize::MAX {
                    env.add_ptr(1);
                    env.advance_pc();
                    Ok(())
                } else {
                    Err(Error::PointerOutOfBounds)
                }
            },
            Op::DecPtr => {
                if env.pointer >= 1 {
                    env.sub_ptr(1);
                    env.advance_pc();
                    Ok(())
                } else {
                    Err(Error::PointerOutOfBounds)
                }
            },
            Op::PutChar => {
                if env.pointer < env.data.len() {
                    env.put_char();
                    env.advance_pc();
                    Ok(())
                } else {
                    Err(Error::PointerOutOfBounds)
                }
            },
            Op::GetChar => {
                if env.pointer < env.data.len() {
                    env.read_char();
                    env.advance_pc();
                    Ok(())
                } else {
                    Err(Error::PointerOutOfBounds)
                }
            },
            Op::LoopStart => Self::process_loop_start(code, env),
            Op::LoopEnd => Self::process_loop_end(code, env),
        }
    }
}

impl Runnable for CompressedOp {
    open spec fn eff(self) -> Eff {
        cop_eff(self)
    }

    fn run(&self, code: &Code<CompressedOp>, env: &mut Environment) -> (r: Result<(), Error>) {
        let _n = code.ops.len();
        match self {
            CompressedOp::Add(n) => {
                if env.pointer < env.data.len() {
                    env.add(*n);
                    env.advance_pc();
                    Ok(())
                } else {
                    Err(Error::PointerOutOfBounds)
                }
            },
            CompressedOp::Sub(n) => {
                if env.pointer < env.data.len() {
                    env.sub(*n);
                    env.advance_pc();
                    Ok(())
                } else {
                    Err(Error::PointerOutOfBounds)
                }
            },
            CompressedOp::Forward(n) => {
                if env.pointer <= usize::MAX - *n {
                    env.add_ptr(*n);
                    env.advance_pc();
                    Ok(())
                } else {
                    Err(Error::PointerOutOfBounds)
                }
            },
            CompressedOp::Back(n) => {
                if *n <= env.pointer {
                    env.sub_ptr(*n);
                    env.advance_pc();
                    Ok(())
                } else {
                    Err(Error::PointerOutOfBounds)
                }
            },
            CompressedOp::PutChar => {
                if env.pointer < env.data.len() {
                    env.put_char();
                    env.advance_pc();
                    Ok(())
                } else {
                    Err(Error::PointerOutOfBounds)
                }
            },
            CompressedOp::GetChar => {
                if env.pointer < env.data.len() {
                    env.read_char();
                    env.advance_pc();
                    Ok(())
                } else {
                    Err(Error::PointerOutOfBounds)
                }
            },
            CompressedOp::LoopStart => Self::process_loop_start(code, env),
            CompressedOp::LoopEnd => Self::process_loop_end(code, env),
        }
    }
}

/// How a bounded run ended when no error was trapped.
#[derive(Debug, Copy, Clone, Eq, PartialEq, Structural)]
pub enum RunOutcome {
    /// The program counter reached the end of the instruction sequence.
    Halted,
    /// The step budget ran out first; the environment is left mid-run and a
    /// further call picks up where this one stopped.
    OutOfSteps,
}

/// Execute the instructions against the environment until the program
/// counter leaves the sequence, an instruction traps, or `max_steps`
/// dispatch steps have been taken, whichever comes first.
pub fn run<O: Runnable>(code: &Code<O>, env: &mut Environment, max_steps: u64) -> (r: Result<
    RunOutcome,
    Error,
>)
    requires
        code.jump_table@.len() == code.ops@.len(),
    ensures
        ({
            let p = effs(code.ops@);
            let jt = usizes(code.jump_table@);
            match r {
                Ok(RunOutcome::Halted) => reaches(p, jt, old(env)@, final(env)@)
                    && final(env)@.pc >= p.len(),
                Ok(RunOutcome::OutOfSteps) => iter_steps(p, jt, old(env)@, max_steps as nat)
                    == Some(final(env)@) && final(env)@.pc < p.len(),
                Err(e) => {
                    &&& e == Error::PointerOutOfBounds
                    &&& reaches(p, jt, old(env)@, final(env)@)
                    &&& final(env)@.pc < p.len()
                    &&& step(p, jt, final(env)@) is None
                },
            }
        }),
{
    let ghost p = effs(code.ops@);
    let ghost jt = usizes(code.jump_table@);
    let ghost s0 = env@;
    let mut steps: u64 = 0;
    loop
        invariant
            steps <= max_steps,
            code.jump_table@.len() == code.ops@.len(),
            p == effs(code.ops@),
            jt == usizes(code.jump_table@),
            s0 == old(env)@,
            iter_steps(p, jt, s0, steps as nat) == Some(env@),
        decreases max_steps - steps,
    {
        if env.pc >= code.ops.len() {
            return Ok(RunOutcome::Halted);
        }
        if steps == max_steps {
            return Ok(RunOutcome::OutOfSteps);
        }
        let op = code.ops[env.pc];
        match op.run(code, env) {
            Ok(()) => {
                proof {
                    assert(iter_steps(p, jt, s0, (steps + 1) as nat) == Some(env@));
                }
                steps = steps + 1;
            },
            Err(e) => {
                return Err(e);
            },
        }
    }
}

} // verus!
