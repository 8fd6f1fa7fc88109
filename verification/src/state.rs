//! The machine state: its mathematical model, the one-step transition
//! relation that defines what every instruction does, and the executable
//! state with its verified mutators.

use vstd::prelude::*;
use vstd::pervasive::VecAdditionalExecFns;
use crate::ops::Eff;

verus! {

/// The mathematical model of an execution state: tape, data pointer,
/// program counter, and the two byte streams as sequences (input bytes not
/// yet read start at `cursor`).
#[verifier::ext_equal]
pub struct MState {
    /// The memory tape.
    pub mem: Seq<u8>,
    /// The data pointer.
    pub pointer: int,
    /// The program counter.
    pub pc: int,
    /// All input bytes.
    pub input: Seq<u8>,
    /// How many input bytes have been read.
    pub cursor: int,
    /// The output bytes written so far.
    pub output: Seq<u8>,
}

/// Addition on a cell, with 8-bit wraparound.
pub open spec fn wrap_add(a: u8, n: u8) -> u8 {
    ((a + n) % 256) as u8
}

/// Subtraction on a cell, with 8-bit wraparound.
pub open spec fn wrap_sub(a: u8, n: u8) -> u8 {
    ((a + 256 - n) % 256) as u8
}

/// One dispatch step of the execution engine on program `p` with jump table
/// `jt`: `None` when the machine is already past the end of the program or
/// the step would touch a cell outside the tape or move the pointer out of
/// the address space.
pub open spec fn step(p: Seq<Eff>, jt: Seq<int>, s: MState) -> Option<MState> {
    if !(0 <= s.pc < p.len()) {
        None
    } else {
        match p[s.pc] {
            Eff::Add(n) => if 0 <= s.pointer < s.mem.len() {
                Some(MState {
                    mem: s.mem.update(s.pointer, wrap_add(s.mem[s.pointer], n)),
                    pc: s.pc + 1,
                    ..s
                })
            } else {
                None
            },
            Eff::Sub(n) => if 0 <= s.pointer < s.mem.len() {
                Some(MState {
                    mem: s.mem.update(s.pointer, wrap_sub(s.mem[s.pointer], n)),
                    pc: s.pc + 1,
                    ..s
                })
            } else {
                None
            },
            Eff::Forward(n) => if s.pointer + n <= usize::MAX {
                Some(MState { pointer: s.pointer + n, pc: s.pc + 1, ..s })
            } else {
                None
            },
            Eff::Back(n) => if n <= s.pointer {
                Some(MState { pointer: s.pointer - n, pc: s.pc + 1, ..s })
            } else {
                None
            },
            Eff::Put => if 0 <= s.pointer < s.mem.len() {
                Some(MState { output: s.output.push(s.mem[s.pointer]), pc: s.pc + 1, ..s })
            } else {
                None
            },
            Eff::Get => if 0 <= s.pointer < s.mem.len() {
                if 0 <= s.cursor < s.input.len() {
                    Some(MState {
                        mem: s.mem.update(s.pointer, s.input[s.cursor]),
                        cursor: s.cursor + 1,
                        pc: s.pc + 1,
                        ..s
                    })
                } else {
                    Some(MState { mem: s.mem.update(s.pointer, 0u8), pc: s.pc + 1, ..s })
                }
            } else {
                None
            },
            Eff::Start => if 0 <= s.pointer < s.mem.len() {
                if s.mem[s.pointer] == 0 {
                    Some(MState { pc: jt[s.pc], ..s })
                } else {
                    Some(MState { pc: s.pc + 1, ..s })
                }
            } else {
                None
            },
            Eff::End => if 0 <= s.pointer < s.mem.len() {
                if s.mem[s.pointer] != 0 {
                    Some(MState { pc: jt[s.pc], ..s })
                } else {
                    Some(MState { pc: s.pc + 1, ..s })
                }
            } else {
                None
            },
        }
    }
}

/// The state after exactly `n` dispatch steps from `s`, or `None` when the
/// machine halted or trapped within those steps.
pub open spec fn iter_steps(p: Seq<Eff>, jt: Seq<int>, s: MState, n: nat) -> Option<MState>
    decreases n,
{
    if n == 0 {
        Some(s)
    } else {
        match iter_steps(p, jt, s, (n - 1) as nat) {
            Some(s1) => step(p, jt, s1),
            None => None,
        }
    }
}

/// `s1` is reached from `s0` by some finite number of dispatch steps.
pub open spec fn reaches(p: Seq<Eff>, jt: Seq<int>, s0: MState, s1: MState) -> bool {
    exists|n: nat| iter_steps(p, jt, s0, n) == Some(s1)
}

/// Execution environment: the memory tape, the data pointer, the program
/// counter, and the two byte streams held as plain buffers. The caller that
/// wires real streams to the engine feeds `input` and drains `output`.
pub struct Environment {
    /// The memory tape.
    pub data: Vec<u8>,
    /// The program counter.
    pub pc: usize,
    /// The data pointer.
    pub pointer: usize,
    /// All input bytes.
    pub input: Vec<u8>,
    /// How many input bytes have been read.
    pub cursor: usize,
    /// The output bytes written so far.
    pub output: Vec<u8>,
}

impl View for Environment {
    type V = MState;

    open spec fn view(&self) -> MState {
        MState {
            mem: self.data@,
            pointer: self.pointer as int,
            pc: self.pc as int,
            input: self.input@,
            cursor: self.cursor as int,
            output: self.output@,
        }
    }
}

impl Environment {
    /// A fresh environment over the given tape and input: pointer and
    /// program counter at zero, nothing read, nothing written.
    pub fn new(data: Vec<u8>, input: Vec<u8>) -> (r: Environment)
        ensures
            r@ == (MState {
                mem: data@,
                pointer: 0,
                pc: 0,
                input: input@,
                cursor: 0,
                output: Seq::<u8>::empty(),
            }),
    {
        let r = Environment { data, pc: 0, pointer: 0, input, cursor: 0, output: Vec::new() };
        proof {
            assert(r@ =~= MState {
                mem: r.data@,
                pointer: 0,
                pc: 0,
                input: r.input@,
                cursor: 0,
                output: Seq::<u8>::empty(),
            });
        }
        r
    }

    /// Add to the cell under the pointer, with 8-bit wraparound.
    pub fn add(&mut self, n: u8)
        requires
            old(self).pointer < old(self).data.len(),
        ensures
            final(self)@ == (MState {
                mem: old(self)@.mem.update(
                    old(self)@.pointer,
                    wrap_add(old(self)@.mem[old(self)@.pointer], n),
                ),
                ..old(self)@
            }),
    {
        let p = self.pointer;
        let v = self.data[p];
        self.data.set(p, v.wrapping_add(n));
        proof {
            assert(v.wrapping_add(n) == wrap_add(v, n));
            assert(final(self)@ =~= MState {
                mem: old(self)@.mem.update(
                    old(self)@.pointer,
                    wrap_add(old(self)@.mem[old(self)@.pointer], n),
                ),
                ..old(self)@
            });
        }
    }

    /// Subtract from the cell under the pointer, with 8-bit wraparound.
    pub fn sub(&mut self, n: u8)
        requires
            old(self).pointer < old(self).data.len(),
        ensures
            final(self)@ == (MState {
                mem: old(self)@.mem.update(
                    old(self)@.pointer,
                    wrap_sub(old(self)@.mem[old(self)@.pointer], n),
                ),
                ..old(self)@
            }),
    {
        let p = self.pointer;
        let v = self.data[p];
        self.data.set(p, v.wrapping_sub(n));
        proof {
            assert(v.wrapping_sub(n) == wrap_sub(v, n));
            assert(final(self)@ =~= MState {
                mem: old(self)@.mem.update(
                    old(self)@.pointer,
                    wrap_sub(old(self)@.mem[old(self)@.pointer], n),
                ),
                ..old(self)@
            });
        }
    }

    /// Move the pointer forward by `n` cells.
    pub fn add_ptr(&mut self, n: usize)
        requires
            old(self).pointer + n <= usize::MAX,
        ensures
            final(self)@ == (MState { pointer: old(self)@.pointer + n, ..old(self)@ }),
    {
        self.pointer = self.pointer + n;
        proof {
            assert(final(self)@ =~= MState { pointer: old(self)@.pointer + n, ..old(self)@ });
        }
    }

    /// Move the pointer backward by `n` cells.
    pub fn sub_ptr(&mut self, n: usize)
        requires
            n <= old(self).pointer,
        ensures
            final(self)@ == (MState { pointer: old(self)@.pointer - n, ..old(self)@ }),
    {
        self.pointer = self.pointer - n;
        proof {
            assert(final(self)@ =~= MState { pointer: old(self)@.pointer - n, ..old(self)@ });
        }
    }

    /// Write the cell under the pointer to the output.
    pub fn put_char(&mut self)
        requires
            old(self).pointer < old(self).data.len(),
        ensures
            final(self)@ == (MState {
                output: old(self)@.output.push(old(self)@.mem[old(self)@.pointer]),
                ..old(self)@
            }),
    {
        let p = self.pointer;
        let v = self.data[p];
        self.output.push(v);
        proof {
            assert(final(self)@ =~= MState {
                output: old(self)@.output.push(old(self)@.mem[old(self)@.pointer]),
                ..old(self)@
            });
        }
    }

    /// Read one input byte into the cell under the pointer; at end of input
    /// the cell becomes 0 (not an error).
    pub fn read_char(&mut self)
        requires
            old(self).pointer < old(self).data.len(),
        ensures
            final(self)@ == (if 0 <= old(self)@.cursor < old(self)@.input.len() {
                MState {
                    mem: old(self)@.mem.update(
                        old(self)@.pointer,
                        old(self)@.input[old(self)@.cursor],
                    ),
                    cursor: old(self)@.cursor + 1,
                    ..old(self)@
                }
            } else {
                MState {
                    mem: old(self)@.mem.update(old(self)@.pointer, 0u8),
                    ..old(self)@
                }
            }),
    {
        let p = self.pointer;
        if self.cursor < self.input.len() {
            let b = self.input[self.cursor];
            self.cursor = self.cursor + 1;
            self.data.set(p, b);
            proof {
                assert(final(self)@ =~= MState {
                    mem: old(self)@.mem.update(
                        old(self)@.pointer,
                        old(self)@.input[old(self)@.cursor],
                    ),
                    cursor: old(self)@.cursor + 1,
                    ..old(self)@
                });
            }
        } else {
            self.data.set(p, 0);
            proof {
                assert(final(self)@ =~= MState {
                    mem: old(self)@.mem.update(old(self)@.pointer, 0u8),
                    ..old(self)@
                });
            }
        }
    }

    /// Advance the program counter by one.
    pub fn advance_pc(&mut self)
        requires
            old(self).pc < usize::MAX,
        ensures
            final(self)@ == (MState { pc: old(self)@.pc + 1, ..old(self)@ }),
    {
        self.pc = self.pc + 1;
        proof {
            assert(final(self)@ =~= MState { pc: old(self)@.pc + 1, ..old(self)@ });
        }
    }

    /// Set the program counter.
    pub fn set_pc(&mut self, pc: usize)
        ensures
            final(self)@ == (MState { pc: pc as int, ..old(self)@ }),
    {
        self.pc = pc;
        proof {
            assert(final(self)@ =~= MState { pc: pc as int, ..old(self)@ });
        }
    }

    /// Read the cell under the pointer.
    pub fn read_data(&self) -> (r: u8)
        requires
            self.pointer < self.data.len(),
        ensures
            r == self@.mem[self@.pointer],
    {
        self.data[self.pointer]
    }
}

} // verus!
