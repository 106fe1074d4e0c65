//! A small CHIP-8-style interpreter: add, multiply, call and return.

use vstd::prelude::*;

verus! {

/// The mathematical state of the machine.
pub struct CpuState {
    pub pc: int,
    pub memory: Seq<u8>,
    pub registers: Seq<u8>,
    pub stack: Seq<u16>,
    pub stack_pointer: int,
}

/// Why a run stopped without reaching the halt opcode.
#[derive(Debug, Clone, Copy, PartialEq, Eq, Structural)]
pub enum CpuFault {
    PcOutOfRange,
    UnknownOpcode,
    StackOverflow,
    StackUnderflow,
}

/// How a bounded run ended.
#[derive(Debug, Clone, Copy, PartialEq, Eq, Structural)]
pub enum RunOutcome {
    Halted,
    Fault(CpuFault),
    StepLimit,
}

/// What one step of the machine does.
pub enum StepResult {
    Next(CpuState),
    Halt(CpuState),
    Fail(CpuFault),
}

/// The big-endian opcode at the program counter.
pub open spec fn opcode_at(s: CpuState) -> u16 {
    ((s.memory[s.pc] as u16) << 8) | (s.memory[s.pc + 1] as u16)
}

/// One fetch-decode-execute step of the machine.
pub open spec fn step(s: CpuState) -> StepResult {
    if !(0 <= s.pc && s.pc + 1 < 4096) {
        StepResult::Fail(CpuFault::PcOutOfRange)
    } else {
        let op = opcode_at(s);
        let pc2 = s.pc + 2;
        if op == 0x0000 {
            StepResult::Halt(CpuState { pc: pc2, ..s })
        } else if op == 0x00EE {
            if s.stack_pointer < 1 {
                StepResult::Fail(CpuFault::StackUnderflow)
            } else if s.stack_pointer > s.stack.len() {
                StepResult::Fail(CpuFault::StackOverflow)
            } else {
                StepResult::Next(
                    CpuState {
                        pc: s.stack[s.stack_pointer - 1] as int,
                        stack_pointer: s.stack_pointer - 1,
                        ..s
                    },
                )
            }
        } else if op & 0xF000 == 0x2000 {
            if s.stack_pointer < 0 || s.stack_pointer >= s.stack.len() {
                StepResult::Fail(CpuFault::StackOverflow)
            } else {
                StepResult::Next(
                    CpuState {
                        pc: (op & 0x0FFF) as int,
                        stack: s.stack.update(s.stack_pointer, pc2 as u16),
                        stack_pointer: s.stack_pointer + 1,
                        ..s
                    },
                )
            }
        } else if op & 0xF00F == 0x8004 {
            let x = ((op >> 8) & 0xF) as int;
            let y = ((op >> 4) & 0xF) as int;
            let sum = s.registers[x] + s.registers[y];
            StepResult::Next(
                CpuState {
                    pc: pc2,
                    registers: s.registers.update(x, (sum % 256) as u8).update(
                        15,
                        if sum >= 256 {
                            1u8
                        } else {
                            0u8
                        },
                    ),
                    ..s
                },
            )
        } else if op & 0xF00F == 0x9001 {
            let x = ((op >> 8) & 0xF) as int;
            let y = ((op >> 4) & 0xF) as int;
            let prod = s.registers[x] * s.registers[y];
            StepResult::Next(
                CpuState {
                    pc: pc2,
                    registers: s.registers.update(x, (prod % 256) as u8).update(
                        15,
                        if prod >= 256 {
                            1u8
                        } else {
                            0u8
                        },
                    ),
                    ..s
                },
            )
        } else {
            StepResult::Fail(CpuFault::UnknownOpcode)
        }
    }
}

/// The state after `n` steps, as long as the machine keeps running.
pub open spec fn reaches(s: CpuState, n: nat) -> CpuState
    decreases n,
{
    if n == 0 {
        s
    } else {
        match step(s) {
            StepResult::Next(s2) => reaches(s2, (n - 1) as nat),
            _ => s,
        }
    }
}

/// The first `n` steps from `s` all continue execution.
pub open spec fn running(s: CpuState, n: nat) -> bool
    decreases n,
{
    n == 0 || (step(s) matches StepResult::Next(s2) && running(s2, (n - 1) as nat))
}

/// A run of `n` continuing steps followed by one more continuing step is a
/// run of `n + 1` steps.
proof fn lemma_running_step(s: CpuState, n: nat, t: CpuState)
    requires
        running(s, n),
        step(reaches(s, n)) == StepResult::Next(t),
    ensures
        running(s, n + 1),
        reaches(s, n + 1) == t,
    decreases n,
{
    if n == 0 {
        assert(reaches(s, n) == s);
        assert(step(s) == StepResult::Next(t));
        assert(running(t, 0));
        assert(reaches(s, 1) == reaches(t, 0));
        assert(running(s, 1));
    } else {
        match step(s) {
            StepResult::Next(s2) => {
                assert(running(s2, (n - 1) as nat));
                assert(reaches(s, n) == reaches(s2, (n - 1) as nat));
                lemma_running_step(s2, (n - 1) as nat, t);
                assert(reaches(s, n + 1) == reaches(s2, n));
                assert(running(s, n + 1));
            },
            _ => {},
        }
    }
}

/// The machine: 4096 bytes of memory, 16 registers, a 16-deep call stack.
pub struct CPU {
    pub pc: usize,
    pub memory: [u8; 4096],
    pub registers: [u8; 16],
    pub stack: [u16; 16],
    pub stack_pointer: usize,
}

impl View for CPU {
    type V = CpuState;

    open spec fn view(&self) -> CpuState {
        CpuState {
            pc: self.pc as int,
            memory: self.memory@,
            registers: self.registers@,
            stack: self.stack@,
            stack_pointer: self.stack_pointer as int,
        }
    }
}

impl CPU {
    /// Reads the two-byte opcode at the program counter.
    pub fn read_opcode(&self) -> (r: u16)
        requires
            self.pc + 1 < 4096,
        ensures
            r == opcode_at(self@),
    {
        let op_byte1 = self.memory[self.pc] as u16;
        let op_byte2 = self.memory[self.pc + 1] as u16;
        (op_byte1 << 8) | op_byte2
    }

    /// Adds register `y` into register `x`, setting register 15 to 1 on
    /// overflow and to 0 otherwise.
    pub fn add_xy(&mut self, x: u8, y: u8)
        requires
            x < 16,
            y < 16,
        ensures
            ({
                let sum = old(self)@.registers[x as int] + old(self)@.registers[y as int];
                final(self)@ == (CpuState {
                    registers: old(self)@.registers.update(x as int, (sum % 256) as u8).update(
                        15,
                        if sum >= 256 {
                            1u8
                        } else {
                            0u8
                        },
                    ),
                    ..old(self)@
                })
            }),
    {
        let arg1 = self.registers[x as usize];
        let arg2 = self.registers[y as usize];
        let sum: u16 = arg1 as u16 + arg2 as u16;
        self.registers[x as usize] = (sum % 256) as u8;
        if sum >= 256 {
            self.registers[15] = 1;
        } else {
            self.registers[15] = 0;
        }
    }

    /// Multiplies register `x` by register `y`, setting register 15 to 1 on
    /// overflow and to 0 otherwise.
    pub fn mul_xy(&mut self, x: u8, y: u8)
        requires
            x < 16,
            y < 16,
        ensures
            ({
                let prod = old(self)@.registers[x as int] * old(self)@.registers[y as int];
                final(self)@ == (CpuState {
                    registers: old(self)@.registers.update(x as int, (prod % 256) as u8).update(
                        15,
                        if prod >= 256 {
                            1u8
                        } else {
                            0u8
                        },
                    ),
                    ..old(self)@
                })
            }),
    {
        let arg1 = self.registers[x as usize];
        let arg2 = self.registers[y as usize];
        proof {
            assert(arg1 as int * arg2 as int <= 255 * 255) by (nonlinear_arith)
                requires
                    arg1 as int <= 255 && arg2 as int <= 255,
            ;
        }
        let prod: u16 = arg1 as u16 * arg2 as u16;
        self.registers[x as usize] = (prod % 256) as u8;
        if prod >= 256 {
            self.registers[15] = 1;
        } else {
            self.registers[15] = 0;
        }
    }

    /// Pushes the current program counter and jumps to `addr`.
    pub fn call(&mut self, addr: u16)
        requires
            old(self).stack_pointer < 16,
            old(self).pc <= 0xFFFF,
        ensures
            final(self)@ == (CpuState {
                pc: addr as int,
                stack: old(self)@.stack.update(old(self)@.stack_pointer, old(self).pc as u16),
                stack_pointer: old(self)@.stack_pointer + 1,
                ..old(self)@
            }),
    {
        let sp = self.stack_pointer;
        self.stack[sp] = self.pc as u16;
        self.stack_pointer = sp + 1;
        self.pc = addr as usize;
    }

    /// Pops the call stack and returns to the address stored there.
    pub fn ret(&mut self)
        requires
            1 <= old(self).stack_pointer,
            old(self).stack_pointer <= 16,
        ensures
            final(self)@ == (CpuState {
                pc: old(self)@.stack[old(self)@.stack_pointer - 1] as int,
                stack_pointer: old(self)@.stack_pointer - 1,
                ..old(self)@
            }),
    {
        self.stack_pointer = self.stack_pointer - 1;
        self.pc = self.stack[self.stack_pointer] as usize;
    }

    /// Fetches and executes opcodes until the halt opcode, a fault, or
    /// `max_steps` executed instructions. The final state is reached from
    /// the starting state by that many machine steps.
    pub fn run(&mut self, max_steps: u64) -> (r: RunOutcome)
        ensures
            exists|n: nat|
                #[trigger] running(old(self)@, n) && n <= max_steps && (match r {
                    RunOutcome::Halted => step(reaches(old(self)@, n)) matches StepResult::Halt(h)
                        && final(self)@ == h,
                    RunOutcome::Fault(e) => step(reaches(old(self)@, n)) == StepResult::Fail(e)
                        && final(self)@ == reaches(old(self)@, n),
                    RunOutcome::StepLimit => n == max_steps && final(self)@ == reaches(
                        old(self)@,
                        n,
                    ),
                }),
    {
        let mut steps: u64 = 0;
        while steps < max_steps
            invariant
                steps <= max_steps,
                running(old(self)@, steps as nat),
                self@ == reaches(old(self)@, steps as nat),
            decreases max_steps - steps,
        {
            let ghost cur = self@;
            proof {
                assert(running(old(self)@, steps as nat));
                assert(reaches(old(self)@, steps as nat) == cur);
            }
            if self.pc >= 4095 {
                assert(step(cur) == StepResult::Fail(CpuFault::PcOutOfRange));
                return RunOutcome::Fault(CpuFault::PcOutOfRange);
            }
            let op = self.read_opcode();
            if op == 0x0000 {
                self.pc = self.pc + 2;
                assert(step(cur) == StepResult::Halt(self@));
                return RunOutcome::Halted;
            } else if op == 0x00EE {
                if self.stack_pointer < 1 {
                    assert(step(cur) == StepResult::Fail(CpuFault::StackUnderflow));
                    return RunOutcome::Fault(CpuFault::StackUnderflow);
                }
                if self.stack_pointer > 16 {
                    assert(step(cur) == StepResult::Fail(CpuFault::StackOverflow));
                    return RunOutcome::Fault(CpuFault::StackOverflow);
                }
                self.ret();
                proof {
                    lemma_running_step(old(self)@, steps as nat, self@);
                }
            } else if op & 0xF000 == 0x2000 {
                if self.stack_pointer >= 16 {
                    assert(step(cur) == StepResult::Fail(CpuFault::StackOverflow));
                    return RunOutcome::Fault(CpuFault::StackOverflow);
                }
                self.pc = self.pc + 2;
                self.call(op & 0x0FFF);
                proof {
                    assert(step(cur) == StepResult::Next(self@));
                    lemma_running_step(old(self)@, steps as nat, self@);
                }
            } else if op & 0xF00F == 0x8004 {
                let x = ((op >> 8) & 0xF) as u8;
                let y = ((op >> 4) & 0xF) as u8;
                assert(x < 16 && y < 16 && x as u16 == (op >> 8) & 0xF && y as u16 == (op >> 4)
                    & 0xF) by (bit_vector)
                    requires
                        x == ((op >> 8) & 0xF) as u8 && y == ((op >> 4) & 0xF) as u8,
                ;
                self.pc = self.pc + 2;
                self.add_xy(x, y);
                proof {
                    assert(step(cur) == StepResult::Next(self@));
                    lemma_running_step(old(self)@, steps as nat, self@);
                }
            } else if op & 0xF00F == 0x9001 {
                let x = ((op >> 8) & 0xF) as u8;
                let y = ((op >> 4) & 0xF) as u8;
                assert(x < 16 && y < 16 && x as u16 == (op >> 8) & 0xF && y as u16 == (op >> 4)
                    & 0xF) by (bit_vector)
                    requires
                        x == ((op >> 8) & 0xF) as u8 && y == ((op >> 4) & 0xF) as u8,
                ;
                self.pc = self.pc + 2;
                self.mul_xy(x, y);
                proof {
                    assert(step(cur) == StepResult::Next(self@));
                    lemma_running_step(old(self)@, steps as nat, self@);
                }
            } else {
                assert(step(cur) == StepResult::Fail(CpuFault::UnknownOpcode));
                return RunOutcome::Fault(CpuFault::UnknownOpcode);
            }
            steps = steps + 1;
        }
        RunOutcome::StepLimit
    }
}

} // verus!
