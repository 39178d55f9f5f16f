//! A small CHIP-8 processor: sixteen registers, 4 KiB of memory and a call
//! stack, with the instructions to add two registers, to call a
//! subroutine and to return from one.
//!
//! An opcode is two bytes, the high byte first, read as four hexadecimal
//! digits:
//!
//! - `0x0000` stops the processor;
//! - `0x00EE` returns to the address behind the latest call;
//! - `0x2AAA` calls the subroutine at address `AAA`;
//! - `0x8XY4` adds register `Y` to register `X` and sets the last
//!   register to the carry.

use vstd::pervasive::unreached;
use vstd::prelude::*;

verus! {

/// The processor.
pub struct Cpu {
    pub registers: [u8; 16],
    pub position_in_memory: usize,
    /// One byte per slot, as on the hardware.
    pub memory: [u8; 4096],
    /// The return addresses of up to 16 nested calls.
    pub stack: [u16; 16],
    pub stack_pointer: usize,
}

/// Why the processor cannot execute the instruction at its position.
#[derive(Debug, Clone, Copy, PartialEq, Eq, Structural)]
pub enum Fault {
    /// The two bytes of an opcode do not lie in memory at the position.
    NoOpcode,
    /// The opcode is none of the processor's.
    UnknownOpcode,
    /// A call found the stack full, or the stack pointer behind the stack.
    StackOverflow,
    /// A return found the stack empty.
    StackUnderflow,
}

/// What one step of the processor did.
#[derive(Debug, Clone, Copy, PartialEq, Eq, Structural)]
pub enum Step {
    /// The opcode stopped the processor.
    Halted,
    /// An instruction was executed.
    Continued,
    /// Nothing was executed.
    Faulted(Fault),
}

/// The state of a processor as plain mathematical values.
pub struct CpuState {
    pub registers: Seq<u8>,
    pub position_in_memory: int,
    pub memory: Seq<u8>,
    pub stack: Seq<u16>,
    pub stack_pointer: int,
}

impl View for Cpu {
    type V = CpuState;

    open spec fn view(&self) -> CpuState {
        CpuState {
            registers: self.registers@,
            position_in_memory: self.position_in_memory as int,
            memory: self.memory@,
            stack: self.stack@,
            stack_pointer: self.stack_pointer as int,
        }
    }
}

/// The first hexadecimal digit of an opcode: the group of the operation.
pub open spec fn op_group(opcode: u16) -> int {
    opcode as int / 4096
}

/// The second hexadecimal digit of an opcode: the first register.
pub open spec fn op_x(opcode: u16) -> int {
    (opcode as int / 256) % 16
}

/// The third hexadecimal digit of an opcode: the second register.
pub open spec fn op_y(opcode: u16) -> int {
    (opcode as int / 16) % 16
}

/// The fourth hexadecimal digit of an opcode: the operation in its group.
pub open spec fn op_kind(opcode: u16) -> int {
    opcode as int % 16
}

/// The last three hexadecimal digits of an opcode: an address.
pub open spec fn op_addr(opcode: u16) -> u16 {
    (opcode as int % 4096) as u16
}

impl CpuState {
    /// Whether the two bytes of an opcode lie in memory at the current
    /// position.
    pub open spec fn can_fetch(self) -> bool {
        0 <= self.position_in_memory && self.position_in_memory + 1 < self.memory.len()
    }

    /// The opcode at the current position.
    pub open spec fn opcode(self) -> u16
        recommends
            self.can_fetch(),
    {
        (self.memory[self.position_in_memory] as int * 256 + self.memory[self.position_in_memory
            + 1] as int) as u16
    }

    /// The state with the position moved behind the opcode.
    pub open spec fn fetch(self) -> CpuState {
        CpuState { position_in_memory: self.position_in_memory + 2, ..self }
    }

    /// The state after register `y` was added to register `x`: register `x`
    /// holds the sum modulo 256, and then the last register holds 1 where
    /// the sum is over 255 and 0 where it is not.
    pub open spec fn add_xy(self, x: int, y: int) -> CpuState
        recommends
            0 <= x < 16,
            0 <= y < 16,
    {
        let sum = self.registers[x] as int + self.registers[y] as int;
        let carry = if sum > 255 {
            1u8
        } else {
            0u8
        };
        CpuState { registers: self.registers.update(x, (sum % 256) as u8).update(15, carry), ..self }
    }

    /// Whether the stack has room for one more return address.
    pub open spec fn can_call(self) -> bool {
        0 <= self.stack_pointer < self.stack.len()
    }

    /// The state after a call of the subroutine at `addr`: the current
    /// position is on the stack and the position is `addr`.
    pub open spec fn call(self, addr: u16) -> CpuState
        recommends
            self.can_call(),
    {
        CpuState {
            stack: self.stack.update(self.stack_pointer, self.position_in_memory as u16),
            stack_pointer: self.stack_pointer + 1,
            position_in_memory: addr as int,
            ..self
        }
    }

    /// Whether the stack holds a return address.
    pub open spec fn can_ret(self) -> bool {
        0 < self.stack_pointer <= self.stack.len()
    }

    /// The state after a return: the latest return address is off the stack
    /// and is the position.
    pub open spec fn ret(self) -> CpuState
        recommends
            self.can_ret(),
    {
        CpuState {
            stack_pointer: self.stack_pointer - 1,
            position_in_memory: self.stack[self.stack_pointer - 1] as int,
            ..self
        }
    }

    /// Whether the opcode at the current position stops the processor.
    pub open spec fn at_halt(self) -> bool {
        self.can_fetch() && self.opcode() == 0
    }

    /// The state after the instruction at the current position, other than
    /// the one that stops the processor, or the fault where there is no
    /// such state: no opcode can be read, the opcode is none of the
    /// processor's, a call finds the stack full or a return finds it
    /// empty.
    pub open spec fn step(self) -> Result<CpuState, Fault> {
        if !self.can_fetch() {
            Err(Fault::NoOpcode)
        } else {
            let opcode = self.opcode();
            let fetched = self.fetch();
            if opcode == 0x00EE {
                if fetched.can_ret() {
                    Ok(fetched.ret())
                } else if fetched.stack_pointer <= 0 {
                    Err(Fault::StackUnderflow)
                } else {
                    Err(Fault::StackOverflow)
                }
            } else if op_group(opcode) == 0x2 {
                if fetched.can_call() {
                    Ok(fetched.call(op_addr(opcode)))
                } else {
                    Err(Fault::StackOverflow)
                }
            } else if op_group(opcode) == 0x8 && op_kind(opcode) == 0x4 {
                Ok(fetched.add_xy(op_x(opcode), op_y(opcode)))
            } else {
                Err(Fault::UnknownOpcode)
            }
        }
    }

    /// The state in which the processor stops, where it does so after at
    /// most `steps` instructions; `None` where it does not.
    pub open spec fn run_for(self, steps: nat) -> Option<CpuState>
        decreases steps,
    {
        if self.at_halt() {
            Some(self.fetch())
        } else if steps == 0 {
            None
        } else {
            match self.step() {
                Ok(next) => next.run_for((steps - 1) as nat),
                Err(_) => None,
            }
        }
    }

    /// Whether the processor stops after some number of instructions.
    pub open spec fn halts(self) -> bool {
        exists|steps: nat| (#[trigger] self.run_for(steps)) is Some
    }

    /// The state in which the processor stops.
    pub open spec fn halt_state(self) -> CpuState
        recommends
            self.halts(),
    {
        self.run_for(choose|steps: nat| (#[trigger] self.run_for(steps)) is Some).unwrap()
    }

    /// A processor that stops after at most `steps` instructions stops in
    /// the state that `run_for` gives for `steps`.
    pub proof fn lemma_halt_state(self, steps: nat)
        requires
            self.run_for(steps) is Some,
        ensures
            self.halts(),
            self.halt_state() == self.run_for(steps).unwrap(),
    {
        let chosen = choose|n: nat| (#[trigger] self.run_for(n)) is Some;
        self.lemma_run_for_agrees(steps, chosen);
    }

    /// The state in which the processor stops does not depend on how many
    /// more instructions it was allowed.
    pub proof fn lemma_run_for_agrees(self, a: nat, b: nat)
        requires
            self.run_for(a) is Some,
            self.run_for(b) is Some,
        ensures
            self.run_for(a) == self.run_for(b),
        decreases a,
    {
        if !self.at_halt() {
            self.step().unwrap().lemma_run_for_agrees((a - 1) as nat, (b - 1) as nat);
        }
    }
}

impl Cpu {
    /// Runs the program from the current position until an opcode stops
    /// the processor.
    pub fn run(&mut self)
        requires
            old(self)@.halts(),
        ensures
            final(self)@ == old(self)@.halt_state(),
    {
        let ghost mut steps = choose|steps: nat| (#[trigger] old(self)@.run_for(steps)) is Some;
        loop
            invariant
                old(self)@.halts(),
                self@.run_for(steps) is Some,
                self@.run_for(steps).unwrap() == old(self)@.halt_state(),
            decreases steps,
        {
            match self.step() {
                Step::Halted => {
                    return ;
                },
                Step::Continued => {},
                Step::Faulted(_) => unreached(),
            }
            proof {
                steps = (steps - 1) as nat;
            }
        }
    }

    /// Executes the instruction at the current position. An opcode that
    /// stops the processor only moves the position behind it. Where the
    /// instruction cannot be executed the processor stays as it is.
    pub fn step(&mut self) -> (outcome: Step)
        ensures
            match outcome {
                Step::Halted => old(self)@.at_halt() && final(self)@ == old(self)@.fetch(),
                Step::Continued => !old(self)@.at_halt() && old(self)@.step() == Ok::<
                    CpuState,
                    Fault,
                >(final(self)@),
                Step::Faulted(fault) => {
                    &&& !old(self)@.at_halt()
                    &&& old(self)@.step() == Err::<CpuState, Fault>(fault)
                    &&& final(self)@ == old(self)@
                },
            },
    {
        if self.position_in_memory >= self.memory.len() - 1 {
            return Step::Faulted(Fault::NoOpcode);
        }
        let opcode = self.read_opcode();

        let c = ((opcode & 0xF000) >> 12) as u8;
        let x = ((opcode & 0x0F00) >> 8) as u8;
        let y = ((opcode & 0x00F0) >> 4) as u8;
        let d = ((opcode & 0x000F) >> 0) as u8;

        let addr = opcode & 0x0FFF;
        proof {
            lemma_opcode_digits(opcode);
        }

        match (c, x, y, d) {
            (0, 0, 0, 0) => {
                self.position_in_memory += 2;
                Step::Halted
            },
            (0, 0, 0xE, 0xE) => {
                if self.stack_pointer == 0 {
                    return Step::Faulted(Fault::StackUnderflow);
                }
                if self.stack_pointer > self.stack.len() {
                    return Step::Faulted(Fault::StackOverflow);
                }
                self.position_in_memory += 2;
                self.ret();
                Step::Continued
            },
            (0x2, _, _, _) => {
                if self.stack_pointer >= self.stack.len() {
                    return Step::Faulted(Fault::StackOverflow);
                }
                self.position_in_memory += 2;
                self.call(addr);
                Step::Continued
            },
            (0x8, _, _, 0x4) => {
                self.position_in_memory += 2;
                self.add_xy(x, y);
                Step::Continued
            },
            _ => Step::Faulted(Fault::UnknownOpcode),
        }
    }

    /// The opcode at the current position: its high byte, then its low
    /// byte.
    pub fn read_opcode(&self) -> (opcode: u16)
        requires
            self@.can_fetch(),
        ensures
            opcode == self@.opcode(),
    {
        let p = self.position_in_memory;
        let op_byte1 = self.memory[p] as u16;
        let op_byte2 = self.memory[p + 1] as u16;

        let opcode = op_byte1 << 8 | op_byte2;
        assert(op_byte1 << 8 | op_byte2 == op_byte1 * 256 + op_byte2) by (bit_vector)
            requires
                op_byte1 < 256,
                op_byte2 < 256,
        ;
        opcode
    }

    /// Adds register `y` to register `x`; the last register takes the
    /// carry.
    pub fn add_xy(&mut self, x: u8, y: u8)
        requires
            x < 16,
            y < 16,
        ensures
            final(self)@ == old(self)@.add_xy(x as int, y as int),
    {
        let arg1 = self.registers[x as usize];
        let arg2 = self.registers[y as usize];

        let sum: u16 = arg1 as u16 + arg2 as u16;
        let val = (sum % 256) as u8;
        let overflow = sum > 255;
        self.registers[x as usize] = val;

        if overflow {
            self.registers[0xF] = 1;
        } else {
            self.registers[0xF] = 0;
        }
    }

    /// Calls the subroutine at `addr`.
    pub fn call(&mut self, addr: u16)
        requires
            old(self)@.can_call(),
        ensures
            final(self)@ == old(self)@.call(addr),
    {
        let sp = self.stack_pointer;

        self.stack[sp] = self.position_in_memory as u16;
        self.stack_pointer += 1;
        self.position_in_memory = addr as usize;
    }

    /// Returns from the current subroutine.
    pub fn ret(&mut self)
        requires
            old(self)@.can_ret(),
        ensures
            final(self)@ == old(self)@.ret(),
    {
        self.stack_pointer -= 1;
        let call_addr = self.stack[self.stack_pointer];
        self.position_in_memory = call_addr as usize;
    }
}

/// The digits that masks and shifts take out of an opcode are those of its
/// hexadecimal notation.
pub proof fn lemma_opcode_digits(opcode: u16)
    ensures
        (opcode & 0xF000) >> 12 == op_group(opcode),
        (opcode & 0x0F00) >> 8 == op_x(opcode),
        (opcode & 0x00F0) >> 4 == op_y(opcode),
        (opcode & 0x000F) >> 0 == op_kind(opcode),
        opcode & 0x0FFF == op_addr(opcode),
{
    assert((opcode & 0xF000) >> 12 == opcode / 4096) by (bit_vector);
    assert((opcode & 0x0F00) >> 8 == (opcode / 256) % 16) by (bit_vector);
    assert((opcode & 0x00F0) >> 4 == (opcode / 16) % 16) by (bit_vector);
    assert((opcode & 0x000F) >> 0 == opcode % 16) by (bit_vector);
    assert(opcode & 0x0FFF == opcode % 4096) by (bit_vector);
}

} // verus!
