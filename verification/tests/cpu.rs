use action_kv::{Cpu, Fault, Step};

fn blank_cpu() -> Cpu {
    Cpu {
        registers: [0; 16],
        position_in_memory: 0,
        memory: [0; 4096],
        stack: [0; 16],
        stack_pointer: 0,
    }
}

#[test]
fn test_add_call_ret() {
    let mut cpu = Cpu {
        registers: [0; 16],
        position_in_memory: 0,
        memory: [0; 4096],
        stack: [0; 16],
        stack_pointer: 0,
    };

    cpu.registers[0] = 5;
    cpu.registers[1] = 10;

    let mem = &mut cpu.memory;

    // 2 Positions in memory represent 1 instruction
    mem[0x000] = 0x21;
    mem[0x001] = 0x00; // Call the function at 0x100
    mem[0x002] = 0x21;
    mem[0x003] = 0x00; // Call the function at 0x100
    mem[0x004] = 0x21;
    mem[0x005] = 0x00; // Call the function at 0x100

    mem[0x100] = 0x80;
    mem[0x101] = 0x14; // Add reg[0] value to reg[1] value
    mem[0x102] = 0x80;
    mem[0x103] = 0x14; // Add reg[0] value to reg[1] value
    mem[0x104] = 0x00;
    mem[0x105] = 0xEE; // Return
    cpu.run();

    assert_eq!(cpu.registers[0], 65);
}

#[test]
fn run_stops_behind_the_halting_opcode() {
    let mut cpu = blank_cpu();
    cpu.registers[3] = 7;
    cpu.run();
    assert_eq!(cpu.position_in_memory, 2);
    assert_eq!(cpu.stack_pointer, 0);
    assert_eq!(cpu.registers[3], 7);
}

#[test]
fn run_leaves_the_stack_empty_after_matching_returns() {
    let mut cpu = blank_cpu();
    cpu.registers[0] = 5;
    cpu.registers[1] = 10;
    cpu.memory[0x000] = 0x21;
    cpu.memory[0x001] = 0x00;
    cpu.memory[0x100] = 0x80;
    cpu.memory[0x101] = 0x14;
    cpu.memory[0x102] = 0x00;
    cpu.memory[0x103] = 0xEE;
    cpu.run();
    assert_eq!(cpu.registers[0], 15);
    assert_eq!(cpu.registers[1], 10);
    assert_eq!(cpu.registers[0xF], 0);
    assert_eq!(cpu.stack_pointer, 0);
    assert_eq!(cpu.stack[0], 0x002);
    assert_eq!(cpu.position_in_memory, 4);
}

#[test]
fn read_opcode_puts_the_first_byte_high() {
    let mut cpu = blank_cpu();
    cpu.position_in_memory = 0x200;
    cpu.memory[0x200] = 0x80;
    cpu.memory[0x201] = 0x14;
    assert_eq!(cpu.read_opcode(), 0x8014);
    cpu.position_in_memory = 4094;
    cpu.memory[4094] = 0xAB;
    cpu.memory[4095] = 0xCD;
    assert_eq!(cpu.read_opcode(), 0xABCD);
}

#[test]
fn add_xy_without_carry() {
    let mut cpu = blank_cpu();
    cpu.registers[2] = 200;
    cpu.registers[7] = 55;
    cpu.registers[0xF] = 9;
    cpu.add_xy(2, 7);
    assert_eq!(cpu.registers[2], 255);
    assert_eq!(cpu.registers[7], 55);
    assert_eq!(cpu.registers[0xF], 0);
}

#[test]
fn add_xy_with_carry_wraps() {
    let mut cpu = blank_cpu();
    cpu.registers[2] = 200;
    cpu.registers[7] = 100;
    cpu.add_xy(2, 7);
    assert_eq!(cpu.registers[2], 44);
    assert_eq!(cpu.registers[0xF], 1);
}

#[test]
fn add_xy_into_the_carry_register_keeps_the_carry() {
    let mut cpu = blank_cpu();
    cpu.registers[0xF] = 250;
    cpu.registers[1] = 10;
    cpu.add_xy(0xF, 1);
    assert_eq!(cpu.registers[0xF], 1);
    cpu.registers[0xF] = 3;
    cpu.add_xy(0xF, 1);
    assert_eq!(cpu.registers[0xF], 0);
}

#[test]
fn add_xy_of_a_register_to_itself() {
    let mut cpu = blank_cpu();
    cpu.registers[4] = 0x81;
    cpu.add_xy(4, 4);
    assert_eq!(cpu.registers[4], 0x02);
    assert_eq!(cpu.registers[0xF], 1);
}

#[test]
fn call_pushes_the_position() {
    let mut cpu = blank_cpu();
    cpu.position_in_memory = 0x246;
    cpu.call(0x100);
    assert_eq!(cpu.stack[0], 0x246);
    assert_eq!(cpu.stack_pointer, 1);
    assert_eq!(cpu.position_in_memory, 0x100);
}

#[test]
fn call_fills_the_last_stack_slot() {
    let mut cpu = blank_cpu();
    cpu.stack_pointer = 15;
    cpu.position_in_memory = 0x0FFE;
    cpu.call(0xABC);
    assert_eq!(cpu.stack[15], 0x0FFE);
    assert_eq!(cpu.stack_pointer, 16);
    assert_eq!(cpu.position_in_memory, 0xABC);
}

#[test]
fn ret_pops_the_latest_address() {
    let mut cpu = blank_cpu();
    cpu.stack[0] = 0x111;
    cpu.stack[1] = 0x222;
    cpu.stack_pointer = 2;
    cpu.ret();
    assert_eq!(cpu.position_in_memory, 0x222);
    assert_eq!(cpu.stack_pointer, 1);
    cpu.ret();
    assert_eq!(cpu.position_in_memory, 0x111);
    assert_eq!(cpu.stack_pointer, 0);
}

#[test]
fn call_then_ret_comes_back() {
    let mut cpu = blank_cpu();
    cpu.position_in_memory = 0x300;
    cpu.call(0x400);
    cpu.ret();
    assert_eq!(cpu.position_in_memory, 0x300);
    assert_eq!(cpu.stack_pointer, 0);
}

#[test]
fn step_executes_one_instruction() {
    let mut cpu = blank_cpu();
    cpu.registers[0] = 5;
    cpu.registers[1] = 10;
    cpu.memory[0] = 0x80;
    cpu.memory[1] = 0x14;
    assert_eq!(cpu.step(), Step::Continued);
    assert_eq!(cpu.registers[0], 15);
    assert_eq!(cpu.position_in_memory, 2);
    assert_eq!(cpu.step(), Step::Halted);
    assert_eq!(cpu.position_in_memory, 4);
}

#[test]
fn step_reports_an_unknown_opcode() {
    let mut cpu = blank_cpu();
    cpu.memory[0] = 0x70;
    cpu.memory[1] = 0x01;
    assert_eq!(cpu.step(), Step::Faulted(Fault::UnknownOpcode));
    assert_eq!(cpu.position_in_memory, 0);
    cpu.memory[0] = 0x80;
    cpu.memory[1] = 0x15;
    assert_eq!(cpu.step(), Step::Faulted(Fault::UnknownOpcode));
    cpu.memory[0] = 0x00;
    cpu.memory[1] = 0xE0;
    assert_eq!(cpu.step(), Step::Faulted(Fault::UnknownOpcode));
}

#[test]
fn step_reports_a_return_without_call() {
    let mut cpu = blank_cpu();
    cpu.memory[0] = 0x00;
    cpu.memory[1] = 0xEE;
    assert_eq!(cpu.step(), Step::Faulted(Fault::StackUnderflow));
    assert_eq!(cpu.position_in_memory, 0);
    assert_eq!(cpu.stack_pointer, 0);
}

#[test]
fn step_reports_a_full_stack() {
    let mut cpu = blank_cpu();
    cpu.memory[0] = 0x21;
    cpu.memory[1] = 0x00;
    cpu.stack_pointer = 16;
    assert_eq!(cpu.step(), Step::Faulted(Fault::StackOverflow));
    assert_eq!(cpu.position_in_memory, 0);
    cpu.stack_pointer = 15;
    assert_eq!(cpu.step(), Step::Continued);
    assert_eq!(cpu.stack_pointer, 16);
    assert_eq!(cpu.stack[15], 2);
    assert_eq!(cpu.position_in_memory, 0x100);
}

#[test]
fn step_reports_a_position_without_opcode() {
    let mut cpu = blank_cpu();
    cpu.position_in_memory = 4095;
    assert_eq!(cpu.step(), Step::Faulted(Fault::NoOpcode));
    cpu.position_in_memory = 4096;
    assert_eq!(cpu.step(), Step::Faulted(Fault::NoOpcode));
    cpu.position_in_memory = 4094;
    assert_eq!(cpu.step(), Step::Halted);
    assert_eq!(cpu.position_in_memory, 4096);
}

#[test]
fn sixteen_nested_calls_fit_and_one_more_does_not() {
    let mut cpu = blank_cpu();
    // Each call targets the next call, two bytes on.
    for i in 0..17usize {
        let target = 2 * (i + 1);
        cpu.memory[2 * i] = 0x20 | (target >> 8) as u8;
        cpu.memory[2 * i + 1] = (target & 0xFF) as u8;
    }
    for _ in 0..16 {
        assert_eq!(cpu.step(), Step::Continued);
    }
    assert_eq!(cpu.stack_pointer, 16);
    assert_eq!(cpu.step(), Step::Faulted(Fault::StackOverflow));
}
