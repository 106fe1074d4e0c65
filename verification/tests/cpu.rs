use actionkv::cpu::{CpuFault, RunOutcome, CPU};

fn fresh_cpu() -> CPU {
    CPU { pc: 0, memory: [0; 4096], registers: [0; 16], stack: [0; 16], stack_pointer: 0 }
}

#[test]
fn add_twice_via_function_call() {
    let mut cpu = fresh_cpu();
    cpu.registers[0] = 5;
    cpu.registers[1] = 2;

    // call the routine at 0x100, then halt
    cpu.memory[0x00] = 0x21;
    cpu.memory[0x01] = 0x00;

    // add r1 into r0, multiply r0 by r1, return
    let routine: [u8; 6] = [0x80, 0x14, 0x90, 0x11, 0x00, 0xEE];
    cpu.memory[0x100..0x106].copy_from_slice(&routine);

    assert_eq!(cpu.run(1000), RunOutcome::Halted);
    assert_eq!(cpu.registers[0], (5 + 2) * 2);
}

#[test]
fn read_opcode_is_big_endian() {
    let mut cpu = fresh_cpu();
    cpu.memory[10] = 0xAB;
    cpu.memory[11] = 0xCD;
    cpu.pc = 10;
    assert_eq!(cpu.read_opcode(), 0xABCD);
}

#[test]
fn add_sets_carry_flag_on_overflow() {
    let mut cpu = fresh_cpu();
    cpu.registers[0] = 200;
    cpu.registers[1] = 100;
    cpu.add_xy(0, 1);
    assert_eq!(cpu.registers[0], 44);
    assert_eq!(cpu.registers[15], 1);

    cpu.registers[2] = 3;
    cpu.registers[3] = 4;
    cpu.add_xy(2, 3);
    assert_eq!(cpu.registers[2], 7);
    assert_eq!(cpu.registers[15], 0);
}

#[test]
fn mul_sets_carry_flag_on_overflow() {
    let mut cpu = fresh_cpu();
    cpu.registers[4] = 16;
    cpu.registers[5] = 16;
    cpu.mul_xy(4, 5);
    assert_eq!(cpu.registers[4], 0);
    assert_eq!(cpu.registers[15], 1);
}

#[test]
fn call_and_ret_use_the_stack() {
    let mut cpu = fresh_cpu();
    cpu.pc = 0x30;
    cpu.call(0x200);
    assert_eq!(cpu.pc, 0x200);
    assert_eq!(cpu.stack_pointer, 1);
    assert_eq!(cpu.stack[0], 0x30);
    cpu.ret();
    assert_eq!(cpu.pc, 0x30);
    assert_eq!(cpu.stack_pointer, 0);
}

#[test]
fn returning_on_an_empty_stack_faults() {
    let mut cpu = fresh_cpu();
    cpu.memory[0] = 0x00;
    cpu.memory[1] = 0xEE;
    assert_eq!(cpu.run(10), RunOutcome::Fault(CpuFault::StackUnderflow));
}

#[test]
fn endless_recursion_overflows_the_stack() {
    let mut cpu = fresh_cpu();
    // the routine at 0 calls itself
    cpu.memory[0] = 0x20;
    cpu.memory[1] = 0x00;
    assert_eq!(cpu.run(1000), RunOutcome::Fault(CpuFault::StackOverflow));
    assert_eq!(cpu.stack_pointer, 16);
}

#[test]
fn unknown_opcodes_fault() {
    let mut cpu = fresh_cpu();
    cpu.memory[0] = 0xFF;
    cpu.memory[1] = 0xFF;
    assert_eq!(cpu.run(10), RunOutcome::Fault(CpuFault::UnknownOpcode));
}

#[test]
fn run_stops_at_the_step_limit() {
    let mut cpu = fresh_cpu();
    cpu.registers[0] = 1;
    cpu.registers[1] = 1;
    // add, then halt: one step is not enough to reach the halt
    cpu.memory[0] = 0x80;
    cpu.memory[1] = 0x14;
    assert_eq!(cpu.run(1), RunOutcome::StepLimit);
    assert_eq!(cpu.registers[0], 2);
    assert_eq!(cpu.run(1), RunOutcome::Halted);
}

#[test]
fn program_counter_past_memory_faults() {
    let mut cpu = fresh_cpu();
    cpu.pc = 4095;
    assert_eq!(cpu.run(10), RunOutcome::Fault(CpuFault::PcOutOfRange));
}
