//! The interpreter.

use ebpf_lab::isa::{decode_program, MemSize, RawInsn, Reg, Width, JumpOp};
use ebpf_lab::vm::exec::load;
use ebpf_lab::vm::memory::MAP_SCRATCH_BASE;
use ebpf_lab::vm::{
    jump_taken, run_bytes, HelperFn, HelperRegistry, MapDesc, MapType, MemError, RunOutcome, StepResult,
    Vm, VmError,
};

fn run_asm(words: &[[u8; 8]]) -> RunOutcome {
    let bytes: Vec<u8> = words.iter().flatten().copied().collect();
    let insns = decode_program(&bytes).expect("test prog decodes");
    Vm::new(insns).run(10_000)
}

fn w(opcode: u8, dst: u8, src: u8, off: i16, imm: i32) -> [u8; 8] {
    RawInsn { opcode, regs: (src << 4) | dst, offset: off, imm }.to_bytes()
}

/// Single-entry hash for helper tests: fd 1, 4-byte keys, 8-byte
/// values, key `[1,0,0,0]` → value `10` (LE).
fn helper_test_maps() -> Vec<MapDesc> {
    let initial = vec![(vec![1, 0, 0, 0], vec![10, 0, 0, 0, 0, 0, 0, 0])];
    vec![MapDesc {
        fd: 1,
        map_type: MapType::Hash,
        key_size: 4,
        value_size: 8,
        max_entries: 8,
        initial,
    }]
}

/// Run with maps installed: `r1` = fd, `r2` = key pointer baked by the
/// caller, then `call func`, then exit. A value slot and zeroed flags
/// are always prepared so `update` (r3/r4) works too; lookup/delete
/// ignore the extras.
fn run_map_call(fd: i64, key_bytes: &[u8], func: u32) -> RunOutcome {
    // stw keys little-endian into [r10-8); key len ≤ 8 in these tests.
    assert!(key_bytes.len() <= 8);
    let mut key_imm = [0u8; 4];
    let n = key_bytes.len().min(4);
    key_imm[..n].copy_from_slice(&key_bytes[..n]);
    let key_lo = i32::from_le_bytes(key_imm);
    let prog = [
        w(0xb7, 1, 0, 0, i32::try_from(fd).expect("test fd fits")),
        w(0xbf, 2, 10, 0, 0),                 // r2 = r10
        w(0x07, 2, 0, 0, -8),                 // r2 -= 8
        w(0x62, 10, 0, -8, key_lo),           // stw [r10-8], key
        w(0xbf, 3, 10, 0, 0),                 // r3 = r10
        w(0x07, 3, 0, 0, -16),                // r3 -= 16
        w(0x62, 10, 0, -16, 42),              // stw [r10-16], 42 (value lo)
        w(0x62, 10, 0, -12, 0),               // stw [r10-12], 0 (value hi)
        w(0xb7, 4, 0, 0, 0),                  // r4 = 0 (BPF_ANY)
        w(0x85, 0, 0, 0, func as i32), // call func
        w(0x95, 0, 0, 0, 0),
    ];
    let bytes: Vec<u8> = prog.iter().flatten().copied().collect();
    let insns = decode_program(&bytes).expect("test prog decodes");
    Vm::new_with_maps(insns, helper_test_maps()).expect("maps install").run(10_000)
}

#[test]
fn map_lookup_hit_returns_scratch() {
    assert_eq!(run_map_call(1, &[1, 0, 0, 0], 1), Ok(MAP_SCRATCH_BASE));
}

#[test]
fn map_lookup_miss_returns_null() {
    assert_eq!(run_map_call(1, &[9, 0, 0, 0], 1), Ok(0));
}

#[test]
fn map_lookup_bad_fd_returns_null() {
    assert_eq!(run_map_call(99, &[1, 0, 0, 0], 1), Ok(0));
}

#[test]
fn map_update_then_lookup_roundtrip() {
    // Update key 7 → value is opaque to r0 (0 on success); a following
    // lookup in the same VM would hit. Here we only pin the r0 = 0
    // success convention plus bad-fd -1.
    assert_eq!(run_map_call(1, &[7, 0, 0, 0], 2), Ok(0));
    assert_eq!(run_map_call(99, &[7, 0, 0, 0], 2), Ok(-1));
}

#[test]
fn map_delete_missing_returns_neg1() {
    assert_eq!(run_map_call(1, &[9, 0, 0, 0], 3), Ok(-1));
    assert_eq!(run_map_call(99, &[9, 0, 0, 0], 3), Ok(-1));
}

#[test]
fn from_exec_matches_new() {
    let prog = [w(0xb7, 0, 0, 0, 7), w(0x95, 0, 0, 0, 0)];
    let bytes: Vec<u8> = prog.iter().flatten().copied().collect();
    let insns = decode_program(&bytes).expect("test prog decodes");
    let exec = load(&insns);
    let mut vm = Vm::from_exec(insns.clone(), exec);
    assert_eq!(vm.run(10_000), Ok(7));
    // Same program through the normal constructor agrees.
    assert_eq!(Vm::new(insns).run(10_000), Ok(7));
}

#[test]
fn with_helpers_serves_registered_call() {
    let prog = [w(0x85, 0, 0, 0, 9), w(0x95, 0, 0, 0, 0)];
    let bytes: Vec<u8> = prog.iter().flatten().copied().collect();
    let insns = decode_program(&bytes).expect("test prog decodes");
    let mut registry = HelperRegistry::empty();
    registry.insert(9, HelperFn::Constant(42));
    let mut vm = Vm::new(insns).with_helpers(registry);
    assert_eq!(vm.run(10_000), Ok(42));
}

#[test]
fn arithmetic_exits_with_sum() {
    // r1=10; r2=20; r3=r1; r3+=r2; r0=r3; exit
    let prog = [
        w(0xb7, 1, 0, 0, 10),
        w(0xb7, 2, 0, 0, 20),
        w(0xbf, 3, 1, 0, 0),
        w(0x0f, 3, 2, 0, 0),
        w(0xbf, 0, 3, 0, 0),
        w(0x95, 0, 0, 0, 0),
    ];
    assert_eq!(run_asm(&prog), Ok(30));
}

#[test]
fn branch_taken_and_not_taken() {
    // r1=10; r0=1; jeq r1,10,+1; r0=2; exit → taken, r0 stays 1
    let taken = [
        w(0xb7, 1, 0, 0, 10),
        w(0xb7, 0, 0, 0, 1),
        w(0x15, 1, 0, 1, 10),
        w(0xb7, 0, 0, 0, 2),
        w(0x95, 0, 0, 0, 0),
    ];
    assert_eq!(run_asm(&taken), Ok(1));
    // r1=9 → not taken, r0 becomes 2
    let not_taken = [
        w(0xb7, 1, 0, 0, 9),
        w(0xb7, 0, 0, 0, 1),
        w(0x15, 1, 0, 1, 10),
        w(0xb7, 0, 0, 0, 2),
        w(0x95, 0, 0, 0, 0),
    ];
    assert_eq!(run_asm(&not_taken), Ok(2));
}

#[test]
fn bounded_loop_counts_to_ten() {
    // r0=0; r1=0; add r0,1; add r1,1; jlt r1,10,-3; exit (0xa5 = JLT)
    let prog = [
        w(0xb7, 0, 0, 0, 0),
        w(0xb7, 1, 0, 0, 0),
        w(0x07, 0, 0, 0, 1),
        w(0x07, 1, 0, 0, 1),
        w(0xa5, 1, 0, -3, 10),
        w(0x95, 0, 0, 0, 0),
    ];
    assert_eq!(run_asm(&prog), Ok(10));
}

#[test]
fn jlt_and_jle_differ_at_boundary() {
    // r0=0; r1=10; jlt r1,10,+1 (0xa5, not taken); r0=1; exit → 1
    let lt = [
        w(0xb7, 0, 0, 0, 0),
        w(0xb7, 1, 0, 0, 10),
        w(0xa5, 1, 0, 1, 10),
        w(0xb7, 0, 0, 0, 1),
        w(0x95, 0, 0, 0, 0),
    ];
    assert_eq!(run_asm(&lt), Ok(1));
    // Same with jle (0xb5, taken) → skips the mov → 0
    let le = [
        w(0xb7, 0, 0, 0, 0),
        w(0xb7, 1, 0, 0, 10),
        w(0xb5, 1, 0, 1, 10),
        w(0xb7, 0, 0, 0, 1),
        w(0x95, 0, 0, 0, 0),
    ];
    assert_eq!(run_asm(&le), Ok(0));
}

#[test]
fn stack_store_load_roundtrip() {
    // r1=42; stxdw [r10-8], r1; ldxdw r0, [r10-8]; exit
    let prog = [
        w(0xb7, 1, 0, 0, 42),
        w(0x7b, 10, 1, -8, 0),
        w(0x79, 0, 10, -8, 0),
        w(0x95, 0, 0, 0, 0),
    ];
    assert_eq!(run_asm(&prog), Ok(42));
}

#[test]
fn div_by_zero_yields_zero() {
    // r0=7; r0/=0; exit
    let prog = [w(0xb7, 0, 0, 0, 7), w(0x37, 0, 0, 0, 0), w(0x95, 0, 0, 0, 0)];
    assert_eq!(run_asm(&prog), Ok(0));
}

#[test]
fn unknown_helper_errors() {
    let prog = [w(0x85, 0, 0, 0, 1), w(0x95, 0, 0, 0, 0)];
    assert_eq!(run_asm(&prog), Err(VmError::UnknownHelper { func: 1 }));
}

#[test]
fn oob_stack_access_errors() {
    // ldxdw r0, [r10+8]; exit (above the frame pointer)
    let prog = [w(0x79, 0, 10, 8, 0), w(0x95, 0, 0, 0, 0)];
    assert!(matches!(run_asm(&prog), Err(VmError::Memory(_))));
}

#[test]
fn infinite_loop_hits_step_budget() {
    let prog = [w(0x05, 0, 0, -1, 0)]; // ja -1 (self)
    let bytes: Vec<u8> = prog.iter().flatten().copied().collect();
    let insns = decode_program(&bytes).expect("decodes");
    assert_eq!(Vm::new(insns).run(100), Err(VmError::StepsExceeded { limit: 100 }));
}

#[test]
fn alu32_zero_extends() {
    // r0=-1; add32 r0,1 → low word wraps to 0, upper zeroed → 0
    let prog = [w(0xb7, 0, 0, 0, -1), w(0x04, 0, 0, 0, 1), w(0x95, 0, 0, 0, 0)];
    assert_eq!(run_asm(&prog), Ok(0));
}

#[test]
fn endian_swap_be16() {
    // r0=0x1234; end be16 → r0=0x3412
    let prog = [w(0xb7, 0, 0, 0, 0x1234), w(0xdc, 0, 0, 0, 16), w(0x95, 0, 0, 0, 0)];
    assert_eq!(run_asm(&prog), Ok(0x3412));
}

#[test]
fn single_steps() {
    let prog = [w(0xb7, 1, 0, 0, 5), w(0x0f, 0, 1, 0, 0), w(0x95, 0, 0, 0, 0)];
    let bytes: Vec<u8> = prog.iter().flatten().copied().collect();
    let mut vm = Vm::new(decode_program(&bytes).unwrap());
    assert_eq!(vm.step(), StepResult::Continue);
    assert_eq!(vm.pc(), 1);
    assert_eq!(vm.regs().get(Reg(1)), 5);
    assert_eq!(vm.step(), StepResult::Continue);
    assert_eq!(vm.step(), StepResult::Exit(5));
    assert_eq!(vm.insns().len(), 3);
    assert_eq!(vm.regs().as_array()[0], 5);
    assert_eq!(vm.regs().iter().count(), 11);
}

#[test]
fn writes_to_the_frame_pointer_are_ignored() {
    // mov r10, 5; stxdw [r10-8], r10; ldxdw r0, [r10-8]; exit
    let prog = [
        w(0xb7, 10, 0, 0, 5),
        w(0x7b, 10, 10, -8, 0),
        w(0x79, 0, 10, -8, 0),
        w(0x95, 0, 0, 0, 0),
    ];
    assert_eq!(run_asm(&prog), Ok(0x1_0000));
}

#[test]
fn comparisons_by_width_and_sign() {
    assert!(jump_taken(JumpOp::Gt, -1, 1, Width::B64));
    assert!(!jump_taken(JumpOp::Sgt, -1, 1, Width::B64));
    assert!(jump_taken(JumpOp::Eq, 0x1_0000_0005, 5, Width::B32));
    assert!(!jump_taken(JumpOp::Eq, 0x1_0000_0005, 5, Width::B64));
    assert!(jump_taken(JumpOp::Jset, 6, 2, Width::B64));
    assert!(!jump_taken(JumpOp::Jset, 4, 2, Width::B64));
    assert!(!jump_taken(JumpOp::Call, 1, 1, Width::B64));
}

#[test]
fn bytes_run_directly() {
    let bytes = [0xb7u8, 0, 0, 0, 9, 0, 0, 0, 0x95, 0, 0, 0, 0, 0, 0, 0];
    assert_eq!(run_bytes(&bytes, 10), Ok(Ok(9)));
    assert!(run_bytes(&bytes[..9], 10).is_err());
}

#[test]
fn falling_off_the_end_is_out_of_bounds() {
    let prog = [w(0xb7, 0, 0, 0, 1)];
    assert!(matches!(run_asm(&prog), Err(VmError::JumpOutOfBounds { .. })));
}

#[test]
fn error_texts_of_the_machine() {
    assert_eq!(
        VmError::StepsExceeded { limit: 5 }.to_string(),
        "instruction limit of 5 steps exceeded"
    );
    assert_eq!(
        VmError::Memory(MemError::OutOfBounds { addr: 0x30008, size: 8 }).to_string(),
        "out-of-bounds 8-byte access at address 0x30008"
    );
    assert_eq!(MemSize::W.bytes(), 4);
}
