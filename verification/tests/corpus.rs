//! A corpus of small programs, taken through every stage.

use ebpf_lab::cfg::{build_cfg, to_dot, EdgeKind, Pc};
use ebpf_lab::disasm::disassemble;
use ebpf_lab::elf::raw_program;
use ebpf_lab::isa::{
    decode_program, encode_program, EncodeError, Insn, JumpOp, RawInsn, Reg, Width,
};
use ebpf_lab::report::{
    cfg_text, inspect_text, optimize_program, run_line, trace_step, verdict_line,
};
use ebpf_lab::ssa::construct::build_ssa;
use ebpf_lab::ssa::lower::lower;
use ebpf_lab::ssa::opt::optimize;
use ebpf_lab::ssa::{SsaError, SsaInsn};
use ebpf_lab::verify::walk::{verify, verify_traced, verify_with_config, VerifyConfig};
use ebpf_lab::verify::{VerifiedProgram, VerifyError};
use ebpf_lab::vm::exec::{load, ExecInsn};
use ebpf_lab::vm::xdp::{load_xdp, run_xdp, XdpAction};
use ebpf_lab::vm::{
    MapDesc, MapType, MemError, PacketBuffer, RunOutcome, TrapKind, Vm, VmError,
};
use petgraph::graph::NodeIndex;
use petgraph::visit::EdgeRef;

const STEPS: usize = 100_000;

fn w(opcode: u8, dst: u8, src: u8, off: i16, imm: i32) -> [u8; 8] {
    RawInsn { opcode, regs: (src << 4) | dst, offset: off, imm }.to_bytes()
}

/// `mov r1, fd` as a wide load, the key address in `r2` and the key on the
/// stack.
fn map_call(fd: i32, key: i32) -> Vec<[u8; 8]> {
    vec![
        w(0x18, 1, 0, 0, fd),
        w(0x00, 0, 0, 0, 0),
        w(0xbf, 2, 10, 0, 0),
        w(0x07, 2, 0, 0, -8),
        w(0x62, 10, 0, -8, key),
    ]
}

/// A lookup followed by a null check that leaves with 0.
fn guarded(key: i32, rest: &[[u8; 8]]) -> Vec<u8> {
    let mut words = map_call(1, key);
    words.push(w(0x85, 0, 0, 0, 1));
    words.push(w(0x55, 0, 0, 2, 0));
    words.push(w(0xb7, 0, 0, 0, 0));
    words.push(w(0x95, 0, 0, 0, 0));
    words.extend_from_slice(rest);
    words.concat()
}

/// The bytes of a program of the corpus.
fn fixture(name: &str) -> Vec<u8> {
    let counter = |limit: i32| {
        [
            w(0xb7, 0, 0, 0, 0),
            w(0xb7, 1, 0, 0, 0),
            w(0x07, 0, 0, 0, 1),
            w(0x07, 1, 0, 0, 1),
            w(0xa5, 1, 0, -3, limit),
            w(0x95, 0, 0, 0, 0),
        ]
        .concat()
    };
    let branch = |r1: i32| {
        [
            w(0xb7, 1, 0, 0, r1),
            w(0xb7, 0, 0, 0, 1),
            w(0x15, 1, 0, 1, 10),
            w(0xb7, 0, 0, 0, 2),
            w(0x95, 0, 0, 0, 0),
        ]
        .concat()
    };
    match name {
        "mov_exit" => [w(0xb7, 0, 0, 0, 1), w(0x95, 0, 0, 0, 0)].concat(),
        "arith" | "opt_redundant" => [
            w(0xb7, 1, 0, 0, 10),
            w(0xb7, 2, 0, 0, 20),
            w(0xbf, 3, 1, 0, 0),
            w(0x0f, 3, 2, 0, 0),
            w(0xbf, 0, 3, 0, 0),
            w(0x95, 0, 0, 0, 0),
        ]
        .concat(),
        "branch" => branch(10),
        "branch_untaken" => branch(9),
        "diamond" => [
            w(0xb7, 1, 0, 0, 5),
            w(0x15, 1, 0, 2, 10),
            w(0xb7, 0, 0, 0, 1),
            w(0x05, 0, 0, 1, 0),
            w(0xb7, 0, 0, 0, 2),
            w(0x95, 0, 0, 0, 0),
        ]
        .concat(),
        "ldimm" => [
            w(0x18, 2, 0, 0, 0x1122_3344),
            w(0x00, 0, 0, 0, 0x5566_7788),
            w(0x95, 0, 0, 0, 0),
        ]
        .concat(),
        "loop" => counter(10),
        "loop_1000_iters" => counter(1000),
        "stack" => [
            w(0xb7, 1, 0, 0, 42),
            w(0x7b, 10, 1, -8, 0),
            w(0x79, 0, 10, -8, 0),
            w(0x95, 0, 0, 0, 0),
        ]
        .concat(),
        "endian" => [
            w(0xb7, 1, 0, 0, 0x1234),
            w(0xdc, 1, 0, 0, 16),
            w(0xbf, 0, 1, 0, 0),
            w(0x95, 0, 0, 0, 0),
        ]
        .concat(),
        "uninit_read" => [w(0x79, 0, 10, -8, 0), w(0x95, 0, 0, 0, 0)].concat(),
        "oob_jump" => [w(0x05, 0, 0, 100, 0), w(0x95, 0, 0, 0, 0)].concat(),
        "illegal" => [w(0x00, 0, 0, 0, 0), w(0x95, 0, 0, 0, 0)].concat(),
        "misaligned" => [
            w(0xb7, 0, 0, 0, 1),
            w(0x63, 10, 0, -7, 0),
            w(0x95, 0, 0, 0, 0),
        ]
        .concat(),
        "join_uninit" => [
            w(0xb7, 1, 0, 0, 5),
            w(0x15, 1, 0, 1, 5),
            w(0x05, 0, 0, 1, 0),
            w(0x7b, 10, 1, -8, 0),
            w(0x79, 0, 10, -8, 0),
            w(0x95, 0, 0, 0, 0),
        ]
        .concat(),
        "helper_prandom" => [
            w(0x85, 0, 0, 0, 43),
            w(0x7b, 10, 0, -8, 0),
            w(0x79, 0, 10, -8, 0),
            w(0x95, 0, 0, 0, 0),
        ]
        .concat(),
        "helper_ktime" => [w(0x85, 0, 0, 0, 5), w(0x95, 0, 0, 0, 0)].concat(),
        "helper_printk" => [
            w(0xb7, 1, 0, 0, 1),
            w(0xb7, 2, 0, 0, 4),
            w(0x85, 0, 0, 0, 6),
            w(0x95, 0, 0, 0, 0),
        ]
        .concat(),
        "map_hash_lookup" => {
            let mut words = map_call(1, 1);
            words.extend_from_slice(&[w(0x85, 0, 0, 0, 1), w(0x95, 0, 0, 0, 0)]);
            words.concat()
        },
        "map_bad_fd" => {
            let mut words = map_call(99, 1);
            words.extend_from_slice(&[w(0x85, 0, 0, 0, 1), w(0x95, 0, 0, 0, 0)]);
            words.concat()
        },
        "map_array_update" => {
            let mut words = map_call(2, 1);
            words.extend_from_slice(&[
                w(0xbf, 3, 10, 0, 0),
                w(0x07, 3, 0, 0, -16),
                w(0x62, 10, 0, -16, 7),
                w(0xb7, 4, 0, 0, 0),
                w(0x85, 0, 0, 0, 2),
                w(0x95, 0, 0, 0, 0),
            ]);
            words.concat()
        },
        "map_guarded_value_access" => guarded(
            1,
            &[w(0x62, 0, 0, 0, 0x1234), w(0x61, 0, 0, 0, 0), w(0x95, 0, 0, 0, 0)],
        ),
        "map_lookup_null_load" => {
            let mut words = map_call(1, 9);
            words.extend_from_slice(&[
                w(0x85, 0, 0, 0, 1),
                w(0x79, 0, 0, 0, 0),
                w(0x95, 0, 0, 0, 0),
            ]);
            words.concat()
        },
        "map_value_oob" => guarded(1, &[w(0x79, 0, 0, 8, 0), w(0x95, 0, 0, 0, 0)]),
        "map_value_misaligned" => guarded(1, &[w(0x61, 0, 0, 1, 0), w(0x95, 0, 0, 0, 0)]),
        "xdp_pass" => [w(0xb7, 0, 0, 0, 2), w(0x95, 0, 0, 0, 0)].concat(),
        "xdp_drop" => [w(0xb7, 0, 0, 0, 1), w(0x95, 0, 0, 0, 0)].concat(),
        "xdp_ethertype_pass" => [
            w(0x61, 2, 1, 0, 0),
            w(0x61, 3, 1, 4, 0),
            w(0xbf, 4, 2, 0, 0),
            w(0x07, 4, 0, 0, 14),
            w(0x2d, 4, 3, 4, 0),
            w(0x69, 5, 2, 12, 0),
            w(0x55, 5, 0, 2, 8),
            w(0xb7, 0, 0, 0, 2),
            w(0x95, 0, 0, 0, 0),
            w(0xb7, 0, 0, 0, 1),
            w(0x95, 0, 0, 0, 0),
        ]
        .concat(),
        "xdp_unguarded_access" => [
            w(0x61, 2, 1, 0, 0),
            w(0x61, 0, 2, 60, 0),
            w(0x95, 0, 0, 0, 0),
        ]
        .concat(),
        "xdp_store_rejected" => [
            w(0x61, 2, 1, 0, 0),
            w(0x62, 2, 0, 0, 1),
            w(0xb7, 0, 0, 0, 2),
            w(0x95, 0, 0, 0, 0),
        ]
        .concat(),
        "opt_copy_chain" => [
            w(0xb7, 1, 0, 0, 7),
            w(0xbf, 2, 1, 0, 0),
            w(0xbf, 3, 2, 0, 0),
            w(0xbf, 0, 3, 0, 0),
            w(0x95, 0, 0, 0, 0),
        ]
        .concat(),
        "opt_dead_code" => [
            w(0xb7, 1, 0, 0, 99),
            w(0xb7, 0, 0, 0, 1),
            w(0x95, 0, 0, 0, 0),
        ]
        .concat(),
        "opt_branch_preserved" => [
            w(0xb7, 1, 0, 0, 5),
            w(0x15, 1, 0, 3, 5),
            w(0xb7, 0, 0, 0, 10),
            w(0x07, 0, 0, 0, 5),
            w(0x05, 0, 0, 2, 0),
            w(0xb7, 0, 0, 0, 20),
            w(0x07, 0, 0, 0, 5),
            w(0x95, 0, 0, 0, 0),
        ]
        .concat(),
        _ => panic!("no program {name}"),
    }
}

const CORPUS: [&str; 34] = [
    "mov_exit", "arith", "opt_redundant", "branch", "branch_untaken", "diamond", "ldimm", "loop",
    "loop_1000_iters", "stack", "endian", "uninit_read", "oob_jump", "illegal", "misaligned",
    "join_uninit", "helper_prandom", "helper_ktime", "helper_printk", "map_hash_lookup",
    "map_bad_fd", "map_array_update", "map_guarded_value_access", "map_lookup_null_load",
    "map_value_oob", "map_value_misaligned", "xdp_pass", "xdp_drop", "xdp_ethertype_pass",
    "xdp_unguarded_access", "xdp_store_rejected", "opt_copy_chain", "opt_dead_code",
    "opt_branch_preserved",
];

fn decode(name: &str) -> Vec<Insn> {
    decode_program(&fixture(name)).expect("program decodes")
}

/// A packet of 54 bytes with the given ethertype.
fn packet(ethertype: u16) -> Vec<u8> {
    let mut p = vec![0u8; 54];
    p[12..14].copy_from_slice(&ethertype.to_be_bytes());
    p[14] = 0x45;
    p[23] = 6;
    p
}

/// Descriptor 1 is a hash (key 4, value 8) with key `1` and value `10`;
/// descriptor 2 is an array (key 4, value 4) of zeros.
fn test_maps() -> Vec<MapDesc> {
    vec![
        MapDesc {
            fd: 1,
            map_type: MapType::Hash,
            key_size: 4,
            value_size: 8,
            max_entries: 256,
            initial: vec![(vec![1, 0, 0, 0], vec![10, 0, 0, 0, 0, 0, 0, 0])],
        },
        MapDesc {
            fd: 2,
            map_type: MapType::Array,
            key_size: 4,
            value_size: 4,
            max_entries: 16,
            initial: Vec::new(),
        },
    ]
}

/// The outcome of a verification, with the error as text.
fn verify_insns(insns: &[Insn], config: &VerifyConfig) -> Result<VerifiedProgram, VerifyError> {
    let cfg = build_cfg(insns).unwrap();
    verify_with_config(insns, &cfg, config)
}

fn verify_fixture(name: &str) -> Result<VerifiedProgram, VerifyError> {
    let insns = decode(name);
    let cfg = build_cfg(&insns).unwrap();
    verify(&insns, &cfg)
}

fn verify_fixture_with_maps(name: &str) -> Result<VerifiedProgram, VerifyError> {
    verify_insns(&decode(name), &VerifyConfig::with_maps(test_maps()))
}

/// Fault equality up to renumbering: positions and jump targets shift when
/// instructions come and go.
fn same_fault(a: &VmError, b: &VmError) -> bool {
    match (a, b) {
        (VmError::IllegalInstruction { .. }, VmError::IllegalInstruction { .. })
        | (VmError::JumpOutOfBounds { .. }, VmError::JumpOutOfBounds { .. }) => true,
        (VmError::UnknownHelper { func: f1 }, VmError::UnknownHelper { func: g1 }) => f1 == g1,
        (
            VmError::InvalidEndWidth { width: w1, .. },
            VmError::InvalidEndWidth { width: w2, .. },
        ) => w1 == w2,
        (VmError::StepsExceeded { limit: l1 }, VmError::StepsExceeded { limit: l2 }) => l1 == l2,
        (VmError::Memory(m1), VmError::Memory(m2)) => m1 == m2,
        _ => false,
    }
}

fn same_outcome(a: &RunOutcome, b: &RunOutcome) -> bool {
    match (a, b) {
        (Ok(x), Ok(y)) => x == y,
        (Err(e1), Err(e2)) => same_fault(e1, e2),
        _ => false,
    }
}

/// A program after the optimizer, or `None` if a stage refuses it.
fn optimize_bytes(bytes: &[u8]) -> Option<Vec<Insn>> {
    let insns = decode_program(bytes).ok()?;
    let (_, out) = optimize_program(&insns).ok()?;
    decode_program(&out).ok()
}

/// Programs that once exposed a wrong pass: the optimized program must do
/// what the given one does.
fn crasher_cases() -> Vec<(&'static str, Vec<u8>)> {
    let entry_loop: Vec<u8> = [
        [0xb7, 0, 0, 0, 0, 0, 0, 0],
        [0x07, 1, 0, 0, 1, 0, 0, 0],
        [0xa5, 1, 0xfd, 0xff, 10, 0, 0, 0],
        [0x95, 0, 0, 0, 0, 0, 0, 0],
    ]
    .concat();
    let bad_end: Vec<u8> =
        [[0xb7, 0, 0, 0, 0x78, 0x56, 0x34, 0x12], [0xd7, 0, 0, 0, 0, 0, 0, 0]].concat();
    let entry_loop_mod: Vec<u8> = vec![
        183, 0, 0, 148, 148, 148, 148, 148, 148, 148, 148, 148, 148, 148, 148, 148, 148, 148, 148,
        148, 148, 148, 148, 148, 148, 148, 148, 148, 148, 148, 148, 148, 148, 148, 148, 148, 148,
        148, 148, 148, 148, 148, 148, 0, 0, 0, 0, 0, 182, 1, 0, 0, 0, 0, 43, 0, 7, 0, 32, 0, 1, 0,
        0, 0, 7, 1, 0, 0, 1, 0, 3, 0, 165, 1, 253, 255, 232, 3, 0, 16, 149, 0, 128, 0, 0, 0, 0, 0,
    ];
    // Two-block loop (`jle` into a body/latch pair): sealing the latch
    // before the body filled orphaned the body adds (stale backedge).
    let two_block_loop: Vec<u8> = vec![
        183, 0, 0, 148, 148, 148, 148, 148, 148, 148, 148, 148, 148, 148, 148, 148, 156, 148, 148,
        148, 148, 148, 148, 148, 148, 148, 148, 148, 148, 148, 148, 148, 148, 148, 148, 148, 148,
        148, 148, 148, 148, 148, 148, 0, 0, 0, 0, 0, 182, 1, 2, 0, 0, 0, 43, 0, 7, 0, 32, 0, 1, 0,
        0, 0, 7, 1, 0, 0, 1, 0, 3, 0, 165, 1, 253, 255, 232, 3, 0, 0, 149, 0, 128, 0, 0, 0, 0, 0,
    ];
    let loop_empty_tail: Vec<u8> = vec![
        183, 0, 0, 0, 0, 0, 0, 0, 183, 1, 0, 0, 0, 0, 0, 0, 7, 0, 0, 0, 1, 0, 0, 0, 7, 1, 0, 0, 3,
        0, 0, 0, 165, 1, 253, 255, 10, 0, 0, 0, 7, 0, 0, 0, 0, 0, 0, 0,
    ];
    // Bad-width `End` into `r10`: dropping the ignored write erased its
    // fault (fall-off-end instead of `InvalidEndWidth`).
    let r10_bad_end: Vec<u8> = vec![
        183, 1, 0, 6, 136, 86, 50, 18, 223, 1, 0, 38, 32, 0, 0, 0, 191, 16, 0, 0, 0, 0, 0, 0, 183,
        1, 0, 0, 120, 86, 50, 18, 215, 10, 0, 0, 0, 0, 0, 0, 191, 16, 0, 44, 0, 0, 2, 0, 108, 0, 0,
        0, 0, 9, 0, 0,
    ];
    // A long-but-bounded loop (1768 iterations) whose lowered form
    // needs more steps per iteration than the base budget allows: both
    // sides exit 0 at the oracle's wider budget.
    let slow_loop: Vec<u8> = vec![
        183, 0, 0, 0, 0, 0, 0, 0, 183, 1, 0, 0, 0, 0, 0, 0, 47, 0, 0, 0, 1, 0, 0, 0, 7, 1, 0, 0, 1,
        0, 0, 0, 165, 1, 253, 255, 232, 6, 0, 0, 149, 0, 0, 0, 0, 0, 0, 0,
    ];
    // A `mov32` chain whose zero-extension folding dropped (exit-code
    // divergence: sign-extended where the VM zero-extends).
    let mov32_chain: Vec<u8> = vec![
        21, 1, 3, 0, 10, 0, 0, 0, 183, 8, 0, 0, 1, 0, 180, 66, 180, 180, 180, 180, 180, 180, 180,
        180, 180, 178, 180, 180, 180, 180, 180, 180, 180, 180, 180, 180, 180, 180, 50, 180, 180,
        180, 180, 180, 180, 180, 180, 180, 180, 180, 180, 180, 20, 0, 0, 0, 191, 19, 0, 0, 0, 0, 0,
        0, 15, 35, 0, 0, 0, 0, 0, 0, 191, 48, 0, 0, 0, 0, 0, 0, 149, 0, 0, 0, 0, 0, 0, 0, 0, 0, 0,
        0, 0, 0, 0, 0, 149, 0, 0, 0, 0, 0, 0, 0,
    ];
    // A chained phi-move pair (`r3←r2, r2←r0`) whose emission order
    // read back the clobbered source (wrong branch, wrong fault
    // address).
    let chained_moves: Vec<u8> = vec![
        102, 5, 2, 0, 8, 0, 97, 19, 7, 4, 0, 0, 14, 210, 0, 0, 37, 52, 2, 0, 0, 0, 0, 0, 7, 0, 0,
        0, 0, 0, 0, 0, 1, 4, 0, 0, 14, 210, 0, 0, 37, 52, 2, 0, 0, 0, 0, 0, 105, 37, 12, 0, 0, 0,
        0, 0, 21, 5, 2, 0, 8, 0, 97, 19, 4, 5, 2, 0, 8, 8, 0, 97, 19, 4, 0, 0, 0, 1, 0, 39, 39, 10,
        0, 0, 0, 39, 39, 39, 39, 39, 39, 39, 18, 93, 0, 0,
    ];
    // Two-block loops through the entry (`jlt` back to 0 with a
    // never-taken `Exit`-op branch, plain `jle`): the counter phi
    // resolved to itself instead of the backedge value.
    let entry_loop_exitop: Vec<u8> = vec![
        150, 1, 0, 0, 1, 0, 0, 32, 7, 1, 0, 0, 1, 0, 3, 0, 165, 1, 253, 255, 3, 232, 0, 39, 149, 0,
        0, 0, 0, 0, 0, 0,
    ];
    let entry_loop_jle: Vec<u8> = vec![
        181, 0, 0, 0, 0, 0, 0, 0, 7, 1, 0, 0, 1, 0, 0, 38, 165, 1, 253, 255, 232, 3, 0, 48, 149, 0,
        0, 0, 0, 50, 0, 0,
    ];
    // A call-shuffle temp save inside a loop: the global remap leaked
    // the temp home into loop moves on paths bypassing the call (the
    // counter never advanced). Saves now restore after the call.
    let call_save_loop: Vec<u8> = vec![
        14, 0, 4, 0, 0, 202, 0, 0, 2, 0, 0, 0, 0, 0, 0, 0, 182, 1, 0, 0, 0, 0, 0, 0, 7, 0, 0, 0, 1,
        0, 0, 0, 7, 1, 0, 0, 1, 0, 0, 0, 165, 1, 253, 255, 232, 3, 0, 0, 133, 0, 0, 0, 0, 0, 0, 0,
        7, 1, 196, 0, 1, 0, 0, 0, 149, 48, 0, 0, 0, 0, 0, 0,
    ];
    // A loop-invariant register read through a sealing latch: the
    // single-predecessor shortcut followed the latch's memoized
    // incomplete phi (self-input), which copy propagation then
    // collapsed onto a dead block's placeholder — the infinite loop
    // exited `Ok(1000)`. The shortcut now skips predecessors under
    // seal, minting a real header merge (and DCE skips `usize::MAX`
    // def sites instead of indexing them: this input panicked there
    // first).
    let sealing_loop: Vec<u8> = vec![
        183, 0, 0, 255, 232, 3, 0, 0, 108, 8, 128, 0, 1, 0, 3, 0, 165, 1, 253, 255, 232, 3, 0, 0,
        149, 0, 128, 0, 24, 1, 0, 199, 199, 85, 199, 199, 4, 199, 133, 85, 85, 85, 251, 255, 85,
        85, 85, 0, 1, 0, 0, 0, 0, 4, 97, 3, 1, 0, 0, 0, 0, 0, 0, 199, 0, 8, 0, 0, 0, 0, 0, 249,
    ];
    // A `Br` whose false side is absent (`None` → fall-off) under a
    // layout where the taken side is the next emitting block: the old
    // inversion arm emitted `jge → FallOff` (an out-of-bounds jump),
    // because `FallOff` was never checked before inverting. The other
    // half of the same fix: the layout neighbour must also be a live
    // successor (`entry_loop_mod` pins the trampoline case where it is).
    let falloff_invert: Vec<u8> = vec![
        183, 248, 0, 0, 0, 0, 0, 254, 183, 1, 0, 0, 0, 0, 0, 0, 7, 55, 0, 0, 1, 0, 0, 0, 6, 1, 1,
        0, 0, 0, 0, 0, 93, 1, 253, 255, 10, 0, 0, 0, 7, 1, 6, 0, 0, 0, 0, 0, 165, 1, 253, 255, 10,
        0, 0, 0,
    ];
    // A two-use value read at the same flat position as a later
    // definition shared its home: the reader's live range ended at `pos`
    // (exclusive), so the def at `pos` evicted it and `add r2, r2`
    // clobbered its own rhs (wrong branch, memory fault instead of the
    // source's fall-off jump). Uses now end at `pos + 1`; a BinOp result
    // may still share its own lhs's home (read-before-write), pinned by
    // `ten_live_straight_line_fits`.
    let same_pos_clobber: Vec<u8> = vec![
        102, 5, 2, 0, 8, 0, 97, 19, 4, 0, 0, 0, 0, 0, 16, 0, 191, 0, 8, 36, 0, 0, 0, 0, 15, 4, 0,
        0, 14, 210, 0, 0, 46, 52, 2, 0, 0, 0, 0, 0, 105, 37, 12, 0, 0, 0, 0, 0, 21, 5, 2, 0, 8, 0,
        97, 19, 4, 5, 2, 0, 165, 167, 167, 167, 167, 167, 167, 167, 167, 167, 167, 167, 167, 167,
        167, 167, 167, 167, 167, 167, 167, 167, 167, 167, 18, 0, 0, 0,
    ];
    // A successor-less DCE-emptied tail block still emits a synthesized
    // fall-off jump, but `block_emits` read it as empty, so an earlier
    // `Br` inverted its condition to a slot the tail did not own — the
    // source's load fault became a fall-off jump. `block_emits` is now
    // `true` for every queried (live) block.
    let empty_tail_invert: Vec<u8> = vec![
        183, 1, 0, 128, 0, 0, 0, 0, 5, 0, 2, 0, 0, 0, 7, 3, 1, 0, 0, 0, 0, 0, 0, 0, 165, 1, 253,
        255, 10, 0, 0, 0, 157, 0, 252, 255, 255, 0, 0, 0, 165, 0, 252, 255, 255, 255, 255, 255, 23,
        0, 0, 35, 0, 64, 0, 4,
    ];
    vec![
        ("entry_loop", entry_loop),
        ("bad_end", bad_end),
        ("entry_loop_mod", entry_loop_mod),
        ("two_block_loop", two_block_loop),
        ("loop_empty_tail", loop_empty_tail),
        ("r10_bad_end", r10_bad_end),
        ("slow_loop", slow_loop),
        ("mov32_chain", mov32_chain),
        ("chained_moves", chained_moves),
        ("entry_loop_exitop", entry_loop_exitop),
        ("entry_loop_jle", entry_loop_jle),
        ("call_save_loop", call_save_loop),
        ("sealing_loop", sealing_loop),
        ("falloff_invert", falloff_invert),
        ("same_pos_clobber", same_pos_clobber),
        ("empty_tail_invert", empty_tail_invert),
    ]
}

#[test]
fn accepts_valid_fixtures() {
    for name in [
        "mov_exit", "arith", "branch", "branch_untaken", "diamond", "stack", "loop",
        "loop_1000_iters", "helper_prandom", "helper_ktime", "helper_printk", "endian",
    ] {
        verify_fixture(name).unwrap_or_else(|e| panic!("{name} should verify: {}", e.to_string()));
    }
}

#[test]
fn accepts_loop_bounded() {
    let result = verify_fixture("loop").expect("loop should verify");
    assert!(result.total_pc >= 6);
}

#[test]
fn accepts_loop_1000_iters() {
    let result = verify_fixture("loop_1000_iters").expect("loop_1000_iters should verify");
    assert!(result.total_pc >= 6);
}

#[test]
fn accepts_helper_prandom() {
    verify_fixture("helper_prandom").expect("helper_prandom should verify");
}

#[test]
fn accepts_helper_ktime() {
    verify_fixture("helper_ktime").expect("helper_ktime should verify");
}

#[test]
fn accepts_helper_printk() {
    verify_fixture("helper_printk").expect("helper_printk should verify");
}

#[test]
fn rejects_map_call_with_uninit_fd() {
    // r1 never written: the fd cannot resolve.
    let bytes = [
        0x85u8, 0, 0, 0, 1, 0, 0, 0, // call 1
        0x95, 0, 0, 0, 0, 0, 0, 0, // exit
    ];
    let insns = decode_program(&bytes).unwrap();
    let err = verify_insns(&insns, &VerifyConfig::with_maps(test_maps())).unwrap_err();
    assert!(matches!(err, VerifyError::UninitRegister { reg: 1, .. }));
}

#[test]
fn rejects_map_call_with_pointer_fd() {
    // r1 is a stack pointer, not a scalar fd.
    let bytes = [
        0xbfu8, 0xa1, 0, 0, 0, 0, 0, 0, // mov r1, r10
        0x85, 0, 0, 0, 1, 0, 0, 0, // call 1
        0x95, 0, 0, 0, 0, 0, 0, 0, // exit
    ];
    let insns = decode_program(&bytes).unwrap();
    let err = verify_insns(&insns, &VerifyConfig::with_maps(test_maps())).unwrap_err();
    assert!(matches!(err, VerifyError::TypeMismatch { .. }));
}

#[test]
fn fuzzy_fd_degrades_to_top() {
    // Diamond merges r1 = 1 and r1 = 2, so the fd is [1, 2]: lookup
    // cannot tie to one descriptor and returns Top, which still verifies.
    let bytes = [
        0xb7u8, 0x02, 0, 0, 10, 0, 0, 0, // mov r2, 10
        0x15, 0x02, 1, 0, 10, 0, 0, 0, // jeq r2, 10, +1 (taken)
        0xb7, 0x01, 0, 0, 2, 0, 0, 0, // mov r1, 2 (fallthrough arm)
        0xb7, 0x01, 0, 0, 1, 0, 0, 0, // mov r1, 1 (taken arm lands here)
        0xbf, 0xa2, 0, 0, 0, 0, 0, 0, // mov r2, r10
        0x07, 0x02, 0, 0, 0xf8, 0xff, 0xff, 0xff, // add r2, -8
        0x62, 0x0a, 0xf8, 0xff, 1, 0, 0, 0, // stw [r10-8], 1 (key)
        0x85, 0, 0, 0, 1, 0, 0, 0, // call 1
        0x95, 0, 0, 0, 0, 0, 0, 0, // exit
    ];
    let insns = decode_program(&bytes).unwrap();
    verify_insns(&insns, &VerifyConfig::with_maps(test_maps()))
        .expect("fuzzy fd should degrade gracefully");
}

#[test]
fn no_trace_verdict_matches() {
    for name in ["mov_exit", "loop", "loop_1000_iters", "helper_prandom"] {
        let insns = decode(name);
        let cfg = build_cfg(&insns).unwrap();
        let traced =
            verify_traced(&insns, &cfg, &VerifyConfig::default()).expect("should verify");
        let config =
            VerifyConfig { widening_threshold: 16, maps: Vec::new(), packet_len: None };
        let untraced =
            verify_with_config(&insns, &cfg, &config).expect("should verify without trace");
        assert_eq!(traced.total_pc, untraced.total_pc, "{name} pc count diverged");
        assert!(untraced.trace.is_empty(), "{name} trace should be empty");
        assert!(!traced.trace.is_empty());
    }
}

#[test]
fn accepts_map_hash_lookup() {
    verify_fixture_with_maps("map_hash_lookup").expect("map_hash_lookup should verify");
}

#[test]
fn accepts_map_array_update() {
    verify_fixture_with_maps("map_array_update").expect("map_array_update should verify");
}

#[test]
fn rejects_map_bad_fd() {
    assert!(matches!(
        verify_fixture_with_maps("map_bad_fd"),
        Err(VerifyError::BadMapFd { fd: 99, .. })
    ));
}

#[test]
fn rejects_map_call_without_maps() {
    // No descriptors installed: even fd 1 is unknown.
    assert!(matches!(verify_fixture("map_hash_lookup"), Err(VerifyError::BadMapFd { .. })));
}

#[test]
fn rejects_map_lookup_with_uninit_key() {
    let bytes = [
        0x18u8, 0x01, 0, 0, 1, 0, 0, 0, 0, 0, 0, 0, 0, 0, 0, 0, // ldimm r1, 1
        0xbf, 0xa2, 0, 0, 0, 0, 0, 0, // mov r2, r10
        0x85, 0, 0, 0, 1, 0, 0, 0, // call 1
        0x95, 0, 0, 0, 0, 0, 0, 0, // exit
    ];
    let insns = decode_program(&bytes).unwrap();
    let err = verify_insns(&insns, &VerifyConfig::with_maps(test_maps())).unwrap_err();
    assert!(matches!(
        err,
        VerifyError::StackOverflow { .. } | VerifyError::UninitStackRead { .. }
    ));
}

#[test]
fn accepts_computed_stack_pointer() {
    let bytes = [
        0xb7u8, 0x00, 0, 0, 0, 0, 0, 0, // mov r0, 0 (exit code seed)
        0xbf, 0xa2, 0, 0, 0, 0, 0, 0, // mov r2, r10
        0x07, 0x02, 0, 0, 0xf8, 0xff, 0xff, 0xff, // add r2, -8
        0x62, 0x02, 0, 0, 42, 0, 0, 0, // stw [r2+0], 42
        0x61, 0x20, 0, 0, 0, 0, 0, 0, // ldxw r0, [r2+0]
        0x95, 0, 0, 0, 0, 0, 0, 0, // exit
    ];
    let insns = decode_program(&bytes).unwrap();
    let cfg = build_cfg(&insns).unwrap();
    let result = verify(&insns, &cfg).expect("computed pointer should verify");
    assert_eq!(result.total_pc, 6);
}

#[test]
fn exit_requires_initialized_r0() {
    assert!(matches!(verify_fixture("ldimm"), Err(VerifyError::UninitRegister { reg: 0, .. })));
}

#[test]
fn rejects_uninit_read() {
    assert!(matches!(verify_fixture("uninit_read"), Err(VerifyError::UninitStackRead { .. })));
}

#[test]
fn rejects_illegal() {
    assert!(matches!(verify_fixture("illegal"), Err(VerifyError::IllegalInstruction { .. })));
}

#[test]
fn fixtures_rejects_misaligned() {
    assert!(matches!(verify_fixture("misaligned"), Err(VerifyError::MisalignedAccess { .. })));
}

#[test]
fn join_rejects_partially_initialized_merge() {
    // The taken path stores to [r10-8], the fallthrough path does not; both
    // merge at the load.
    assert!(matches!(verify_fixture("join_uninit"), Err(VerifyError::UninitStackRead { .. })));
}

#[test]
fn map_fixtures_verify_and_run_memory_clean() {
    for name in ["map_hash_lookup", "map_array_update", "map_guarded_value_access"] {
        verify_fixture_with_maps(name)
            .unwrap_or_else(|e| panic!("{name} should verify: {}", e.to_string()));
        let mut vm = Vm::new_with_maps(decode(name), test_maps()).unwrap();
        assert!(!matches!(vm.run(10_000), Err(VmError::Memory(_))), "{name} faulted");
    }
    let mut vm =
        Vm::new_with_maps(decode("map_guarded_value_access"), test_maps()).unwrap();
    assert_eq!(vm.run(10_000), Ok(0x1234));
}

#[test]
fn rejected_map_value_fixtures_agree_with_vm() {
    for (name, verdict, runtime) in [
        (
            "map_lookup_null_load",
            "null map pointer access",
            "out-of-bounds 8-byte access at address 0x0",
        ),
        (
            "map_value_oob",
            "map value out of bounds",
            "out-of-bounds 8-byte access at address 0x30008",
        ),
        (
            "map_value_misaligned",
            "misaligned 4-byte access",
            "misaligned 4-byte access at address 0x30001",
        ),
    ] {
        let err = verify_fixture_with_maps(name).unwrap_err();
        assert!(err.to_string().contains(verdict), "{name}: {}", err.to_string());
        let mut vm = Vm::new_with_maps(decode(name), test_maps()).unwrap();
        let err = vm.run(10_000).unwrap_err();
        assert!(matches!(err, VmError::Memory(_)));
        assert!(err.to_string().contains(runtime), "{name}: {}", err.to_string());
    }
}

#[test]
fn accepted_fixtures_run_memory_clean() {
    for name in [
        "mov_exit", "arith", "branch", "branch_untaken", "diamond", "stack", "loop",
        "loop_1000_iters", "helper_prandom", "helper_ktime", "helper_printk", "endian",
    ] {
        verify_fixture(name).unwrap_or_else(|e| panic!("{name} should verify: {}", e.to_string()));
        assert!(!matches!(Vm::new(decode(name)).run(10_000), Err(VmError::Memory(_))));
    }
}

#[test]
fn xdp_fixtures_verify_and_run_memory_clean() {
    for (name, packet_len) in [("xdp_pass", 64), ("xdp_drop", 64), ("xdp_ethertype_pass", 54)] {
        let insns = decode(name);
        verify_insns(&insns, &VerifyConfig::with_packet_len(packet_len))
            .unwrap_or_else(|e| panic!("{name} should verify: {}", e.to_string()));
        let packet = vec![0u8; packet_len];
        let action = run_xdp(insns, &packet, Vec::new(), 10_000)
            .unwrap_or_else(|e| panic!("{name} should run: {}", e.to_string()));
        assert!(matches!(action, XdpAction::Pass | XdpAction::Drop | XdpAction::Aborted));
    }
}

#[test]
fn rejected_xdp_fixtures_agree_with_vm() {
    for (name, packet_len, verdict, runtime) in [
        ("xdp_unguarded_access", 54, "packet out of bounds", "out-of-bounds"),
        ("xdp_store_rejected", 54, "packet out of bounds", "out-of-bounds"),
    ] {
        let insns = decode(name);
        let err = verify_insns(&insns, &VerifyConfig::with_packet_len(packet_len)).unwrap_err();
        assert!(err.to_string().contains(verdict), "{name}: {}", err.to_string());
        let packet = vec![0u8; packet_len];
        let mut vm = Vm::new(insns);
        vm.install_xdp_packet(PacketBuffer::from(packet.as_slice()));
        let err = vm.run(10_000).unwrap_err();
        assert!(matches!(err, VmError::Memory(_)));
        assert!(err.to_string().contains(runtime), "{name}: {}", err.to_string());
    }
}

#[test]
fn exec_stays_compact() {
    assert!(std::mem::size_of::<ExecInsn>() <= 24, "ExecInsn grew");
}

#[test]
fn branch_targets_resolve_absolute() {
    // jeq at decoded 2 targets decoded 4 (exit).
    let exec = load(&decode("branch"));
    assert_eq!(
        exec[2],
        ExecInsn::JumpImm {
            width: Width::B64,
            op: JumpOp::Eq,
            dst: Reg(1),
            imm: 10,
            target: 4,
        }
    );
    assert_eq!(exec[4], ExecInsn::Exit);
}

#[test]
fn loop_back_edge_resolves() {
    let exec = load(&decode("loop"));
    assert!(matches!(exec[4], ExecInsn::JumpImm { target: 2, op: JumpOp::Lt, .. }));
}

#[test]
fn wide_load_shifts_targets() {
    // ld_imm_dw (slots 0-1); mov (slot 2); ja +1 at slot 3 -> slot 5;
    // mov (slot 4); exit (slot 5) = decoded 4.
    let lo = (0x1122_3344u32 as i32).to_le_bytes();
    let hi = (0x5566_7788u32 as i32).to_le_bytes();
    let mut raw = vec![0x18u8, 0x02, 0, 0, lo[0], lo[1], lo[2], lo[3]];
    raw.extend_from_slice(&[0x00, 0x00, 0, 0, hi[0], hi[1], hi[2], hi[3]]);
    raw.extend_from_slice(&[0xb7, 0x00, 0, 0, 1, 0, 0, 0]); // slot 2: mov r0,1
    raw.extend_from_slice(&[0x05, 0x00, 1, 0, 0, 0, 0, 0]); // slot 3: ja +1
    raw.extend_from_slice(&[0xb7, 0x00, 0, 0, 2, 0, 0, 0]); // slot 4: mov r0,2
    raw.extend_from_slice(&[0x95, 0, 0, 0, 0, 0, 0, 0]); // slot 5: exit
    let insns = decode_program(&raw).expect("decodes");
    let exec = load(&insns);
    assert_eq!(exec[2], ExecInsn::JumpAlways { target: 4 });
}

#[test]
fn invalid_programs_become_traps() {
    // ja +100 past the end
    let raw = [0x05u8, 0x00, 100, 0, 0, 0, 0, 0, 0x95, 0, 0, 0, 0, 0, 0, 0];
    let insns = decode_program(&raw).expect("decodes");
    let exec = load(&insns);
    assert!(matches!(exec[0], ExecInsn::Trap(TrapKind::OobJump { .. })));
    // bad End width (0xdc with imm 7)
    let raw = [0xdcu8, 0x00, 0, 0, 7, 0, 0, 0, 0x95, 0, 0, 0, 0, 0, 0, 0];
    let insns = decode_program(&raw).expect("decodes");
    let exec = load(&insns);
    assert!(matches!(exec[0], ExecInsn::Trap(TrapKind::BadEndWidth { .. })));
}

#[test]
fn all_fixtures_trap_free() {
    for name in
        ["mov_exit", "arith", "branch", "branch_untaken", "diamond", "ldimm", "loop", "stack"]
    {
        let exec = load(&decode(name));
        assert!(!exec.iter().any(|e| matches!(e, ExecInsn::Trap(_))), "trap lowered");
    }
}

#[test]
fn fixture_exit_codes() {
    assert_eq!(Vm::new(decode("branch_untaken")).run(100), Ok(2));
    assert_eq!(Vm::new(decode("diamond")).run(100), Ok(1));
}

#[test]
fn invalid_fixtures_trap_at_load() {
    let exec = load(&decode("oob_jump"));
    assert!(matches!(exec[0], ExecInsn::Trap(TrapKind::OobJump { .. })));
    let exec = load(&decode("illegal"));
    assert!(matches!(exec[0], ExecInsn::Trap(TrapKind::Illegal)));
}

#[test]
fn rejection_fixtures_fail_at_runtime() {
    let run = |name: &str| Vm::new(decode(name)).run(100);
    assert!(matches!(
        run("uninit_read"),
        Err(VmError::Memory(MemError::UninitializedRead { .. }))
    ));
    assert!(matches!(run("oob_jump"), Err(VmError::JumpOutOfBounds { .. })));
    assert!(matches!(run("illegal"), Err(VmError::IllegalInstruction { .. })));
    assert!(matches!(run("misaligned"), Err(VmError::Memory(MemError::Misaligned { .. }))));
}

#[test]
fn targets_match_cfg() {
    // For each conditional jump, the absolute target equals the start of the
    // taken successor.
    for name in ["branch", "diamond", "loop"] {
        let insns = decode(name);
        let cfg = build_cfg(&insns).expect("cfg builds");
        let exec = load(&insns);
        for (i, insn) in insns.iter().enumerate() {
            let Insn::Jump { op, .. } = insn else {
                continue;
            };
            if *op == JumpOp::Always {
                continue;
            }
            let node = NodeIndex::new(cfg.block_at(Pc(i)));
            let taken = cfg
                .graph
                .edges(node)
                .find(|e| *e.weight() == EdgeKind::BranchTrue)
                .expect("conditional has a taken edge");
            let expected = cfg.graph[taken.target()].start.0;
            let Some(actual) = exec_target(&exec[i]) else {
                panic!("jump at {i} did not lower to a targeted jump")
            };
            assert_eq!(actual as usize, expected, "jump at {i}");
        }
    }
}

fn exec_target(insn: &ExecInsn) -> Option<u32> {
    match *insn {
        ExecInsn::JumpReg { target, .. }
        | ExecInsn::JumpImm { target, .. }
        | ExecInsn::JumpAlways { target } => Some(target),
        _ => None,
    }
}

#[test]
fn all_fixtures_roundtrip() {
    let mut count = 0;
    for name in CORPUS {
        let insns = decode(name);
        count += 1;
        if insns.iter().any(|i| matches!(i, Insn::Unknown { .. })) {
            assert!(matches!(
                encode_program(&insns),
                Err(EncodeError::UnknownInstruction { .. })
            ));
            continue;
        }
        let bytes = encode_program(&insns).expect("re-encodes");
        assert_eq!(decode_program(&bytes).expect("re-decodes"), insns, "{name}");
    }
    assert!(count >= 30, "expected the full corpus, saw {count}");
}

#[test]
fn plain_fixtures_agree() {
    for name in [
        "mov_exit", "arith", "branch", "branch_untaken", "diamond", "ldimm", "loop",
        "loop_1000_iters", "stack", "endian", "helper_prandom", "helper_ktime", "helper_printk",
        "uninit_read", "misaligned", "join_uninit", "opt_redundant", "opt_copy_chain",
        "opt_dead_code", "opt_branch_preserved",
    ] {
        let bytes = fixture(name);
        let expected = Vm::new(decode(name)).run(STEPS);
        let lowered = optimize_bytes(&bytes).unwrap_or_else(|| panic!("{name} should lower"));
        let actual = Vm::new(lowered).run(STEPS);
        assert!(same_outcome(&actual, &expected), "{name}: {actual:?} != {expected:?}");
    }
}

#[test]
fn map_fixtures_agree() {
    for name in [
        "map_hash_lookup", "map_array_update", "map_bad_fd", "map_guarded_value_access",
        "map_lookup_null_load", "map_value_oob", "map_value_misaligned",
    ] {
        let bytes = fixture(name);
        let expected = Vm::new_with_maps(decode(name), test_maps()).unwrap().run(STEPS);
        let lowered = optimize_bytes(&bytes).unwrap_or_else(|| panic!("{name} should lower"));
        let actual = Vm::new_with_maps(lowered, test_maps()).unwrap().run(STEPS);
        assert!(same_outcome(&actual, &expected), "{name}: {actual:?} != {expected:?}");
    }
    let insns = decode("map_guarded_value_access");
    assert_eq!(Vm::new_with_maps(insns, test_maps()).unwrap().run(STEPS), Ok(0x1234));
}

#[test]
fn xdp_fixtures_agree() {
    let packet = packet(0x0800);
    for name in [
        "xdp_pass", "xdp_drop", "xdp_ethertype_pass", "xdp_unguarded_access",
        "xdp_store_rejected",
    ] {
        let bytes = fixture(name);
        let expected = run_xdp(decode(name), &packet, Vec::new(), STEPS);
        let lowered = optimize_bytes(&bytes).unwrap_or_else(|| panic!("{name} should lower"));
        let actual = run_xdp(lowered, &packet, Vec::new(), STEPS);
        let same = match (&actual, &expected) {
            (Ok(x), Ok(y)) => x == y,
            (Err(e1), Err(e2)) => same_fault(e1, e2),
            _ => false,
        };
        assert!(same, "{name}: {actual:?} != {expected:?}");
    }
    let pass = decode("xdp_ethertype_pass");
    assert_eq!(run_xdp(pass, &packet, Vec::new(), STEPS).unwrap(), XdpAction::Pass);
}

#[test]
fn refusals_are_stable() {
    assert!(build_cfg(&decode("oob_jump")).is_err());
    let insns = decode("illegal");
    let cfg = build_cfg(&insns).unwrap();
    assert!(matches!(
        build_ssa(&insns, &cfg),
        Err(SsaError::IllegalInstruction { pc: 0 })
    ));
}

#[test]
fn fuzz_crashers_agree() {
    for (name, bytes) in crasher_cases() {
        let insns = decode_program(&bytes).unwrap();
        let expected = Vm::new(insns).run(STEPS);
        let lowered = optimize_bytes(&bytes).unwrap_or_else(|| panic!("{name} should lower"));
        let actual = Vm::new(lowered).run(STEPS);
        assert!(same_outcome(&actual, &expected), "{name}: {actual:?} != {expected:?}");
    }
}

#[test]
fn graceful_refusals_hold() {
    // A const-started entry-loop phi has no one-time slot for its start
    // move, so lowering refuses.
    let nested_reset: Vec<u8> = vec![
        182, 0, 0, 0, 0, 0, 0, 254, 183, 1, 0, 0, 0, 0, 0, 0, 7, 0, 0, 0, 1, 0, 0, 0, 7, 1, 0, 0,
        1, 0, 0, 0, 93, 1, 254, 255, 10, 0, 0, 0, 7, 1, 0, 0, 1, 0, 0, 0, 165, 1, 249, 255, 10, 0,
        0, 0,
    ];
    let insns = decode_program(&nested_reset).unwrap();
    let cfg = build_cfg(&insns).unwrap();
    let mut prog = build_ssa(&insns, &cfg).unwrap();
    optimize(&mut prog);
    assert!(lower(&prog).is_err());
}

#[test]
fn golden_mov_exit() {
    assert_eq!(disassemble(&decode("mov_exit")), "0   mov r0, 1\n1   exit\n");
}

#[test]
fn golden_arith() {
    assert_eq!(
        disassemble(&decode("arith")),
        "0   mov r1, 10\n1   mov r2, 20\n2   mov r3, r1\n3   add r3, r2\n4   mov r0, r3\n5   exit\n"
    );
}

#[test]
fn golden_branch() {
    assert_eq!(
        disassemble(&decode("branch")),
        "0   mov r1, 10\n1   mov r0, 1\n2   jeq r1, 10, +1\n3   mov r0, 2\n4   exit\n"
    );
}

#[test]
fn golden_branch_untaken() {
    assert_eq!(
        disassemble(&decode("branch_untaken")),
        "0   mov r1, 9\n1   mov r0, 1\n2   jeq r1, 10, +1\n3   mov r0, 2\n4   exit\n"
    );
}

#[test]
fn golden_diamond() {
    assert_eq!(
        disassemble(&decode("diamond")),
        "0   mov r1, 5\n1   jeq r1, 10, +2\n2   mov r0, 1\n3   ja +1\n4   mov r0, 2\n5   exit\n"
    );
}

#[test]
fn golden_ldimm() {
    assert_eq!(
        disassemble(&decode("ldimm")),
        "0   r2 = 0x5566778811223344\n2   exit\n"
    );
}

#[test]
fn golden_loop() {
    assert_eq!(
        disassemble(&decode("loop")),
        "0   mov r0, 0\n1   mov r1, 0\n2   add r0, 1\n3   add r1, 1\n4   jlt r1, 10, +-3\n5   exit\n"
    );
}

#[test]
fn golden_stack() {
    assert_eq!(
        disassemble(&decode("stack")),
        "0   mov r1, 42\n1   *(dw *)(r10 + -8) = r1\n2   r0 = *(dw *)(r10 + -8)\n3   exit\n"
    );
}

#[test]
fn golden_endian() {
    assert_eq!(
        disassemble(&decode("endian")),
        "0   mov r1, 4660\n1   end32 r1, 16\n2   mov r0, r1\n3   exit\n"
    );
}

fn dot(name: &str) -> String {
    let insns = decode(name);
    let cfg = build_cfg(&insns).expect("valid CFG");
    to_dot(&cfg, &insns)
}

#[test]
fn golden_branch_dot() {
    let text = dot("branch");
    assert!(text.contains("  n0 -> n2 [label=\"true\"];\n"), "{text}");
    assert!(text.contains("  n0 -> n1 [label=\"false\"];\n"));
    assert!(text.contains("  n1 -> n2 [label=\"\"];\n"));
}

#[test]
fn golden_diamond_dot() {
    let text = dot("diamond");
    assert!(text.contains("  n0 -> n2 [label=\"true\"];\n"), "{text}");
    assert!(text.contains("  n1 -> n3 [label=\"jump\"];\n"));
    assert!(text.contains("  n2 -> n3 [label=\"\"];\n"));
}

#[test]
fn golden_arith_dot() {
    assert_eq!(
        dot("arith"),
        "digraph cfg {\n  node [shape=box, fontname=\"monospace\"];\n  n0 [label=\"block 0 [slots 0..6]\\l0   mov r1, 10\\l1   mov r2, 20\\l2   mov r3, r1\\l3   add r3, r2\\l4   mov r0, r3\\l5   exit\\l\"];\n}\n"
    );
}

#[test]
fn golden_ldimm_dot() {
    assert!(dot("ldimm").contains("[slots 0..3]"));
}

#[test]
fn golden_loop_dot() {
    // The back edge.
    assert!(dot("loop").contains("  n1 -> n1 [label=\"true\"];\n"));
}

/// The verdict line of a program under a configuration.
fn verdict(name: &str, config: &VerifyConfig) -> String {
    let insns = decode(name);
    let outcome = verify_insns(&insns, config);
    verdict_line(&outcome, insns.len())
}

#[test]
fn inspect_shows_header_and_disassembly() {
    let prog = raw_program(fixture("mov_exit"), "mov_exit.bin").unwrap();
    let out = inspect_text(&prog, &decode("mov_exit"));
    assert!(out.contains("Instructions: 2"), "header: {out}");
    assert!(out.contains("mov r0, 1"), "disasm: {out}");
    assert!(out.contains("exit"), "exit: {out}");
}

#[test]
fn disasm_prints_raw_text() {
    let out = disassemble(&decode("arith"));
    assert!(out.contains("mov r1, 10"), "out: {out}");
    assert!(out.contains("add"), "out: {out}");
}

#[test]
fn cfg_lists_blocks() {
    let insns = decode("diamond");
    let cfg = build_cfg(&insns).unwrap();
    let out = cfg_text(&cfg, &insns);
    assert!(out.contains("Blocks:"), "out: {out}");
    assert!(out.contains("Edges:"), "out: {out}");
}

#[test]
fn cfg_dot_emits_digraph() {
    let out = dot("diamond");
    assert!(out.contains("digraph cfg"), "out: {out}");
    assert!(out.contains("block"), "out: {out}");
}

#[test]
fn run_reports_exit_code() {
    let out = run_line(&Vm::new(decode("arith")).run(STEPS), false);
    assert!(out.contains("exit: 30"), "out: {out}");
}

#[test]
fn run_loop_reports_exit_code() {
    let out = run_line(&Vm::new(decode("loop")).run(STEPS), false);
    assert!(out.contains("exit: 10"), "out: {out}");
}

#[test]
fn run_trace_shows_steps() {
    let mut vm = Vm::new(decode("mov_exit"));
    let mut out = String::new();
    loop {
        let (line, goes_on) = trace_step(&mut vm, None);
        out.push_str(&line);
        if !goes_on {
            break;
        }
    }
    assert!(out.contains("PC 0"), "out: {out}");
    assert!(out.contains("exit: 1"), "out: {out}");
}

#[test]
fn verify_accepts_valid() {
    let out = verdict("arith", &VerifyConfig::default());
    assert!(out.contains("verified:"), "out: {out}");
    assert!(out.contains("6 PCs visited") || out.contains("PCs visited"), "out: {out}");
}

#[test]
fn verify_accepts_loop() {
    let out = verdict("loop_1000_iters", &VerifyConfig::default());
    assert!(out.contains("verified:"), "out: {out}");
}

#[test]
fn verify_rejects_uninit() {
    let out = verdict("uninit_read", &VerifyConfig::default());
    assert!(out.contains("rejected:"), "out: {out}");
}

#[test]
fn verify_rejects_illegal() {
    let out = verdict("illegal", &VerifyConfig::default());
    assert!(out.contains("rejected:"), "out: {out}");
}

#[test]
fn verify_trace_emits_json() {
    // The entries that the trace is written from.
    let insns = decode("mov_exit");
    let cfg = build_cfg(&insns).unwrap();
    let trace = verify_traced(&insns, &cfg, &VerifyConfig::default()).unwrap().trace;
    assert_eq!(trace.len(), 2, "two PCs");
    assert_eq!(trace[0].pc, 0);
    assert_eq!(trace[1].pc, 1);
    assert_eq!(trace[0].regs[0].ty, "scalar");
    assert_eq!(trace[0].regs[1].ty, "not_init");
    assert_eq!(trace[0].regs[10].ty, "stack_ptr");
}

#[test]
fn verify_max_iterations_flag_accepted() {
    let config = VerifyConfig { widening_threshold: 4, ..VerifyConfig::default() };
    let out = verdict("loop_1000_iters", &config);
    assert!(out.contains("verified:"), "out: {out}");
}

#[test]
fn verify_maps_lookup() {
    let out = verdict("map_hash_lookup", &VerifyConfig::with_maps(test_maps()));
    assert!(out.contains("verified:"), "out: {out}");
}

#[test]
fn verify_maps_bad_fd_rejected() {
    let out = verdict("map_bad_fd", &VerifyConfig::with_maps(test_maps()));
    assert!(out.contains("rejected:"), "out: {out}");
    assert!(out.contains("bad map fd 99"), "out: {out}");
}

#[test]
fn verify_maps_guarded_value_access() {
    let out = verdict("map_guarded_value_access", &VerifyConfig::with_maps(test_maps()));
    assert!(out.contains("verified:"), "out: {out}");
}

#[test]
fn verify_maps_null_deref_rejected() {
    let out = verdict("map_lookup_null_load", &VerifyConfig::with_maps(test_maps()));
    assert!(out.contains("rejected:"), "out: {out}");
    assert!(out.contains("null map pointer access"), "out: {out}");
}

#[test]
fn verify_maps_value_oob_rejected() {
    let out = verdict("map_value_oob", &VerifyConfig::with_maps(test_maps()));
    assert!(out.contains("rejected:"), "out: {out}");
    assert!(out.contains("map value out of bounds"), "out: {out}");
}

#[test]
fn verify_maps_misaligned_rejected() {
    let out = verdict("map_value_misaligned", &VerifyConfig::with_maps(test_maps()));
    assert!(out.contains("rejected:"), "out: {out}");
    assert!(out.contains("misaligned 4-byte access"), "out: {out}");
}

#[test]
fn run_maps_guarded_value_access() {
    let mut vm = Vm::new_with_maps(decode("map_guarded_value_access"), test_maps()).unwrap();
    let out = run_line(&vm.run(STEPS), false);
    assert!(out.contains("exit: 4660"), "out: {out}");
}

#[test]
fn run_maps_update_exits_zero() {
    let mut vm = Vm::new_with_maps(decode("map_array_update"), test_maps()).unwrap();
    let out = run_line(&vm.run(STEPS), false);
    assert!(out.contains("exit: 0"), "out: {out}");
}

#[test]
fn maps_oversized_fd_errors() {
    let desc = MapDesc {
        fd: 9_999_999_999,
        map_type: MapType::Hash,
        key_size: 4,
        value_size: 8,
        max_entries: 2,
        initial: Vec::new(),
    };
    let err = Vm::new_with_maps(decode("mov_exit"), vec![desc]).unwrap_err();
    assert!(err.to_string().contains("exceeds maximum"), "{}", err.to_string());
}

#[test]
fn xdp_pass_and_drop_actions() {
    let run = |packet: &[u8]| {
        let mut vm = load_xdp(decode("xdp_ethertype_pass"), packet, Vec::new());
        run_line(&vm.run(STEPS), true)
    };
    let pass = run(&packet(0x0800));
    assert!(pass.contains("xdp: XDP_PASS (2)"), "out: {pass}");
    let drop = run(&packet(0x0806));
    assert!(drop.contains("xdp: XDP_DROP (1)"), "out: {drop}");
}

#[test]
fn xdp_rejects_unguarded_packet_access() {
    let out = verdict("xdp_unguarded_access", &VerifyConfig::with_packet_len(54));
    assert!(out.contains("rejected:"), "out: {out}");
    assert!(out.contains("packet out of bounds"), "out: {out}");
}

#[test]
fn xdp_trace_shows_packet_loads() {
    let packet = packet(0x0800);
    let mut vm = load_xdp(decode("xdp_ethertype_pass"), &packet, Vec::new());
    let mut out = String::new();
    loop {
        let (line, goes_on) = trace_step(&mut vm, Some(&packet));
        out.push_str(&line);
        if !goes_on {
            break;
        }
    }
    assert!(out.contains("PC 0"), "out: {out}");
    assert!(out.contains("ethertype=IPv4"), "out: {out}");
    assert!(out.contains("xdp: XDP_PASS (2)"), "out: {out}");
}

#[test]
fn verify_packet_len_flag_accepts_bounded_access() {
    let out = verdict("xdp_ethertype_pass", &VerifyConfig::with_packet_len(54));
    assert!(out.contains("verified:"), "out: {out}");
}

#[test]
fn verify_without_packet_context_rejects() {
    let out = verdict("xdp_ethertype_pass", &VerifyConfig::default());
    assert!(out.contains("rejected:"), "out: {out}");
    assert!(out.contains("uninitialized register r1"), "out: {out}");
}

#[test]
fn optimize_shrinks_redundant() {
    let insns = decode("opt_redundant");
    let (after, bytes) = optimize_program(&insns).unwrap();
    assert_eq!((insns.len(), after), (6, 2));
    assert_eq!(Vm::new(decode_program(&bytes).unwrap()).run(STEPS), Ok(30));
}

#[test]
fn optimize_shrinks_copies_and_dead_code() {
    let copies = decode("opt_copy_chain");
    assert_eq!((copies.len(), optimize_program(&copies).unwrap().0), (5, 2));
    let dead = decode("opt_dead_code");
    assert_eq!((dead.len(), optimize_program(&dead).unwrap().0), (3, 2));
}

#[test]
fn optimize_preserves_branches() {
    let insns = decode("opt_branch_preserved");
    let (_, bytes) = optimize_program(&insns).unwrap();
    assert_eq!(Vm::new(insns).run(STEPS), Ok(25));
    assert_eq!(Vm::new(decode_program(&bytes).unwrap()).run(STEPS), Ok(25));
}

#[test]
fn optimize_is_idempotent() {
    let (_, once) = optimize_program(&decode("opt_redundant")).unwrap();
    let (_, twice) = optimize_program(&decode_program(&once).unwrap()).unwrap();
    assert_eq!(twice, once, "second pass must be a fixpoint");
}

#[test]
fn optimize_illegal_errors() {
    let err = optimize_program(&decode("illegal")).unwrap_err();
    let text = err.describe("illegal");
    assert!(text.starts_with("building SSA for `illegal`: "), "{text}");
}

#[test]
fn traces_list_registers() {
    // r1 = 42 after the first instruction, and the stack after the second.
    let insns = decode("stack");
    let cfg = build_cfg(&insns).unwrap();
    let trace = verify_traced(&insns, &cfg, &VerifyConfig::default()).unwrap().trace;
    assert_eq!(trace.len(), 4);
    assert_eq!(trace[0].insns, "0   mov r1, 42");
    assert_eq!(trace[0].regs[1].range, Some([42, 42]));
    assert_eq!(trace[0].regs[10].offset, Some(0));
    assert!(trace[0].stack_init.is_empty());
    assert_eq!(trace[1].stack_init.len(), 1);
    assert_eq!(trace[1].stack_init[0].offset, -8);
}

/// One line per trace entry: the instruction, the registers that are set and
/// the stack slots that can be read.
fn trace_lines(name: &str, config: &VerifyConfig) -> Vec<String> {
    let insns = decode(name);
    let cfg = build_cfg(&insns).unwrap();
    let trace = verify_traced(&insns, &cfg, config).unwrap().trace;
    let mut lines = Vec::new();
    for e in &trace {
        let mut line = format!("{} | {} | {} |", e.pc, e.insns, e.action);
        for (i, r) in e.regs.iter().enumerate() {
            assert_eq!(r.r, i);
            if r.ty != "not_init" {
                line += &format!(" r{i}:{}", r.ty);
            }
            if let Some([lo, hi]) = r.range {
                line += &format!("[{lo},{hi}]");
            }
            if let Some(offset) = r.offset {
                line += &format!("@{offset}");
            }
        }
        line += " |";
        for s in &e.stack_init {
            line += &format!(" {}:{}", s.offset, s.value);
        }
        lines.push(line);
    }
    lines
}

#[test]
fn trace_schema_mov_exit() {
    assert_eq!(
        trace_lines("mov_exit", &VerifyConfig::default()),
        [
            "0 | 0   mov r0, 1 | r0 mov= 1 | r0:scalar[1,1] r10:stack_ptr@0 |",
            "1 | 1   exit | exit | r0:scalar[1,1] r10:stack_ptr@0 |",
        ]
    );
}

#[test]
fn trace_schema_diamond() {
    assert_eq!(
        trace_lines("diamond", &VerifyConfig::default()),
        [
            "0 | 0   mov r1, 5 | r1 mov= 5 | r1:scalar[5,5] r10:stack_ptr@0 |",
            "1 | 1   jeq r1, 10, +2 | jeq r1, 10, +2 | r1:scalar[5,5] r10:stack_ptr@0 |",
            "2 | 2   mov r0, 1 | r0 mov= 1 | r0:scalar[1,1] r1:scalar[5,5] r10:stack_ptr@0 |",
            "3 | 3   ja +1 | ja r0, 0, +1 | r0:scalar[1,1] r1:scalar[5,5] r10:stack_ptr@0 |",
            "4 | 4   mov r0, 2 | r0 mov= 2 | r0:scalar[2,2] r1:bottom r10:stack_ptr@0 |",
            "5 | 5   exit | exit | r0:scalar[1,2] r1:scalar[5,5] r10:stack_ptr@0 |",
        ]
    );
}

#[test]
fn trace_schema_stack() {
    assert_eq!(
        trace_lines("stack", &VerifyConfig::default()),
        [
            "0 | 0   mov r1, 42 | r1 mov= 42 | r1:scalar[42,42] r10:stack_ptr@0 |",
            "1 | 1   *(dw *)(r10 + -8) = r1 | *(dw *)(r10 + -8) = r1 | r1:scalar[42,42] r10:stack_ptr@0 | -8:unknown",
            "2 | 2   r0 = *(dw *)(r10 + -8) | r0 = *(dw *)(r10 + -8) | r0:unknown r1:scalar[42,42] r10:stack_ptr@0 | -8:unknown",
            "3 | 3   exit | exit | r0:unknown r1:scalar[42,42] r10:stack_ptr@0 | -8:unknown",
        ]
    );
}

#[test]
fn trace_schema_loop() {
    // The first visits, and the last ones: r0 is widened, the counter's
    // bounds come from the branch.
    let lines = trace_lines("loop", &VerifyConfig::default());
    assert_eq!(
        lines[..5],
        [
            "0 | 0   mov r0, 0 | r0 mov= 0 | r0:scalar[0,0] r10:stack_ptr@0 |",
            "1 | 1   mov r1, 0 | r1 mov= 0 | r0:scalar[0,0] r1:scalar[0,0] r10:stack_ptr@0 |",
            "2 | 2   add r0, 1 | r0 add= 1 | r0:scalar[1,1] r1:scalar[0,0] r10:stack_ptr@0 |",
            "3 | 3   add r1, 1 | r1 add= 1 | r0:scalar[1,1] r1:scalar[1,1] r10:stack_ptr@0 |",
            "4 | 4   jlt r1, 10, +-3 | jlt r1, 10, +-3 | r0:scalar[1,1] r1:scalar[1,1] r10:stack_ptr@0 |",
        ]
    );
    assert_eq!(
        lines[lines.len() - 4..],
        [
            "5 | 5   exit | exit | r0:unknown r1:scalar[10,10] r10:stack_ptr@0 |",
            "2 | 2   add r0, 1 | r0 add= 1 | r0:unknown r1:scalar[0,9] r10:stack_ptr@0 |",
            "3 | 3   add r1, 1 | r1 add= 1 | r0:unknown r1:scalar[1,10] r10:stack_ptr@0 |",
            "4 | 4   jlt r1, 10, +-3 | jlt r1, 10, +-3 | r0:unknown r1:scalar[1,10] r10:stack_ptr@0 |",
        ]
    );
}

#[test]
fn trace_schema_map_ptr() {
    // r0 after a lookup.
    let config = VerifyConfig::with_maps(test_maps());
    assert_eq!(
        trace_lines("map_hash_lookup", &config),
        [
            "0 | 0   r1 = 0x1 | r1 = 0x1 | r1:scalar[1,1] r10:stack_ptr@0 |",
            "1 | 2   mov r2, r10 | r2 mov= r10 | r1:scalar[1,1] r2:stack_ptr@0 r10:stack_ptr@0 |",
            "2 | 3   add r2, -8 | r2 add= -8 | r1:scalar[1,1] r2:stack_ptr@-8 r10:stack_ptr@0 |",
            "3 | 4   *(w *)(r10 + -8) = 1 | *(w *)(r10 + -8) = 1 | r1:scalar[1,1] r2:stack_ptr@-8 r10:stack_ptr@0 |",
            "4 | 5   call 1 | call 1 | r0:maybe_map_ptr r1:scalar[1,1] r2:stack_ptr@-8 r10:stack_ptr@0 |",
            "5 | 6   exit | exit | r0:maybe_map_ptr r1:scalar[1,1] r2:stack_ptr@-8 r10:stack_ptr@0 |",
        ]
    );
}

#[test]
fn never_written_target_is_rejected() {
    // r2 is added to on one path without ever being written there.
    let bytes = [
        w(0xb7, 1, 0, 0, 0),
        w(0x15, 1, 0, 2, 0),
        w(0xb7, 2, 0, 0, 0),
        w(0x05, 0, 0, 1, 0),
        w(0x07, 2, 0, 0, 1),
        w(0xbf, 3, 10, 0, 0),
        w(0x0f, 3, 2, 0, 0),
        w(0x7a, 3, 0, -8, 0),
        w(0xb7, 0, 0, 0, 0),
        w(0x95, 0, 0, 0, 0),
    ]
    .concat();
    let insns = decode_program(&bytes).unwrap();
    let err = verify_insns(&insns, &VerifyConfig::default()).unwrap_err();
    assert!(matches!(err, VerifyError::UninitRegister { .. }), "{err:?}");
}

#[test]
fn narrow_comparison_keeps_wide_values() {
    // The low half of r1 is zero, r1 itself is not.
    let bytes = [
        w(0x18, 1, 0, 0, 0),
        w(0x00, 0, 0, 0, 1),
        w(0x16, 1, 0, 1, 0),
        w(0xb7, 0, 0, 0, 0),
        w(0xb7, 0, 0, 0, 0),
        w(0x95, 0, 0, 0, 0),
    ]
    .concat();
    let insns = decode_program(&bytes).unwrap();
    let cfg = build_cfg(&insns).unwrap();
    let trace = verify_traced(&insns, &cfg, &VerifyConfig::default()).unwrap().trace;
    let last = trace.iter().find(|e| e.pc == 3).unwrap();
    assert_eq!(last.regs[1].range, Some([1 << 32, 1 << 32]));
}

#[test]
fn narrow_move_onto_itself_truncates() {
    let bytes = [w(0xb7, 0, 0, 0, -1), w(0xbc, 0, 0, 0, 0), w(0x95, 0, 0, 0, 0)].concat();
    let expected = Vm::new(decode_program(&bytes).unwrap()).run(STEPS).unwrap();
    assert_eq!(expected, 0xffff_ffff);
    let lowered = optimize_bytes(&bytes).unwrap();
    assert_eq!(Vm::new(lowered).run(STEPS).unwrap(), 0xffff_ffff);
    // The same with a value that is not known.
    assert_same_run(
        &[
            w(0x7a, 10, 0, -8, -1),
            w(0x79, 0, 10, -8, 0),
            w(0xbc, 0, 0, 0, 0),
            w(0x95, 0, 0, 0, 0),
        ],
        0xffff_ffff,
    );
}

/// The optimized program does what the given one does.
fn assert_same_run(words: &[[u8; 8]], exit: i64) {
    let bytes = words.concat();
    let insns = decode_program(&bytes).unwrap();
    assert_eq!(Vm::new(insns).run(STEPS).unwrap(), exit);
    let lowered = optimize_bytes(&bytes).expect("should lower");
    assert_eq!(Vm::new(lowered).run(STEPS).unwrap(), exit);
}

#[test]
fn jump_back_without_a_cycle_keeps_values() {
    // r6 stays live through the block behind its use.
    assert_same_run(
        &[
            w(0xb7, 6, 0, 0, 5),
            w(0x05, 0, 0, 2, 0),
            w(0xbf, 0, 6, 0, 0),
            w(0x95, 0, 0, 0, 0),
            w(0xb7, 7, 0, 0, 9),
            w(0x7b, 10, 7, -8, 0),
            w(0x05, 0, 0, -5, 0),
        ],
        5,
    );
}

#[test]
fn jump_back_to_the_entry_keeps_the_start() {
    // A counter that is zero at the start, and read before it is increased.
    // Lowering may refuse it, but not give out code that does something else.
    for r in [1, 6] {
        let bytes = [
            w(0xbf, 0, r, 0, 0),
            w(0x07, r, 0, 0, 1),
            w(0xa5, r, 0, -3, 3),
            w(0x95, 0, 0, 0, 0),
        ]
        .concat();
        let insns = decode_program(&bytes).unwrap();
        assert_eq!(Vm::new(insns).run(STEPS).unwrap(), 2);
        if let Some(lowered) = optimize_bytes(&bytes) {
            assert_eq!(Vm::new(lowered).run(STEPS).unwrap(), 2);
        }
    }
}

#[test]
fn calls_keep_what_is_used_behind_them() {
    // The arguments of a lookup are used again, and so is its result.
    let mut words = map_call(1, 1);
    words.push(w(0xb7, 3, 0, 0, 40));
    words.push(w(0x85, 0, 0, 0, 1));
    words.push(w(0x55, 0, 0, 1, 0));
    words.push(w(0x95, 0, 0, 0, 0));
    words.push(w(0x79, 0, 0, 0, 0));
    words.push(w(0x0f, 0, 3, 0, 0));
    words.push(w(0x0f, 0, 1, 0, 0));
    words.push(w(0x95, 0, 0, 0, 0));
    let bytes = words.concat();
    let run = |insns: Vec<Insn>| Vm::new_with_maps(insns, test_maps()).unwrap().run(STEPS);
    let expected = run(decode_program(&bytes).unwrap());
    let lowered = optimize_bytes(&bytes).expect("should lower");
    let actual = run(lowered);
    assert!(same_outcome(&actual, &expected), "{actual:?} != {expected:?}");
}

#[test]
fn unknown_descriptor_needs_arguments_for_every_map() {
    // r1 is 1 or 2, and four bytes of the key are written.
    let bytes = [
        w(0x85, 0, 0, 0, 43),
        w(0xbf, 1, 0, 0, 0),
        w(0x57, 1, 0, 0, 1),
        w(0x07, 1, 0, 0, 1),
        w(0xbf, 2, 10, 0, 0),
        w(0x07, 2, 0, 0, -8),
        w(0x62, 10, 0, -8, 1),
        w(0x85, 0, 0, 0, 1),
        w(0xb7, 0, 0, 0, 0),
        w(0x95, 0, 0, 0, 0),
    ]
    .concat();
    let insns = decode_program(&bytes).unwrap();
    verify_insns(&insns, &VerifyConfig::with_maps(test_maps())).expect("keys fit both maps");
    let mut maps = test_maps();
    maps[1].map_type = MapType::Hash;
    maps[1].key_size = 8;
    let err = verify_insns(&insns, &VerifyConfig::with_maps(maps)).unwrap_err();
    assert!(matches!(err, VerifyError::UninitStackRead { .. }), "{err:?}");
}

/// Loads, stores, calls and control instructions of a range, without the
/// values that they use.
fn effects_of(insns: &[SsaInsn]) -> Vec<String> {
    insns
        .iter()
        .filter_map(|i| match i {
            SsaInsn::Load { size, offset, .. } => Some(format!("load {size:?} {offset}")),
            SsaInsn::Store { size, offset, .. } => Some(format!("store {size:?} {offset}")),
            SsaInsn::Call { func, .. } => Some(format!("call {func}")),
            SsaInsn::Br { op, true_target, false_target, .. } => {
                Some(format!("br {op:?} {true_target:?} {false_target:?}"))
            }
            SsaInsn::Ja { target } => Some(format!("ja {target}")),
            SsaInsn::Exit { .. } => Some("exit".to_string()),
            _ => None,
        })
        .collect()
}

#[test]
fn optimizing_keeps_effects_in_order() {
    for name in ["branch", "diamond", "loop", "stack", "map_hash_lookup", "opt_redundant"] {
        let insns = decode(name);
        let cfg = build_cfg(&insns).unwrap();
        let before = build_ssa(&insns, &cfg).unwrap();
        let mut after = build_ssa(&insns, &cfg).unwrap();
        optimize(&mut after);
        assert_eq!(after.graph.node_count(), before.graph.node_count());
        for b in after.graph.node_indices() {
            let (x, y) = (&after.graph[b], &before.graph[b]);
            if x.live {
                assert!(y.live, "{name}");
                assert_eq!(
                    effects_of(&after.insns[x.start..x.end]),
                    effects_of(&before.insns[y.start..y.end]),
                    "{name}"
                );
            }
        }
    }
}

#[test]
fn narrow_unsigned_comparison_refines() {
    let bytes = [
        w(0x7a, 10, 0, -8, 0),
        w(0x79, 1, 10, -8, 0),
        w(0x25, 1, 0, 2, 0x7fff_ffff),
        w(0x0f, 1, 1, 0, 0),
        w(0xa6, 1, 0, 2, 10),
        w(0xb7, 0, 0, 0, 0),
        w(0x95, 0, 0, 0, 0),
        w(0xb7, 0, 0, 0, 0),
        w(0x95, 0, 0, 0, 0),
    ]
    .concat();
    let insns = decode_program(&bytes).unwrap();
    let cfg = build_cfg(&insns).unwrap();
    let trace = verify_traced(&insns, &cfg, &VerifyConfig::default()).unwrap().trace;
    let at = |pc: usize| trace.iter().find(|e| e.pc == pc).unwrap().regs[1].range;
    assert_eq!(at(3), Some([0, 0xffff_fffe]));
    assert_eq!(at(7), Some([0, 9]));
}

#[test]
fn compared_pointer_is_a_number() {
    let rest = [w(0x7a, 10, 0, -8, 1), w(0xb7, 0, 0, 0, 0), w(0x95, 0, 0, 0, 0)].concat();
    let insns = decode_program(&rest).unwrap();
    assert!(verify_insns(&insns, &VerifyConfig::default()).is_ok());
    for op in [0x15, 0x55, 0x25, 0xb5, 0x65, 0x16, 0x26] {
        let bytes = [w(op, 10, 0, 0, 5).to_vec(), rest.clone()].concat();
        let insns = decode_program(&bytes).unwrap();
        assert!(verify_insns(&insns, &VerifyConfig::default()).is_err(), "opcode {op:#x}");
    }
}

#[test]
fn endless_programs_stay_endless() {
    let bytes = [w(0xb7, 0, 0, 0, 1), w(0x05, 0, 0, -1, 0), w(0x95, 0, 0, 0, 0)].concat();
    let exceeded = Err(VmError::StepsExceeded { limit: 1000 });
    assert_eq!(Vm::new(decode_program(&bytes).unwrap()).run(1000), exceeded);
    let lowered = optimize_bytes(&bytes).expect("should lower");
    assert_eq!(Vm::new(lowered).run(1000), exceeded);
}

#[test]
fn failed_update_without_a_read_is_safe() {
    // The map is full, so the update fails; its result is not looked at.
    let mut maps = test_maps();
    maps[0].max_entries = 1;
    let mut words = map_call(1, 2);
    words.push(w(0x7a, 10, 0, -16, 7));
    words.push(w(0xbf, 3, 10, 0, 0));
    words.push(w(0x07, 3, 0, 0, -16));
    words.push(w(0xb7, 4, 0, 0, 0));
    words.push(w(0x85, 0, 0, 0, 2));
    let looked = [words.clone(), vec![w(0x95, 0, 0, 0, 0)]].concat().concat();
    let run = |bytes: &[u8]| {
        let insns = decode_program(bytes).unwrap();
        Vm::new_with_maps(insns, maps.clone()).unwrap().run(STEPS)
    };
    assert!(run(&looked).unwrap() < 0);
    words.push(w(0xb7, 0, 0, 0, 0));
    words.push(w(0x79, 0, 10, -16, 0));
    words.push(w(0x95, 0, 0, 0, 0));
    let bytes = words.concat();
    let insns = decode_program(&bytes).unwrap();
    assert!(verify_insns(&insns, &VerifyConfig::with_maps(maps.clone())).is_ok());
    assert_eq!(run(&bytes), Ok(7));
}

#[test]
fn jump_back_without_a_cycle_lowers_many_values() {
    // Control enters the second block from behind. Its values are not live
    // there, and each is dead before the next.
    let mut words = vec![w(0x7a, 10, 0, -8, 3), w(0x05, 0, 0, 32, 0)];
    for k in 0..10 {
        words.push(w(0x79, 0, 10, -8, 0));
        words.push(w(0x07, 0, 0, 0, k));
        words.push(w(0x7b, 10, 0, -16, 0));
    }
    words.push(w(0x79, 0, 10, -16, 0));
    words.push(w(0x95, 0, 0, 0, 0));
    words.push(w(0x05, 0, 0, -33, 0));
    assert_same_run(&words, 12);
}
