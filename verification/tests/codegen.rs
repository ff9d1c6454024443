use meadow::glade::codegen::a64::{Asm, Fixup, Label, Layout, Loc, WARM};
use meadow::glade::codegen::code::{Cond, FloatOp, Instr, Op, Operand, Program};
use meadow::glade::codegen::thin::{Src, Step};
use meadow::glade::codegen::vector::{plan, plan_or, Access, Array, Lanes, Refusal, VOp};
use meadow::glade::object::Kind;
use meadow::seq::lower::state::OptLevel;
use meadow::terms::prim::Prim;

fn layout() -> Layout {
    Layout {
        live: 8,
        steps: 16,
        regs: 24,
        pc: 32,
        tables: 40,
        native_table: 64,
        native_methods: 72,
        method_starts: 80,
        method_pcs: 88,
        base: 96,
        top: 104,
        cap: 112,
        region_growth: 120,
        allocated: 128,
        fcur: 136,
        flim: 140,
        fsp: 144,
        fbase: 152,
        interpret: 160,
        budget: 64,
        scratch: 256,
        gen_shift: 30,
        block_shift: 13,
        block_bits: 17,
        slot_bits: 13,
        desc_shift: 8,
        len_shift: 32,
        jumped: 1,
    }
}

#[test]
fn a_jump_past_what_b_reaches_is_said_not_to() {
    // `b` reaches 2^25 instructions either way, and its target here is
    // one past the gap.
    for (gap, reaches) in [((1usize << 27) - 8, true), ((1 << 27) - 4, false)] {
        let mut code = Asm::new(layout());
        let far = code.label();
        code.jump(far);
        let n = code.words.len();
        code.words.resize(n + gap / 4, 0);
        code.bind(far);
        assert_eq!(code.reaches(), reaches, "{gap} bytes on");
    }
}

#[test]
fn branches_are_filled_in() {
    let mut code = Asm::new(layout());
    let end = code.label();
    code.b_cond(0, end);
    code.jump(end);
    code.put(0xD503_201F);
    code.bind(end);
    assert!(code.reaches());
    let bytes = code.finish();
    // b.eq +3, b +2, nop
    assert_eq!(bytes, vec![0x60, 0, 0, 0x54, 2, 0, 0, 0x14, 0x1F, 0x20, 0x03, 0xD5]);
    assert!(Fixup::Imm19.reaches(-(1 << 18)) && !Fixup::Imm19.reaches(1 << 18));
}

#[test]
fn float_registers_take_vector_homes() {
    let mut code = Asm::new(layout());
    code.configure(OptLevel::O1, &[3, 5]);
    assert_eq!(code.pinned(3), Some(Loc::D(16)));
    assert_eq!(code.pinned(5), Some(Loc::D(17)));
    assert_eq!(code.pinned(0), Some(Loc::X(2)));
    assert_eq!(code.pinned(12), Some(Loc::X(28)));
    assert_eq!(code.pinned(13), None);
    code.mov_x(0, 1);
    assert_eq!(code.words, vec![0xAA01_03E0]);
}

fn instr(op: Op, a: u8, b: u8, c: u8, imm: u32) -> Instr {
    Instr { op, a, b, c, imm }
}

/// `while j < r1 { r3[j] = r2[j] * r4; j = j + 1 }`, `j` in `r0`.
fn scaled(index: u8) -> Program {
    Program {
        code: vec![
            instr(Op::BrI, 0, 1, 5, 1),
            instr(Op::Prim2, 5, 2, 0, 0),
            instr(Op::MulF, 6, 5, 4, 0),
            instr(Op::Move, 7, 3, 0, 0),
            instr(Op::Move, 8, index, 0, 0),
            instr(Op::Move, 9, 6, 0, 0),
            instr(Op::Prim, 10, 7, 3, 1),
            instr(Op::AddIK, 0, 0, 0, 1),
            instr(Op::Jump, 0, 0, 0, 0),
        ],
        prims: vec![Prim::ArrayGet, Prim::StSetArray],
        words: vec![],
    }
}

const PCS: [usize; 9] = [0, 1, 2, 3, 4, 5, 6, 7, 8];

#[test]
fn a_loop_over_arrays_of_floats_is_planned() {
    let p = plan(&scaled(0), &PCS, 13).expect("planned");
    assert_eq!(p.j, 0);
    assert_eq!(p.hi, Operand::Reg(1));
    assert_eq!(
        p.arrays,
        vec![
            Array { reg: 2, kind: Kind::Array.to_byte(), stored: false },
            Array { reg: 3, kind: Kind::MutArray.to_byte(), stored: true },
        ]
    );
    assert_eq!(p.broadcasts, vec![4]);
    assert_eq!(p.accesses, vec![Access { idx: 0, array: 0 }, Access { idx: 8, array: 1 }]);
    assert_eq!(p.lanes, 2);
    assert_eq!(p.steps, 9);
    assert!(p.distinct.is_empty(), "both are at `j`");
    assert!(p.ops.contains(&VOp::Float { op: FloatOp::Mul, lane: 1, a: Lanes::V(0), b: Lanes::B(0) }));
}

#[test]
fn a_loop_that_does_not_qualify_says_why() {
    assert_eq!(plan_or(&scaled(1), &PCS, 13).unwrap_err(), Refusal::Index);
    assert_eq!(plan_or(&scaled(0), &PCS, 4).unwrap_err(), Refusal::Fixed);
    assert_eq!(plan_or(&scaled(0), &PCS[..2], 13).unwrap_err(), Refusal::Short);
    let mut p = scaled(0);
    p.code[0].c = 0;
    assert_eq!(plan_or(&p, &PCS, 13).unwrap_err(), Refusal::Header);
    let mut p = scaled(0);
    p.code[7].imm = 2;
    assert_eq!(plan_or(&p, &PCS, 13).unwrap_err(), Refusal::End);
    let mut p = scaled(0);
    p.code[2] = instr(Op::Other, 6, 5, 4, 0);
    assert_eq!(plan_or(&p, &PCS, 13).unwrap_err(), Refusal::Instruction);
    assert_eq!(Cond::from_byte(5), Some(Cond::Ge));
}

#[test]
fn a_plan_is_emitted_ahead_of_the_scalar_loop() {
    let p = plan(&scaled(0), &PCS, 13).expect("planned");
    let mut code = Asm::new(layout());
    code.configure(OptLevel::O1, &[]);
    let out: Label = code.label();
    code.vector_loop(&p, out);
    code.bind(out);
    assert!(code.reaches());
    // cmp x2, x3; b.ge out
    assert_eq!(code.words[0], 0xEB03_005F);
    assert_eq!(code.words[1], 0x5400_000A);
    // fmul v1.2d, v0.2d, v20.2d
    assert!(code.words.contains(&(0x6E60_DC00 | 20 << 16 | 1)));
    let n = code.words.len();
    assert_eq!(code.finish().len(), 4 * n);
    // Too many registers taken: nothing is emitted.
    let mut full = Asm::new(layout());
    full.configure(OptLevel::O1, &[0, 1, 2, 3, 4, 5, 6, 7, 8, 9, 10, 11, 12]);
    let out = full.label();
    full.vector_loop(&p, out);
    assert!(full.words.is_empty());
}

#[test]
fn small_steps_are_small_instructions() {
    let mut code = Asm::new(layout());
    code.configure(OptLevel::O1, &[]);
    let slow = code.label();
    code.steps(
        &[
            Step::Assign(0, Src::Imm(5)),
            Step::Plus(1, Src::Tmp(0), Src::Imm(3)),
            Step::And(2, Src::Tmp(1), 0xff),
            Step::Guard(Cond::Lt, Src::Tmp(2), Src::Imm(1 << 31)),
            Step::Put(0, Src::Tmp(2)),
        ],
        slow,
    );
    assert_eq!(
        code.words,
        vec![
            0xD280_00A9, // movz x9, #5
            0x9100_0D2A, // add x10, x9, #3
            0x9240_1D4B, // and x11, x10, #0xff
            0xD35F_FD6F, // lsr x15, x11, #31
            0xB500_000F, // cbnz x15, slow
            0xAA0B_03E2, // mov x2, x11
        ]
    );
}

#[test]
fn a_function_is_entered_warm_behind_its_prologue() {
    let mut code = Asm::new(layout());
    code.configure(OptLevel::O1, &[]);
    let warm = code.label();
    code.prologue(Some(warm));
    assert_eq!(code.labels[warm.0], Some(WARM as usize / 4));
    let n = code.words.len();
    code.interpret(7);
    code.interpret(8);
    code.end();
    assert!(code.words.len() > n);
    assert!(code.reaches());
    assert_eq!(code.labels.len(), 2, "both calls share one way out");
}

#[test]
fn a_call_falls_back_where_there_are_too_many_arguments() {
    let mut code = Asm::new(layout());
    code.configure(OptLevel::O1, &[]);
    let slow = code.label();
    code.invoke(1, 0, 2, 248, slow);
    assert_eq!(code.words, vec![0x1400_0000]);
    code.invoke(1, 0, 2, 2, slow);
    code.allocate(0, &[1, 2], &[3, 4], slow);
    code.frame(0, &[1, 2], &[3, 4], slow);
    code.stub(1, 3, slow);
    code.tag_test(0, 3, slow, slow);
    code.field(0, 1, 4000, slow);
    code.bind(slow);
    assert!(code.reaches());
}
