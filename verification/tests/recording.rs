use metalspone::babybear::Felt;
use metalspone::ir::{to_monty, IrContext, IrExtVal, IrVal};
use metalspone::program::{ConstraintProgram, OP_ADD, OP_CONST, OP_LOAD_MAIN_LOCAL, OP_MUL, OP_NEG, OP_SUB};
use metalspone::dispatch::from_raw;

#[test]
fn test_ir_val_arithmetic() {
    let mut ctx = IrContext::new();

    let a = IrVal::from_canonical_u32(&mut ctx, 5);
    let b = IrVal::from_canonical_u32(&mut ctx, 7);
    let c = a.add(b, &mut ctx);
    let d = c.mul(a, &mut ctx);
    let _e = d.neg(&mut ctx);

    let (words, num_regs) = (ctx.words, ctx.next_reg);

    // 5 values created: a(r0), b(r1), c(r2), d(r3), e(r4)
    assert_eq!(num_regs, 5);
    // 5 instructions × 4 words = 20 words
    assert_eq!(words.len(), 20);

    // Verify first instruction: CONST r0, to_monty(5)
    assert_eq!(words[0], OP_CONST);
    assert_eq!(words[1], 0); // dst = r0
    assert_eq!(words[2], to_monty(5));

    // Verify add: ADD r2, r0, r1
    assert_eq!(words[8], OP_ADD);
    assert_eq!(words[9], 2); // dst = r2
    assert_eq!(words[10], 0); // lhs = r0
    assert_eq!(words[11], 1); // rhs = r1
    assert_eq!(&words[12..], &[OP_MUL, 3, 2, 0, OP_NEG, 4, 3, 0]);
}

#[test]
fn test_ir_ext_val() {
    let mut ctx = IrContext::new();

    let a = IrExtVal {
        c0: IrVal::from_canonical_u32(&mut ctx, 0),
        c1: IrVal::from_canonical_u32(&mut ctx, 1),
        c2: IrVal::from_canonical_u32(&mut ctx, 2),
        c3: IrVal::from_canonical_u32(&mut ctx, 3),
    };
    let regs_after_a = ctx.next_reg;
    assert_eq!(regs_after_a, 4); // 4 CONST instructions

    let b = IrExtVal::one(&mut ctx);
    let regs_after_b = ctx.next_reg;
    // one() allocates at least 1 register (for the 1) and possibly more for zeros
    assert!(regs_after_b > regs_after_a);

    let _c = a.add(b, &mut ctx);
    let regs_after_c = ctx.next_reg;
    // Addition adds 4 new registers (one per component)
    assert_eq!(regs_after_c, regs_after_b + 4);
}

#[test]
fn extension_elements_are_added_by_coordinates() {
    let mut ctx = IrContext::new();
    let at = |k: u32| IrExtVal { c0: IrVal(k), c1: IrVal(k + 1), c2: IrVal(k + 2), c3: IrVal(k + 3) };
    for k in 0..8 {
        assert_eq!(IrVal::emit_load(&mut ctx, OP_LOAD_MAIN_LOCAL, k), IrVal(k));
    }
    let before = ctx.words.len();
    let sum = at(0).add(at(4), &mut ctx);
    assert_eq!([sum.c0, sum.c1, sum.c2, sum.c3], [8, 9, 10, 11].map(IrVal));
    assert_eq!(
        &ctx.words[before..],
        &[
            OP_ADD, 8, 0, 4, //
            OP_ADD, 9, 1, 5, //
            OP_ADD, 10, 2, 6, //
            OP_ADD, 11, 3, 7,
        ]
    );
}

#[test]
fn test_to_monty_roundtrip() {
    // At minimum, to_monty(0) == 0 and to_monty(1) != 0.
    assert_eq!(to_monty(0), 0);
    assert_ne!(to_monty(1), 0);
    assert_ne!(to_monty(1), 1);
    assert_eq!(from_raw(to_monty(42)).value, 42);
}

#[test]
fn a_product_takes_forty_three_instructions() {
    let mut ctx = IrContext::new();
    let a = IrExtVal::one(&mut ctx);
    let before = ctx.words.len();
    let _p = a.mul(a, &mut ctx);
    assert_eq!(ctx.words.len() - before, 4 * 43);
}

#[test]
fn compaction_takes_dead_registers_again() {
    // r0 = main[0]; r1 = -r0; r2 = -r1; .. ; the registers alternate
    let mut ctx = IrContext::new();
    let x = IrVal::emit_load(&mut ctx, OP_LOAD_MAIN_LOCAL, 0);
    let mut y = x;
    for _ in 0..5 {
        y = y.neg(&mut ctx);
    }
    let mut program = ConstraintProgram {
        words: ctx.words,
        num_regs: ctx.next_reg,
        accumulator_regs: [y.0; 4],
        main_width: 1,
        prep_width: 1,
        perm_u32_width: 4,
    };
    assert_eq!(program.num_instructions(), 6);
    program.compact_registers();
    assert_eq!(program.num_instructions(), 6);
    assert_eq!(program.num_regs, 2);
    assert_eq!(
        program.words,
        vec![
            OP_LOAD_MAIN_LOCAL, 0, 0, 0, //
            OP_NEG, 1, 0, 0, //
            OP_NEG, 0, 1, 0, //
            OP_NEG, 1, 0, 0, //
            OP_NEG, 0, 1, 0, //
            OP_NEG, 1, 0, 0,
        ]
    );
    assert_eq!(program.accumulator_regs, [1; 4]);
}

#[test]
fn constants_are_in_montgomery_form() {
    let mut ctx = IrContext::new();
    IrVal::zero(&mut ctx);
    IrVal::one(&mut ctx);
    IrVal::two(&mut ctx);
    IrVal::neg_one(&mut ctx);
    IrVal::from_bool(&mut ctx, true);
    IrVal::from_canonical_u8(&mut ctx, 255);
    IrVal::from_canonical_u16(&mut ctx, 65535);
    IrVal::from_wrapped_u32(&mut ctx, 0x7800_0003);
    IrVal::from_canonical_u64(&mut ctx, 0x7800_0001 * 5 + 9);
    IrVal::from_canonical_usize(&mut ctx, 11);
    IrVal::generator(&mut ctx);
    let values: Vec<u32> = ctx.words.chunks(4).map(|w| from_raw(w[2]).value).collect();
    assert_eq!(values, vec![0, 1, 2, 0x7800_0000, 1, 255, 65535, 2, 9, 11, 31]);
}

#[test]
fn registers_are_summed_and_multiplied_from_the_unit_on() {
    let mut ctx = IrContext::new();
    let xs = vec![IrVal::from_wrapped_u64(&mut ctx, 5), IrVal::from_wrapped_u64(&mut ctx, 2013265921 + 7)];
    assert_eq!(ctx.words[6], to_monty(7));
    let sum = IrVal::sum(&mut ctx, &xs);
    assert_eq!(sum, IrVal(4));
    assert_eq!(&ctx.words[8..], &[OP_CONST, 2, 0, 0, OP_ADD, 3, 2, 0, OP_ADD, 4, 3, 1]);
    let product = IrVal::product(&mut ctx, &xs);
    assert_eq!(product, IrVal(7));
    assert_eq!(&ctx.words[20..], &[OP_CONST, 5, to_monty(1), 0, OP_MUL, 6, 5, 0, OP_MUL, 7, 6, 1]);
    assert_eq!(IrVal::sum(&mut ctx, &vec![]), IrVal(8));
}

#[test]
fn constants_are_recorded_before_they_are_used() {
    let mut ctx = IrContext::new();
    let x = IrVal::emit_load(&mut ctx, OP_LOAD_MAIN_LOCAL, 0);
    let nine = Felt { value: 9 };
    assert_eq!(x.add_f(nine, &mut ctx), IrVal(2));
    assert_eq!(x.sub_f(nine, &mut ctx), IrVal(4));
    assert_eq!(x.mul_f(nine, &mut ctx), IrVal(6));
    let c = to_monty(9);
    assert_eq!(
        &ctx.words[4..],
        &[
            OP_CONST, 1, c, 0, OP_ADD, 2, 0, 1, //
            OP_CONST, 3, c, 0, OP_SUB, 4, 0, 3, //
            OP_CONST, 5, c, 0, OP_MUL, 6, 0, 5,
        ]
    );
}
