//! Tests for the reload pass.

use regalloc_core::ir::{
    AbiParam, Affinity, ArgumentLoc, ConstraintKind, Ebb, EncInfo, Function, Instruction,
    Liveness, Opcode, OperandConstraint, RecipeConstraints,
};
use regalloc_core::reload::Reload;

fn reg_op(regclass: u8) -> OperandConstraint {
    OperandConstraint { kind: ConstraintKind::Reg, regclass }
}

fn stack_op() -> OperandConstraint {
    OperandConstraint { kind: ConstraintKind::Stack, regclass: 0 }
}

#[test]
fn reload_noop() {
    // Every affinity already matches: nothing is inserted, nothing changes.
    let enc = EncInfo {
        constraints: vec![RecipeConstraints { ins: vec![reg_op(0), stack_op()], outs: vec![reg_op(0)] }],
    };
    let mut func = Function {
        abi_params: vec![],
        ebbs: vec![Ebb {
            params: vec![],
            insts: vec![Instruction {
                opcode: Opcode::Other(7),
                args: vec![0, 1],
                results: vec![2],
                encoding: Some(0),
            }],
        }],
    };
    let mut liveness = Liveness::from_affinities(vec![
        Affinity::Reg(0),
        Affinity::Stack,
        Affinity::Reg(0),
    ]);
    let mut reload = Reload::new();
    reload.run(&enc, &mut func, &mut liveness);
    assert_eq!(func.ebbs.len(), 1);
    assert_eq!(func.ebbs[0].params, Vec::<usize>::new());
    assert_eq!(func.ebbs[0].insts.len(), 1);
    let inst = &func.ebbs[0].insts[0];
    assert_eq!(inst.opcode, Opcode::Other(7));
    assert_eq!(inst.args, vec![0, 1]);
    assert_eq!(inst.results, vec![2]);
    assert_eq!(inst.encoding, Some(0));
    assert_eq!(liveness.len(), 3);
}

#[test]
fn reload_fill_dedup() {
    // A stack value used twice by register-demanding operands is filled
    // once, and both occurrences are rewritten to the same fresh value.
    let enc = EncInfo {
        constraints: vec![RecipeConstraints {
            ins: vec![reg_op(3), reg_op(3), stack_op()],
            outs: vec![],
        }],
    };
    let mut func = Function {
        abi_params: vec![],
        ebbs: vec![Ebb {
            params: vec![],
            insts: vec![Instruction {
                opcode: Opcode::Other(1),
                args: vec![0, 0, 1],
                results: vec![],
                encoding: Some(0),
            }],
        }],
    };
    let mut liveness = Liveness::from_affinities(vec![Affinity::Stack, Affinity::Stack]);
    let mut reload = Reload::new();
    reload.run(&enc, &mut func, &mut liveness);
    let insts = &func.ebbs[0].insts;
    assert_eq!(insts.len(), 2);
    // Exactly one fill, producing the fresh value 2 from the stack value 0.
    assert_eq!(insts[0].opcode, Opcode::Fill);
    assert_eq!(insts[0].args, vec![0]);
    assert_eq!(insts[0].results, vec![2]);
    assert_eq!(insts[0].encoding, None);
    // Both register-demanded occurrences use the fresh value; the
    // stack-accepting operand's value was not a candidate and stays.
    assert_eq!(insts[1].args, vec![2, 2, 1]);
    assert_eq!(insts[1].opcode, Opcode::Other(1));
    // The fresh value's affinity is the demanded register class.
    assert_eq!(liveness.len(), 3);
    assert_eq!(liveness.get(2), Affinity::Reg(3));
}

#[test]
fn reload_fill_order() {
    // Two distinct stack values: the candidate list drains from its back,
    // so the second operand's fill comes first.
    let enc = EncInfo {
        constraints: vec![RecipeConstraints { ins: vec![reg_op(1), reg_op(2)], outs: vec![] }],
    };
    let mut func = Function {
        abi_params: vec![],
        ebbs: vec![Ebb {
            params: vec![],
            insts: vec![Instruction {
                opcode: Opcode::Other(2),
                args: vec![0, 1],
                results: vec![],
                encoding: Some(0),
            }],
        }],
    };
    let mut liveness = Liveness::from_affinities(vec![Affinity::Stack, Affinity::Stack]);
    let mut reload = Reload::new();
    reload.run(&enc, &mut func, &mut liveness);
    let insts = &func.ebbs[0].insts;
    assert_eq!(insts.len(), 3);
    assert_eq!(insts[0].opcode, Opcode::Fill);
    assert_eq!(insts[0].args, vec![1]);
    assert_eq!(insts[0].results, vec![2]);
    assert_eq!(insts[1].opcode, Opcode::Fill);
    assert_eq!(insts[1].args, vec![0]);
    assert_eq!(insts[1].results, vec![3]);
    assert_eq!(insts[2].args, vec![3, 2]);
    assert_eq!(liveness.get(2), Affinity::Reg(2));
    assert_eq!(liveness.get(3), Affinity::Reg(1));
}

#[test]
fn reload_spill_result() {
    // A result bound to a register slot but with stack affinity is diverted
    // through a fresh temporary; exactly one spill writes it back into the
    // original identity, which downstream instructions keep referencing.
    let enc = EncInfo {
        constraints: vec![
            RecipeConstraints { ins: vec![], outs: vec![reg_op(5)] },
            RecipeConstraints { ins: vec![stack_op()], outs: vec![] },
        ],
    };
    let mut func = Function {
        abi_params: vec![],
        ebbs: vec![Ebb {
            params: vec![],
            insts: vec![
                Instruction {
                    opcode: Opcode::Other(9),
                    args: vec![],
                    results: vec![0],
                    encoding: Some(0),
                },
                Instruction {
                    opcode: Opcode::Other(10),
                    args: vec![0],
                    results: vec![],
                    encoding: Some(1),
                },
            ],
        }],
    };
    let mut liveness = Liveness::from_affinities(vec![Affinity::Stack]);
    let mut reload = Reload::new();
    reload.run(&enc, &mut func, &mut liveness);
    let insts = &func.ebbs[0].insts;
    assert_eq!(insts.len(), 3);
    // The producing instruction now defines the fresh temporary 1.
    assert_eq!(insts[0].opcode, Opcode::Other(9));
    assert_eq!(insts[0].results, vec![1]);
    // Exactly one spill immediately after it restores the original identity.
    assert_eq!(insts[1].opcode, Opcode::Spill);
    assert_eq!(insts[1].args, vec![1]);
    assert_eq!(insts[1].results, vec![0]);
    assert_eq!(insts[1].encoding, None);
    // The downstream use of value 0 is untouched.
    assert_eq!(insts[2].args, vec![0]);
    // The temporary's affinity is the slot's register class.
    assert_eq!(liveness.len(), 2);
    assert_eq!(liveness.get(1), Affinity::Reg(5));
}

#[test]
fn reload_entry_params() {
    // A register-located entry parameter bound to a stack-affinity value is
    // replaced by a fresh register parameter plus one spill at block entry;
    // parameters whose location matches their affinity pass through.
    let enc = EncInfo { constraints: vec![] };
    let mut func = Function {
        abi_params: vec![
            AbiParam { location: ArgumentLoc::Reg(4) },
            AbiParam { location: ArgumentLoc::Stack(8) },
            AbiParam { location: ArgumentLoc::Reg(6) },
        ],
        ebbs: vec![Ebb { params: vec![0, 1, 2], insts: vec![] }],
    };
    let mut liveness = Liveness::from_affinities(vec![
        Affinity::Stack,
        Affinity::Stack,
        Affinity::Reg(6),
    ]);
    let mut reload = Reload::new();
    reload.run(&enc, &mut func, &mut liveness);
    // Only the first parameter is rewritten: value 3 is the fresh register
    // parameter carrying it.
    assert_eq!(func.ebbs[0].params, vec![3, 1, 2]);
    let insts = &func.ebbs[0].insts;
    assert_eq!(insts.len(), 1);
    assert_eq!(insts[0].opcode, Opcode::Spill);
    assert_eq!(insts[0].args, vec![3]);
    assert_eq!(insts[0].results, vec![0]);
    assert_eq!(liveness.len(), 4);
    assert_eq!(liveness.get(3), Affinity::Reg(4));
}

#[test]
fn reload_skips_unencoded() {
    // An instruction without a legal encoding is kept unchanged, whatever
    // its operands' affinities.
    let enc = EncInfo { constraints: vec![] };
    let mut func = Function {
        abi_params: vec![],
        ebbs: vec![Ebb {
            params: vec![],
            insts: vec![Instruction {
                opcode: Opcode::Other(3),
                args: vec![0],
                results: vec![1],
                encoding: None,
            }],
        }],
    };
    let mut liveness = Liveness::from_affinities(vec![Affinity::Stack, Affinity::Stack]);
    let mut reload = Reload::new();
    reload.run(&enc, &mut func, &mut liveness);
    let insts = &func.ebbs[0].insts;
    assert_eq!(insts.len(), 1);
    assert_eq!(insts[0].args, vec![0]);
    assert_eq!(insts[0].results, vec![1]);
    assert_eq!(insts[0].encoding, None);
    assert_eq!(liveness.len(), 2);
}

#[test]
fn reload_second_block() {
    // A non-entry block's parameters are never rewritten, but its
    // instructions are processed like any other.
    let enc = EncInfo {
        constraints: vec![RecipeConstraints { ins: vec![reg_op(0)], outs: vec![] }],
    };
    let mut func = Function {
        abi_params: vec![],
        ebbs: vec![
            Ebb { params: vec![], insts: vec![] },
            Ebb {
                params: vec![0],
                insts: vec![Instruction {
                    opcode: Opcode::Other(4),
                    args: vec![0],
                    results: vec![],
                    encoding: Some(0),
                }],
            },
        ],
    };
    let mut liveness = Liveness::from_affinities(vec![Affinity::Stack]);
    let mut reload = Reload::new();
    reload.run(&enc, &mut func, &mut liveness);
    assert_eq!(func.ebbs[1].params, vec![0]);
    let insts = &func.ebbs[1].insts;
    assert_eq!(insts.len(), 2);
    assert_eq!(insts[0].opcode, Opcode::Fill);
    assert_eq!(insts[0].args, vec![0]);
    assert_eq!(insts[0].results, vec![1]);
    assert_eq!(insts[1].args, vec![1]);
    assert_eq!(liveness.get(1), Affinity::Reg(0));
}

#[test]
fn reload_fill_and_spill() {
    // One instruction needing both: its stack input is filled before it, and
    // both of its stack-affinity results are diverted through fresh
    // temporaries with one spill each after it, in result order.
    let enc = EncInfo {
        constraints: vec![RecipeConstraints {
            ins: vec![reg_op(1)],
            outs: vec![reg_op(2), reg_op(3)],
        }],
    };
    let mut func = Function {
        abi_params: vec![],
        ebbs: vec![Ebb {
            params: vec![],
            insts: vec![Instruction {
                opcode: Opcode::Other(5),
                args: vec![0],
                results: vec![1, 2],
                encoding: Some(0),
            }],
        }],
    };
    let mut liveness = Liveness::from_affinities(vec![
        Affinity::Stack,
        Affinity::Stack,
        Affinity::Stack,
    ]);
    let mut reload = Reload::new();
    reload.run(&enc, &mut func, &mut liveness);
    let insts = &func.ebbs[0].insts;
    assert_eq!(insts.len(), 4);
    assert_eq!(insts[0].opcode, Opcode::Fill);
    assert_eq!(insts[0].args, vec![0]);
    assert_eq!(insts[0].results, vec![3]);
    assert_eq!(insts[1].opcode, Opcode::Other(5));
    assert_eq!(insts[1].args, vec![3]);
    assert_eq!(insts[1].results, vec![4, 5]);
    assert_eq!(insts[2].opcode, Opcode::Spill);
    assert_eq!(insts[2].args, vec![4]);
    assert_eq!(insts[2].results, vec![1]);
    assert_eq!(insts[3].opcode, Opcode::Spill);
    assert_eq!(insts[3].args, vec![5]);
    assert_eq!(insts[3].results, vec![2]);
    assert_eq!(liveness.len(), 6);
    assert_eq!(liveness.get(3), Affinity::Reg(1));
    assert_eq!(liveness.get(4), Affinity::Reg(2));
    assert_eq!(liveness.get(5), Affinity::Reg(3));
}
