//! Reload pass.
//!
//! The reload pass runs between the spilling and coloring phases of the
//! allocator. It rewrites a function's instruction stream so that every
//! operand that demands a register holds a register-resident value: before an
//! instruction it inserts a fill for every distinct stack-resident input
//! bound to a register-demanding operand, and after an instruction it spills
//! every result whose affinity demands stack residency but whose encoding
//! slot is a register, keeping the original value identity for downstream
//! references. Entry-block parameters arriving in registers but bound to
//! stack-resident values get the same treatment at block entry.

use vstd::prelude::*;
use crate::ir::{
    AbiParam, Affinity, ArgumentLoc, ConstraintKind, Ebb, EbbModel, EncInfo, Function,
    FunctionModel, InstModel, Instruction, Liveness, Opcode, OperandConstraint, RecipeConstraints,
    RecipeModel, Value, copy_inst, copy_values, ebb_wf, entry_wf, func_wf, inst_wf, insts_view,
};

verus! {

/// A reload candidate: a stack-resident value used by the current
/// instruction where a register of some class is needed.
#[derive(Clone, Copy, PartialEq, Eq, Structural, Debug)]
pub struct ReloadCandidate {
    /// The stack-resident value.
    pub value: Value,
    /// The top-level register class the operand demands.
    pub regclass: u8,
}

/// A reloaded value: a stack-resident value that has been filled into a
/// fresh register-resident value for the current instruction.
#[derive(Clone, Copy, PartialEq, Eq, Structural, Debug)]
pub struct ReloadedValue {
    /// The original stack-resident value.
    pub stack: Value,
    /// The fresh register-resident value.
    pub reg: Value,
}

/// Whether constraint `c` demands a register.
pub open spec fn wants_reg(c: OperandConstraint) -> bool {
    c.kind is Reg
}

/// Whether input operand `k` of `inst` is a reload candidate: the slot
/// demands a register while the value's affinity is stack.
pub open spec fn is_candidate(
    inst: InstModel,
    cons: RecipeModel,
    aff: Seq<Affinity>,
    k: int,
) -> bool {
    wants_reg(cons.ins[k]) && aff[inst.args[k] as int] is Stack
}

/// The reload candidates among the first `n` input operands, in operand
/// order, duplicates included.
pub open spec fn candidates_upto(
    inst: InstModel,
    cons: RecipeModel,
    aff: Seq<Affinity>,
    n: int,
) -> Seq<ReloadCandidate>
    decreases n,
{
    if n <= 0 {
        Seq::empty()
    } else {
        let pre = candidates_upto(inst, cons, aff, n - 1);
        if is_candidate(inst, cons, aff, n - 1) {
            pre.push(
                ReloadCandidate {
                    value: inst.args[n - 1],
                    regclass: cons.ins[n - 1].regclass,
                },
            )
        } else {
            pre
        }
    }
}

/// All reload candidates of `inst`, in operand order.
pub open spec fn candidates_of(inst: InstModel, cons: RecipeModel, aff: Seq<Affinity>) -> Seq<
    ReloadCandidate,
> {
    candidates_upto(inst, cons, aff, cons.ins.len() as int)
}

/// The candidates that actually get a fill, in emission order: the candidate
/// list is drained from its back, and a value whose fill was already emitted
/// is skipped.
pub open spec fn pop_filter(c: Seq<ReloadCandidate>, seen: Set<Value>) -> Seq<ReloadCandidate>
    decreases c.len(),
{
    if c.len() == 0 {
        Seq::empty()
    } else {
        let cand = c.last();
        if seen.contains(cand.value) {
            pop_filter(c.drop_last(), seen)
        } else {
            seq![cand] + pop_filter(c.drop_last(), seen.insert(cand.value))
        }
    }
}

/// The fills emitted for candidate list `c`, in emission order.
pub open spec fn fill_list(c: Seq<ReloadCandidate>) -> Seq<ReloadCandidate> {
    pop_filter(c, Set::empty())
}

/// The values of a candidate list, in order.
pub open spec fn values_of(c: Seq<ReloadCandidate>) -> Seq<Value> {
    c.map_values(|x: ReloadCandidate| x.value)
}

/// The fill instructions for the emitted candidates `fl`, the `k`-th
/// producing fresh value `base + k` from its stack value.
pub open spec fn fill_insts(fl: Seq<ReloadCandidate>, base: int) -> Seq<InstModel> {
    Seq::new(
        fl.len(),
        |k: int|
            InstModel {
                opcode: Opcode::Fill,
                args: seq![fl[k].value],
                results: seq![(base + k) as usize],
                encoding: None,
            },
    )
}

/// The affinities of the fresh fill values, in emission order.
pub open spec fn fill_affs(fl: Seq<ReloadCandidate>) -> Seq<Affinity> {
    Seq::new(fl.len(), |k: int| Affinity::Reg(fl[k].regclass))
}

/// An input value after rewriting: a reloaded stack value becomes its fresh
/// register value, everything else stays.
pub open spec fn rewrite_arg(fv: Seq<Value>, base: int, v: Value) -> Value {
    if fv.contains(v) {
        (base + fv.index_of(v)) as usize
    } else {
        v
    }
}

/// The input operand list after rewriting.
pub open spec fn rewrite_args(args: Seq<Value>, fv: Seq<Value>, base: int) -> Seq<Value> {
    args.map_values(|v: Value| rewrite_arg(fv, base, v))
}

/// Whether result `j` of `inst` must be spilled: its affinity is stack while
/// its encoding slot demands a register.
pub open spec fn needs_spill(
    inst: InstModel,
    cons: RecipeModel,
    aff: Seq<Affinity>,
    j: int,
) -> bool {
    aff[inst.results[j] as int] is Stack && wants_reg(cons.outs[j])
}

/// The number of results among the first `n` that must be spilled.
pub open spec fn spill_count_upto(
    inst: InstModel,
    cons: RecipeModel,
    aff: Seq<Affinity>,
    n: int,
) -> int
    decreases n,
{
    if n <= 0 {
        0
    } else {
        spill_count_upto(inst, cons, aff, n - 1) + if needs_spill(inst, cons, aff, n - 1) {
            1int
        } else {
            0int
        }
    }
}

/// The outcome of the spill phase over a prefix of the results: the rewritten
/// result list, the appended spill instructions, and the affinities of the
/// fresh temporaries.
#[verifier::ext_equal]
pub ghost struct SpillPhase {
    pub results: Seq<Value>,
    pub spills: Seq<InstModel>,
    pub affs: Seq<Affinity>,
}

/// The spill phase over the first `n` results: a result that must be spilled
/// is replaced by a fresh register temporary (ids counting up from `base`),
/// and a spill writing the temporary back into the original identity is
/// appended; other results stay.
pub open spec fn spill_upto(
    inst: InstModel,
    cons: RecipeModel,
    aff: Seq<Affinity>,
    base: int,
    n: int,
) -> SpillPhase
    decreases n,
{
    if n <= 0 {
        SpillPhase { results: Seq::empty(), spills: Seq::empty(), affs: Seq::empty() }
    } else {
        let pre = spill_upto(inst, cons, aff, base, n - 1);
        let r = inst.results[n - 1];
        if needs_spill(inst, cons, aff, n - 1) {
            let temp = (base + pre.spills.len()) as usize;
            SpillPhase {
                results: pre.results.push(temp),
                spills: pre.spills.push(
                    InstModel {
                        opcode: Opcode::Spill,
                        args: seq![temp],
                        results: seq![r],
                        encoding: None,
                    },
                ),
                affs: pre.affs.push(Affinity::Reg(cons.outs[n - 1].regclass)),
            }
        } else {
            SpillPhase { results: pre.results.push(r), spills: pre.spills, affs: pre.affs }
        }
    }
}

/// The instructions that replace one processed instruction, and the affinity
/// table afterwards.
#[verifier::ext_equal]
pub ghost struct InstReload {
    pub insts: Seq<InstModel>,
    pub aff: Seq<Affinity>,
}

/// What processing one legally encoded instruction does: fills for the
/// distinct stack-resident register-demanded inputs are inserted before it,
/// its inputs are rewritten to the fresh register values, results whose
/// affinity demands stack residency but whose slot is a register are diverted
/// through fresh temporaries, and spills writing those temporaries back into
/// the original identities follow it.
pub open spec fn reload_inst_spec(
    inst: InstModel,
    cons: RecipeModel,
    aff: Seq<Affinity>,
) -> InstReload {
    let cands = candidates_of(inst, cons, aff);
    let fl = fill_list(cands);
    let base = aff.len() as int;
    let fills = fill_insts(fl, base);
    let args1 = rewrite_args(inst.args, values_of(fl), base);
    let base2 = base + fl.len();
    let sp = spill_upto(inst, cons, aff, base2, cons.outs.len() as int);
    let inst1 = InstModel {
        opcode: inst.opcode,
        args: args1,
        results: sp.results,
        encoding: inst.encoding,
    };
    InstReload { insts: fills + seq![inst1] + sp.spills, aff: aff + fill_affs(fl) + sp.affs }
}

/// What processing an instruction sequence does: every instruction with a
/// legal encoding is processed in program order; one without is kept
/// unchanged.
pub open spec fn reload_insts_spec(
    insts: Seq<InstModel>,
    enc: Seq<RecipeModel>,
    aff: Seq<Affinity>,
) -> InstReload
    decreases insts.len(),
{
    if insts.len() == 0 {
        InstReload { insts: Seq::empty(), aff }
    } else {
        let first = insts[0];
        let head = match first.encoding {
            Some(e) => reload_inst_spec(first, enc[e as int], aff),
            None => InstReload { insts: seq![first], aff },
        };
        let rest = reload_insts_spec(insts.drop_first(), enc, head.aff);
        InstReload { insts: head.insts + rest.insts, aff: rest.aff }
    }
}

/// Whether an entry parameter must be rewritten: it arrives in a register but
/// its value's affinity demands stack residency.
pub open spec fn entry_rewrite(loc: ArgumentLoc, paff: Affinity) -> bool {
    loc is Reg && paff is Stack
}

/// The entry parameters, block-entry instructions and affinity table after
/// processing the first `n` entry parameters: a register-located parameter
/// bound to a stack-resident value is replaced by a fresh register-resident
/// parameter that is immediately spilled into the original identity.
#[verifier::ext_equal]
pub ghost struct EntryReload {
    pub params: Seq<Value>,
    pub insts: Seq<InstModel>,
    pub aff: Seq<Affinity>,
}

pub open spec fn entry_params_upto(
    abi: Seq<AbiParam>,
    params: Seq<Value>,
    aff: Seq<Affinity>,
    n: int,
) -> EntryReload
    decreases n,
{
    if n <= 0 {
        EntryReload { params: Seq::empty(), insts: Seq::empty(), aff }
    } else {
        let pre = entry_params_upto(abi, params, aff, n - 1);
        let p = params[n - 1];
        if entry_rewrite(abi[n - 1].location, aff[p as int]) {
            let fresh = pre.aff.len() as usize;
            let rc = match abi[n - 1].location {
                ArgumentLoc::Reg(c) => c,
                _ => 0u8,
            };
            EntryReload {
                params: pre.params.push(fresh),
                insts: pre.insts.push(
                    InstModel {
                        opcode: Opcode::Spill,
                        args: seq![fresh],
                        results: seq![p],
                        encoding: None,
                    },
                ),
                aff: pre.aff.push(Affinity::Reg(rc)),
            }
        } else {
            EntryReload { params: pre.params.push(p), insts: pre.insts, aff: pre.aff }
        }
    }
}

/// A block and the affinity table after processing it.
#[verifier::ext_equal]
pub ghost struct EbbReload {
    pub ebb: EbbModel,
    pub aff: Seq<Affinity>,
}

/// What processing one block does: the entry block's parameters are resolved
/// against their ABI locations first, then every instruction is processed in
/// program order.
/// The header phase of a block: the entry block resolves its parameters
/// against their ABI locations; any other block keeps them.
pub open spec fn ebb_head_spec(
    is_entry: bool,
    ebb: EbbModel,
    abi: Seq<AbiParam>,
    aff: Seq<Affinity>,
) -> EntryReload {
    if is_entry {
        entry_params_upto(abi, ebb.params, aff, abi.len() as int)
    } else {
        EntryReload { params: ebb.params, insts: Seq::empty(), aff }
    }
}

pub open spec fn reload_ebb_spec(
    is_entry: bool,
    ebb: EbbModel,
    abi: Seq<AbiParam>,
    enc: Seq<RecipeModel>,
    aff: Seq<Affinity>,
) -> EbbReload {
    let head = ebb_head_spec(is_entry, ebb, abi, aff);
    let body = reload_insts_spec(ebb.insts, enc, head.aff);
    EbbReload {
        ebb: EbbModel { params: head.params, insts: head.insts + body.insts },
        aff: body.aff,
    }
}

/// The function's blocks and the affinity table after processing the first
/// `n` blocks in storage (dominance) order.
#[verifier::ext_equal]
pub ghost struct FuncReload {
    pub ebbs: Seq<EbbModel>,
    pub aff: Seq<Affinity>,
}

pub open spec fn reload_ebbs_upto(
    f: FunctionModel,
    enc: Seq<RecipeModel>,
    aff: Seq<Affinity>,
    n: int,
) -> FuncReload
    decreases n,
{
    if n <= 0 {
        FuncReload { ebbs: Seq::empty(), aff }
    } else {
        let pre = reload_ebbs_upto(f, enc, aff, n - 1);
        let r = reload_ebb_spec(n - 1 == 0, f.ebbs[n - 1], f.abi_params, enc, pre.aff);
        FuncReload { ebbs: pre.ebbs.push(r.ebb), aff: r.aff }
    }
}

/// What one run of the reload pass does to a whole function.
pub open spec fn reload_func_spec(
    f: FunctionModel,
    enc: Seq<RecipeModel>,
    aff: Seq<Affinity>,
) -> FuncReload {
    reload_ebbs_upto(f, enc, aff, f.ebbs.len() as int)
}

/// Find the reload entry for stack value `v`, if one exists.
fn find_reload(reloads: &Vec<ReloadedValue>, v: Value) -> (r: Option<usize>)
    ensures
        match r {
            Some(m) => (m as int) < reloads@.len() && reloads@[m as int].stack == v,
            None => forall|m: int| 0 <= m < reloads@.len() ==> (#[trigger] reloads@[m]).stack != v,
        },
{
    let n = reloads.len();
    let mut i: usize = 0;
    #[verifier::loop_isolation(false)]
    while i < n
        invariant
            i <= n,
            forall|m: int| 0 <= m < i ==> (#[trigger] reloads@[m]).stack != v,
        decreases n - i,
    {
        if reloads[i].stack == v {
            return Some(i);
        }
        i = i + 1;
    }
    None
}

/// Reusable scratch state for the reload pass.
pub struct Reload {
    candidates: Vec<ReloadCandidate>,
    reloads: Vec<ReloadedValue>,
}

impl Reload {
    /// Between instructions both scratch collections are empty.
    pub closed spec fn wf(&self) -> bool {
        self.candidates@.len() == 0 && self.reloads@.len() == 0
    }

    /// Create a new blank reload pass.
    pub fn new() -> (r: Reload)
        ensures
            r.wf(),
    {
        Reload { candidates: Vec::new(), reloads: Vec::new() }
    }

    /// Process one legally encoded instruction: append its fills, the
    /// rewritten instruction and its spills to `out`, growing `liveness` by
    /// the fresh values.
    #[verifier::loop_isolation(false)]
    fn visit_inst(
        &mut self,
        inst: &Instruction,
        cons: &RecipeConstraints,
        liveness: &mut Liveness,
        out: &mut Vec<Instruction>,
    )
        requires
            old(self).wf(),
            cons@.ins.len() == inst@.args.len(),
            cons@.outs.len() == inst@.results.len(),
            forall|k: int| 0 <= k < inst@.args.len() ==> (#[trigger] inst@.args[k]) < old(
                liveness,
            )@.len(),
            forall|k: int| 0 <= k < inst@.results.len() ==> (#[trigger] inst@.results[k]) < old(
                liveness,
            )@.len(),
        ensures
            final(self).wf(),
            insts_view(final(out)@) == insts_view(old(out)@) + reload_inst_spec(
                inst@,
                cons@,
                old(liveness)@,
            ).insts,
            final(liveness)@ == reload_inst_spec(inst@, cons@, old(liveness)@).aff,
    {
        let ghost aff0 = liveness@;
        let ghost out0 = out@;

        // Identify reload candidates among the inputs, in operand order.
        let nin = inst.args.len();
        let mut k: usize = 0;
        while k < nin
            invariant
                k <= nin,
                self.candidates@ == candidates_upto(inst@, cons@, aff0, k as int),
                self.reloads@.len() == 0,
                liveness@ == aff0,
                out@ == out0,
            decreases nin - k,
        {
            let op = cons.ins[k];
            match op.kind {
                ConstraintKind::Reg => {
                    let a = liveness.get(inst.args[k]);
                    if a.is_stack() {
                        self.candidates.push(
                            ReloadCandidate { value: inst.args[k], regclass: op.regclass },
                        );
                    }
                },
                ConstraintKind::Stack => {},
            }
            k = k + 1;
        }

        // Insert fill instructions, draining the candidate list from its
        // back and filling each distinct stack value once.
        let ghost cands = candidates_of(inst@, cons@, aff0);
        let ghost base = aff0.len() as int;
        let ghost fl = fill_list(cands);
        let ghost mut emitted: Seq<ReloadCandidate> = Seq::empty();
        proof {
            assert(self.candidates@ == cands);
            assert(values_of(emitted) =~~= Seq::<Value>::empty());
            assert(values_of(emitted).to_set() =~~= Set::<Value>::empty());
        }
        while self.candidates.len() > 0
            invariant
                fl == emitted + pop_filter(self.candidates@, values_of(emitted).to_set()),
                self.reloads@.len() == emitted.len(),
                forall|m: int|
                    0 <= m < emitted.len() ==> (#[trigger] self.reloads@[m]).stack
                        == emitted[m].value && self.reloads@[m].reg as int == base + m,
                liveness@ == aff0 + fill_affs(emitted),
                insts_view(out@) == insts_view(out0) + fill_insts(emitted, base),
            decreases self.candidates@.len(),
        {
            let copt = self.candidates.pop();
            let cand = copt.unwrap();
            let ghost rest = self.candidates@;
            let ghost seen = values_of(emitted).to_set();
            match find_reload(&self.reloads, cand.value) {
                Some(_) => {
                    proof {
                        assert(seen.contains(cand.value)) by {
                            let m = choose|m: int|
                                0 <= m < self.reloads@.len() && #[trigger] self.reloads@[m].stack
                                    == cand.value;
                            assert(values_of(emitted)[m] == cand.value);
                        }
                    }
                },
                None => {
                    proof {
                        assert(!seen.contains(cand.value)) by {
                            if seen.contains(cand.value) {
                                let m = choose|m: int|
                                    0 <= m < values_of(emitted).len() && values_of(emitted)[m]
                                        == cand.value;
                                assert(self.reloads@[m].stack == cand.value);
                            }
                        }
                    }
                    let reg = liveness.create(Affinity::Reg(cand.regclass));
                    let mut fill_args: Vec<Value> = Vec::new();
                    fill_args.push(cand.value);
                    let mut fill_results: Vec<Value> = Vec::new();
                    fill_results.push(reg);
                    let ghost fa = fill_args@;
                    let ghost fr = fill_results@;
                    let ghost out_pre = out@;
                    out.push(
                        Instruction {
                            opcode: Opcode::Fill,
                            args: fill_args,
                            results: fill_results,
                            encoding: None,
                        },
                    );
                    self.reloads.push(ReloadedValue { stack: cand.value, reg });
                    proof {
                        let em1 = emitted.push(cand);
                        lemma_values_push(emitted, cand);
                        assert(values_of(em1).to_set() =~~= seen.insert(cand.value));
                        assert(emitted + (seq![cand] + pop_filter(rest, seen.insert(cand.value)))
                            =~~= em1 + pop_filter(rest, values_of(em1).to_set()));
                        assert(liveness@ =~~= aff0 + fill_affs(em1));
                        let newm = InstModel {
                            opcode: Opcode::Fill,
                            args: seq![cand.value],
                            results: seq![reg],
                            encoding: None,
                        };
                        assert(fa =~~= seq![cand.value]);
                        assert(fr =~~= seq![reg]);
                        assert(out@ =~~= out_pre.push(out@.last()));
                        assert(out@.last()@ =~~= newm);
                        assert(reg as int == base + emitted.len());
                        assert(fill_insts(em1, base)[emitted.len() as int] =~~= newm);
                        assert(fill_insts(em1, base) =~~= fill_insts(emitted, base).push(newm));
                        assert(insts_view(out@) =~~= insts_view(out_pre).push(newm));
                        assert(insts_view(out@) =~~= insts_view(out0) + fill_insts(em1, base));
                        emitted = em1;
                    }
                },
            }
        }
        proof {
            assert(pop_filter(self.candidates@, values_of(emitted).to_set())
                =~~= Seq::<ReloadCandidate>::empty());
            assert(fl =~~= emitted);
        }

        // The emitted fills have pairwise distinct stack values.
        proof {
            assert forall|m1: int, m2: int|
                0 <= m1 < m2 < fl.len() implies (#[trigger] fl[m1]).value
                != (#[trigger] fl[m2]).value by {
                assert(self.reloads@[m1].stack == fl[m1].value);
                assert(self.reloads@[m2].stack == fl[m2].value);
                lemma_pop_filter_distinct(cands, Set::empty());
                assert(values_of(fl)[m1] == fl[m1].value);
                assert(values_of(fl)[m2] == fl[m2].value);
            }
        }

        // Rewrite the inputs, replacing every occurrence of a reloaded stack
        // value with its fresh register value.
        let mut args1: Vec<Value> = Vec::new();
        let ghost fv = values_of(fl);
        let mut k2: usize = 0;
        while k2 < nin
            invariant
                k2 <= nin,
                args1@.len() == k2,
                forall|idx: int|
                    0 <= idx < k2 ==> #[trigger] args1@[idx] == rewrite_arg(
                        fv,
                        base,
                        inst@.args[idx],
                    ),
                self.candidates@.len() == 0,
                self.reloads@.len() == fl.len(),
                forall|m: int|
                    0 <= m < fl.len() ==> (#[trigger] self.reloads@[m]).stack == fl[m].value
                        && self.reloads@[m].reg as int == base + m,
                liveness@ == aff0 + fill_affs(fl),
                insts_view(out@) == insts_view(out0) + fill_insts(fl, base),
            decreases nin - k2,
        {
            let v = inst.args[k2];
            match find_reload(&self.reloads, v) {
                Some(m) => {
                    proof {
                        assert(values_of(fl)[m as int] == v);
                        assert(fv.contains(v));
                        let i0 = fv.index_of(v);
                        assert(fv[i0] == v);
                        lemma_pop_filter_distinct(cands, Set::empty());
                        assert(fv[m as int] == v);
                        assert(i0 == m as int);
                    }
                    args1.push(self.reloads[m].reg);
                },
                None => {
                    proof {
                        assert(!fv.contains(v)) by {
                            if fv.contains(v) {
                                let i0 = choose|i0: int|
                                    0 <= i0 < fv.len() && #[trigger] fv[i0] == v;
                                assert(self.reloads@[i0].stack == fl[i0].value);
                                assert(values_of(fl)[i0] == fl[i0].value);
                            }
                        }
                    }
                    args1.push(v);
                },
            }
            k2 = k2 + 1;
        }
        proof {
            assert(args1@ =~~= rewrite_args(inst@.args, fv, base));
        }

        // The per-instruction reload cache is scoped to this instruction.
        self.reloads.clear();

        // Rewrite register results that need to be spilled, appending the
        // spills after the instruction so downstream references to the
        // original identities stay valid.
        let ghost base2 = base + fl.len();
        let ghost aff1 = aff0 + fill_affs(fl);
        let nout = inst.results.len();
        let mut results1: Vec<Value> = Vec::new();
        let mut spill_buf: Vec<Instruction> = Vec::new();
        let mut j: usize = 0;
        while j < nout
            invariant
                j <= nout,
                results1@ == spill_upto(inst@, cons@, aff0, base2, j as int).results,
                insts_view(spill_buf@) == spill_upto(inst@, cons@, aff0, base2, j as int).spills,
                liveness@ == aff1 + spill_upto(inst@, cons@, aff0, base2, j as int).affs,
                self.candidates@.len() == 0,
                self.reloads@.len() == 0,
                insts_view(out@) == insts_view(out0) + fill_insts(fl, base),
            decreases nout - j,
        {
            proof {
                lemma_spill_counts(inst@, cons@, aff0, base2, j as int);
            }
            let rv = inst.results[j];
            let op = cons.outs[j];
            let a = liveness.get(rv);
            let ghost sp_pre = spill_upto(inst@, cons@, aff0, base2, j as int);
            proof {
                assert(liveness@[rv as int] == aff0[rv as int]);
            }
            let needs = match op.kind {
                ConstraintKind::Reg => a.is_stack(),
                ConstraintKind::Stack => false,
            };
            if needs {
                let temp = liveness.create(Affinity::Reg(op.regclass));
                results1.push(temp);
                let mut sp_args: Vec<Value> = Vec::new();
                sp_args.push(temp);
                let mut sp_results: Vec<Value> = Vec::new();
                sp_results.push(rv);
                spill_buf.push(
                    Instruction {
                        opcode: Opcode::Spill,
                        args: sp_args,
                        results: sp_results,
                        encoding: None,
                    },
                );
                proof {
                    let sp1 = spill_upto(inst@, cons@, aff0, base2, j as int + 1);
                    assert(insts_view(spill_buf@) =~~= sp1.spills);
                    assert(liveness@ =~~= aff1 + sp1.affs);
                }
            } else {
                results1.push(rv);
            }
            j = j + 1;
        }

        // Emit the rewritten instruction, then the spills.
        let ghost sp = spill_upto(inst@, cons@, aff0, base2, nout as int);
        out.push(
            Instruction { opcode: inst.opcode, args: args1, results: results1, encoding: inst.encoding },
        );
        let mut si: usize = 0;
        let nsp = spill_buf.len();
        let ghost out1 = out@;
        while si < nsp
            invariant
                si <= nsp,
                insts_view(out@) == insts_view(out1) + insts_view(spill_buf@).subrange(
                    0,
                    si as int,
                ),
            decreases nsp - si,
        {
            let ghost out_pre = out@;
            out.push(copy_inst(&spill_buf[si]));
            proof {
                assert(out@ =~~= out_pre.push(out@.last()));
                assert(out@.last()@ == spill_buf@[si as int]@);
                assert(insts_view(out@) =~~= insts_view(out_pre).push(spill_buf@[si as int]@));
                assert(insts_view(spill_buf@).subrange(0, si as int).push(spill_buf@[si as int]@)
                    =~~= insts_view(spill_buf@).subrange(0, si as int + 1));
                assert(insts_view(out@) =~~= insts_view(out1) + insts_view(spill_buf@).subrange(
                    0,
                    si as int + 1,
                ));
            }
            si = si + 1;
        }
        proof {
            assert(insts_view(spill_buf@).subrange(0, nsp as int) =~~= insts_view(spill_buf@));
            let r = reload_inst_spec(inst@, cons@, aff0);
            let inst1 = InstModel {
                opcode: inst@.opcode,
                args: rewrite_args(inst@.args, fv, base),
                results: sp.results,
                encoding: inst@.encoding,
            };
            assert(insts_view(out1) =~~= insts_view(out0) + fill_insts(fl, base) + seq![inst1]);
            assert(insts_view(out@) =~~= insts_view(out1) + insts_view(spill_buf@));
            assert(insts_view(out@) =~~= insts_view(out0) + r.insts);
            assert(liveness@ =~~= r.aff);
        }
    }

    /// Visit the parameters of the entry block. These values are bound to ABI
    /// locations from the function signature: a register-located parameter
    /// whose value's affinity demands stack residency is replaced by a fresh
    /// register-resident parameter that is immediately spilled into the
    /// original identity.
    #[verifier::loop_isolation(false)]
    fn visit_entry_args(
        &self,
        ebb: &Ebb,
        abi: &Vec<AbiParam>,
        liveness: &mut Liveness,
        out: &mut Vec<Instruction>,
    ) -> (params: Vec<Value>)
        requires
            old(out)@.len() == 0,
            entry_wf(abi@, ebb@.params, old(liveness)@),
        ensures
            params@ == entry_params_upto(abi@, ebb@.params, old(liveness)@, abi@.len() as int).params,
            insts_view(final(out)@) == entry_params_upto(
                abi@,
                ebb@.params,
                old(liveness)@,
                abi@.len() as int,
            ).insts,
            final(liveness)@ == entry_params_upto(
                abi@,
                ebb@.params,
                old(liveness)@,
                abi@.len() as int,
            ).aff,
    {
        let ghost aff0 = liveness@;
        let ghost gparams = ebb@.params;
        let n = abi.len();
        let mut params: Vec<Value> = Vec::new();
        let mut j: usize = 0;
        while j < n
            invariant
                j <= n,
                params@ == entry_params_upto(abi@, gparams, aff0, j as int).params,
                insts_view(out@) == entry_params_upto(abi@, gparams, aff0, j as int).insts,
                liveness@ == entry_params_upto(abi@, gparams, aff0, j as int).aff,
            decreases n - j,
        {
            proof {
                lemma_entry_aff_prefix(abi@, gparams, aff0, j as int);
            }
            let p = ebb.params[j];
            let loc = abi[j].location;
            let ghost pre = entry_params_upto(abi@, gparams, aff0, j as int);
            match loc {
                ArgumentLoc::Reg(rcid) => {
                    let a = liveness.get(p);
                    proof {
                        assert(a == aff0[p as int]);
                    }
                    if a.is_stack() {
                        let fresh = liveness.create(Affinity::Reg(rcid));
                        params.push(fresh);
                        let mut sp_args: Vec<Value> = Vec::new();
                        sp_args.push(fresh);
                        let mut sp_results: Vec<Value> = Vec::new();
                        sp_results.push(p);
                        let ghost sa = sp_args@;
                        let ghost sr = sp_results@;
                        let ghost out_pre = out@;
                        out.push(
                            Instruction {
                                opcode: Opcode::Spill,
                                args: sp_args,
                                results: sp_results,
                                encoding: None,
                            },
                        );
                        proof {
                            let post = entry_params_upto(abi@, gparams, aff0, j as int + 1);
                            let newm = InstModel {
                                opcode: Opcode::Spill,
                                args: seq![fresh],
                                results: seq![p],
                                encoding: None,
                            };
                            assert(sa =~~= seq![fresh]);
                            assert(sr =~~= seq![p]);
                            assert(out@ =~~= out_pre.push(out@.last()));
                            assert(out@.last()@ =~~= newm);
                            assert(insts_view(out@) =~~= insts_view(out_pre).push(newm));
                            assert(insts_view(out@) =~~= post.insts);
                            assert(params@ =~~= post.params);
                            assert(liveness@ =~~= post.aff);
                        }
                    } else {
                        params.push(p);
                    }
                },
                ArgumentLoc::Stack(_) => {
                    params.push(p);
                },
                ArgumentLoc::Unassigned => {
                    // Ruled out by `entry_wf`: earlier passes assign every
                    // location.
                    params.push(p);
                },
            }
            j = j + 1;
        }
        params
    }

    /// Visit the parameters of a non-entry block: register movement across
    /// block boundaries is out of scope of this instruction-local scheme, so
    /// they pass through unchanged.
    fn visit_ebb_args(&self, ebb: &Ebb) -> (params: Vec<Value>)
        ensures
            params@ == ebb@.params,
    {
        copy_values(&ebb.params)
    }

    /// Process a block's parameters; returns the block's parameter list for
    /// the rewritten block.
    fn visit_ebb_header(
        &self,
        is_entry: bool,
        ebb: &Ebb,
        abi: &Vec<AbiParam>,
        liveness: &mut Liveness,
        out: &mut Vec<Instruction>,
    ) -> (params: Vec<Value>)
        requires
            old(out)@.len() == 0,
            is_entry ==> entry_wf(abi@, ebb@.params, old(liveness)@),
        ensures
            ({
                let h = ebb_head_spec(is_entry, ebb@, abi@, old(liveness)@);
                &&& params@ == h.params
                &&& insts_view(final(out)@) == h.insts
                &&& final(liveness)@ == h.aff
            }),
    {
        if is_entry {
            self.visit_entry_args(ebb, abi, liveness, out)
        } else {
            self.visit_ebb_args(ebb)
        }
    }

    /// Process one block: resolve its parameters, then walk its instructions
    /// in program order, rewriting each legally encoded one.
    #[verifier::loop_isolation(false)]
    fn visit_ebb(
        &mut self,
        is_entry: bool,
        ebb: &Ebb,
        abi: &Vec<AbiParam>,
        enc: &EncInfo,
        liveness: &mut Liveness,
    ) -> (r: Ebb)
        requires
            old(self).wf(),
            ebb_wf(ebb@, enc@, old(liveness)@.len() as int),
            is_entry ==> entry_wf(abi@, ebb@.params, old(liveness)@),
        ensures
            final(self).wf(),
            r@ == reload_ebb_spec(is_entry, ebb@, abi@, enc@, old(liveness)@).ebb,
            final(liveness)@ == reload_ebb_spec(is_entry, ebb@, abi@, enc@, old(liveness)@).aff,
    {
        let ghost aff0 = liveness@;
        let mut out: Vec<Instruction> = Vec::new();
        let params = self.visit_ebb_header(is_entry, ebb, abi, liveness, &mut out);
        let ghost head = ebb_head_spec(is_entry, ebb@, abi@, aff0);
        let ghost head_len = out@.len() as int;
        let ghost aff_mid = liveness@;
        proof {
            if is_entry {
                lemma_entry_aff_prefix(abi@, ebb@.params, aff0, abi@.len() as int);
            }
            assert(insts_view(out@).take(head_len) =~~= head.insts);
            assert(insts_view(out@).skip(head_len) =~~= Seq::<InstModel>::empty());
            assert(ebb@.insts.skip(0) =~~= ebb@.insts);
        }
        let m = ebb.insts.len();
        let mut i: usize = 0;
        while i < m
            invariant
                i <= m,
                self.wf(),
                params@ == head.params,
                out@.len() >= head_len,
                insts_view(out@).take(head_len) == head.insts,
                aff0.len() <= liveness@.len(),
                reload_insts_spec(ebb@.insts, enc@, aff_mid).insts == insts_view(out@).skip(
                    head_len,
                ) + reload_insts_spec(ebb@.insts.skip(i as int), enc@, liveness@).insts,
                reload_insts_spec(ebb@.insts, enc@, aff_mid).aff == reload_insts_spec(
                    ebb@.insts.skip(i as int),
                    enc@,
                    liveness@,
                ).aff,
            decreases m - i,
        {
            let inst = &ebb.insts[i];
            let ghost affcur = liveness@;
            let ghost sub = ebb@.insts.skip(i as int);
            let ghost out_pre = out@;
            proof {
                assert(sub[0] == ebb@.insts[i as int]);
                assert(ebb@.insts[i as int] == ebb.insts@[i as int]@);
                assert(sub.drop_first() =~~= ebb@.insts.skip(i as int + 1));
                assert(inst_wf(ebb@.insts[i as int], enc@, aff0.len() as int));
            }
            let ghost head_i: InstReload;
            match inst.encoding {
                Some(e) => {
                    let cons = &enc.constraints[e];
                    proof {
                        assert(cons@ =~~= enc@[e as int]);
                        head_i = reload_inst_spec(inst@, cons@, affcur);
                    }
                    self.visit_inst(inst, cons, liveness, &mut out);
                },
                None => {
                    out.push(copy_inst(inst));
                    proof {
                        head_i = InstReload { insts: seq![inst@], aff: affcur };
                        assert(out@ =~~= out_pre.push(out@.last()));
                        assert(insts_view(out@) =~~= insts_view(out_pre) + head_i.insts);
                    }
                },
            }
            proof {
                assert(insts_view(out@) =~~= insts_view(out_pre) + head_i.insts);
                assert(liveness@ == head_i.aff);
                assert(reload_insts_spec(sub, enc@, affcur).insts == head_i.insts
                    + reload_insts_spec(sub.drop_first(), enc@, head_i.aff).insts);
                assert(reload_insts_spec(sub, enc@, affcur).aff == reload_insts_spec(
                    sub.drop_first(),
                    enc@,
                    head_i.aff,
                ).aff);
                assert(insts_view(out@).take(head_len) =~~= head.insts);
                assert(insts_view(out@).skip(head_len) =~~= insts_view(out_pre).skip(head_len)
                    + head_i.insts);
                assert(insts_view(out@).skip(head_len) + reload_insts_spec(
                    ebb@.insts.skip(i as int + 1),
                    enc@,
                    liveness@,
                ).insts =~~= insts_view(out_pre).skip(head_len) + (head_i.insts
                    + reload_insts_spec(ebb@.insts.skip(i as int + 1), enc@, liveness@).insts));
            }
            i = i + 1;
        }
        proof {
            assert(ebb@.insts.skip(m as int) =~~= Seq::<InstModel>::empty());
        }
        let r = Ebb { params, insts: out };
        proof {
            let spec_r = reload_ebb_spec(is_entry, ebb@, abi@, enc@, aff0);
            assert(insts_view(r.insts@) =~~= insts_view(r.insts@).take(head_len) + insts_view(
                r.insts@,
            ).skip(head_len));
            assert(r@ =~~= spec_r.ebb);
            assert(liveness@ =~~= spec_r.aff);
        }
        r
    }

    /// Run the reload algorithm over `func`, rewriting it in place and
    /// growing `liveness` by the fresh values the rewrite introduces.
    #[verifier::loop_isolation(false)]
    pub fn run(&mut self, enc: &EncInfo, func: &mut Function, liveness: &mut Liveness)
        requires
            old(self).wf(),
            func_wf(old(func)@, enc@, old(liveness)@),
        ensures
            final(self).wf(),
            final(func)@.abi_params == old(func)@.abi_params,
            final(func)@.ebbs == reload_func_spec(old(func)@, enc@, old(liveness)@).ebbs,
            final(liveness)@ == reload_func_spec(old(func)@, enc@, old(liveness)@).aff,
    {
        let ghost f0 = func@;
        let ghost aff0 = liveness@;
        let n = func.ebbs.len();
        let mut new_ebbs: Vec<Ebb> = Vec::new();
        let mut e: usize = 0;
        while e < n
            invariant
                e <= n,
                self.wf(),
                func@ == f0,
                n == f0.ebbs.len(),
                new_ebbs@.len() == e,
                new_ebbs@.map_values(|x: Ebb| x@) == reload_ebbs_upto(f0, enc@, aff0, e as int).ebbs,
                liveness@ == reload_ebbs_upto(f0, enc@, aff0, e as int).aff,
                aff0.len() <= liveness@.len(),
            decreases n - e,
        {
            let is_entry = e == 0;
            proof {
                assert(func.ebbs@[e as int]@ == f0.ebbs[e as int]);
                assert(ebb_wf(f0.ebbs[e as int], enc@, aff0.len() as int));
                lemma_ebb_wf_mono(f0.ebbs[e as int], enc@, aff0.len() as int, liveness@.len() as int);
            }
            let ghost pre = reload_ebbs_upto(f0, enc@, aff0, e as int);
            let new_ebb = self.visit_ebb(is_entry, &func.ebbs[e], &func.abi_params, enc, liveness);
            let ghost r = reload_ebb_spec(is_entry, f0.ebbs[e as int], f0.abi_params, enc@, pre.aff);
            new_ebbs.push(new_ebb);
            proof {
                assert(new_ebb@ == r.ebb);
                assert(new_ebbs@.map_values(|x: Ebb| x@) =~~= reload_ebbs_upto(
                    f0,
                    enc@,
                    aff0,
                    e as int,
                ).ebbs.push(r.ebb));
                if is_entry {
                    lemma_entry_aff_prefix(f0.abi_params, f0.ebbs[0].params, pre.aff, f0.abi_params.len() as int);
                }
                lemma_reload_insts_aff_len(
                    f0.ebbs[e as int].insts,
                    enc@,
                    ebb_head_spec(is_entry, f0.ebbs[e as int], f0.abi_params, pre.aff).aff,
                );
            }
            e = e + 1;
        }
        func.ebbs = new_ebbs;
        proof {
            assert(func@.ebbs =~~= reload_func_spec(f0, enc@, aff0).ebbs);
        }
    }
}

/// Processing the entry parameters only appends fresh affinities: existing
/// values keep theirs.
proof fn lemma_entry_aff_prefix(abi: Seq<AbiParam>, params: Seq<Value>, aff: Seq<Affinity>, n: int)
    ensures
        entry_params_upto(abi, params, aff, n).aff.len() >= aff.len(),
        forall|i: int|
            0 <= i < aff.len() ==> #[trigger] entry_params_upto(abi, params, aff, n).aff[i]
                == aff[i],
        entry_params_upto(abi, params, aff, n).params.len() == if n <= 0 {
            0int
        } else {
            n
        },
    decreases n,
{
    if n > 0 {
        lemma_entry_aff_prefix(abi, params, aff, n - 1);
    }
}

/// Processing an instruction sequence never shrinks the affinity table.
proof fn lemma_reload_insts_aff_len(insts: Seq<InstModel>, enc: Seq<RecipeModel>, aff: Seq<Affinity>)
    ensures
        reload_insts_spec(insts, enc, aff).aff.len() >= aff.len(),
    decreases insts.len(),
{
    if insts.len() > 0 {
        let first = insts[0];
        let head = match first.encoding {
            Some(e) => reload_inst_spec(first, enc[e as int], aff),
            None => InstReload { insts: seq![first], aff },
        };
        lemma_reload_insts_aff_len(insts.drop_first(), enc, head.aff);
    }
}

/// A block or instruction well formed over `n1` known values stays well
/// formed when more values exist.
proof fn lemma_ebb_wf_mono(e: EbbModel, enc: Seq<RecipeModel>, n1: int, n2: int)
    requires
        ebb_wf(e, enc, n1),
        n1 <= n2,
    ensures
        ebb_wf(e, enc, n2),
{
    assert forall|k: int| 0 <= k < e.insts.len() implies inst_wf(
        #[trigger] e.insts[k],
        enc,
        n2,
    ) by {
        assert(inst_wf(e.insts[k], enc, n1));
    }
}

/// The spill phase keeps its three sequences in step: after `n` results, the
/// result list has `n` entries and the spills and fresh affinities both count
/// the results that needed a spill.
proof fn lemma_spill_counts(
    inst: InstModel,
    cons: RecipeModel,
    aff: Seq<Affinity>,
    base: int,
    n: int,
)
    requires
        n >= 0,
    ensures
        spill_upto(inst, cons, aff, base, n).results.len() == n,
        spill_upto(inst, cons, aff, base, n).spills.len() == spill_count_upto(inst, cons, aff, n),
        spill_upto(inst, cons, aff, base, n).affs.len() == spill_count_upto(inst, cons, aff, n),
    decreases n,
{
    if n > 0 {
        lemma_spill_counts(inst, cons, aff, base, n - 1);
    }
}

/// Pushing a candidate adds exactly its value to the set of values.
proof fn lemma_values_push(s: Seq<ReloadCandidate>, cand: ReloadCandidate)
    ensures
        values_of(s.push(cand)) =~~= values_of(s).push(cand.value),
        values_of(s.push(cand)).to_set() =~~= values_of(s).to_set().insert(cand.value),
{
    let vs = values_of(s);
    let vs1 = values_of(s.push(cand));
    assert(vs1 =~~= vs.push(cand.value));
    assert forall|x: Value| vs1.to_set().contains(x) implies vs.to_set().insert(
        cand.value,
    ).contains(x) by {
        let i = choose|i: int| 0 <= i < vs1.len() && vs1[i] == x;
        if i < vs.len() {
            assert(vs.contains(x));
        }
    }
    assert forall|x: Value| vs.to_set().insert(cand.value).contains(x) implies vs1.to_set()
        .contains(x) by {
        if x == cand.value {
            assert(vs1[vs.len() as int] == x);
            assert(vs1.contains(x));
        } else {
            let i = choose|i: int| 0 <= i < vs.len() && vs[i] == x;
            assert(vs1[i] == x);
            assert(vs1.contains(x));
        }
    }
    assert(vs1.to_set() =~~= vs.to_set().insert(cand.value));
}

/// The emitted fill list never repeats a stack value, and never emits one
/// from `seen`.
proof fn lemma_pop_filter_distinct(c: Seq<ReloadCandidate>, seen: Set<Value>)
    ensures
        values_of(pop_filter(c, seen)).no_duplicates(),
        forall|m: int|
            0 <= m < pop_filter(c, seen).len() ==> !seen.contains(
                (#[trigger] pop_filter(c, seen)[m]).value,
            ),
    decreases c.len(),
{
    if c.len() > 0 {
        let cand = c.last();
        if seen.contains(cand.value) {
            lemma_pop_filter_distinct(c.drop_last(), seen);
            assert(pop_filter(c, seen) == pop_filter(c.drop_last(), seen));
        } else {
            lemma_pop_filter_distinct(c.drop_last(), seen.insert(cand.value));
            let rest = pop_filter(c.drop_last(), seen.insert(cand.value));
            let whole = pop_filter(c, seen);
            assert(whole == seq![cand] + rest);
            assert forall|m: int| 0 <= m < whole.len() implies !seen.contains(
                (#[trigger] whole[m]).value,
            ) by {
                if m > 0 {
                    assert(whole[m] == rest[m - 1]);
                    assert(!seen.insert(cand.value).contains(rest[m - 1].value));
                }
            }
            let vs = values_of(whole);
            assert forall|m1: int, m2: int| 0 <= m1 < m2 < vs.len() implies #[trigger] vs[m1]
                != #[trigger] vs[m2] by {
                if m1 == 0 {
                    assert(whole[m2] == rest[m2 - 1]);
                    assert(!seen.insert(cand.value).contains(rest[m2 - 1].value));
                    assert(vs[m2] == rest[m2 - 1].value);
                } else {
                    assert(whole[m1] == rest[m1 - 1]);
                    assert(whole[m2] == rest[m2 - 1]);
                    assert(values_of(rest)[m1 - 1] == rest[m1 - 1].value);
                    assert(values_of(rest)[m2 - 1] == rest[m2 - 1].value);
                }
            }
        }
    }
}

/// Whether a legally encoded instruction needs no work: no input is a reload
/// candidate and no result needs a spill.
pub open spec fn inst_noop(i: InstModel, enc: Seq<RecipeModel>, aff: Seq<Affinity>) -> bool {
    match i.encoding {
        Some(e) => {
            &&& forall|k: int|
                0 <= k < enc[e as int].ins.len() ==> !is_candidate(i, enc[e as int], aff, k)
            &&& forall|j: int|
                0 <= j < enc[e as int].outs.len() ==> !needs_spill(i, enc[e as int], aff, j)
        },
        None => true,
    }
}

/// Whether no instruction of block `e` needs any work.
pub open spec fn ebb_noop(e: EbbModel, enc: Seq<RecipeModel>, aff: Seq<Affinity>) -> bool {
    forall|i: int| 0 <= i < e.insts.len() ==> inst_noop(#[trigger] e.insts[i], enc, aff)
}

/// Whether no entry parameter needs rewriting: each location already matches
/// its value's affinity.
pub open spec fn entry_noop(abi: Seq<AbiParam>, params: Seq<Value>, aff: Seq<Affinity>) -> bool {
    forall|j: int|
        0 <= j < abi.len() ==> !entry_rewrite(
            (#[trigger] abi[j]).location,
            aff[params[j] as int],
        )
}

proof fn lemma_candidates_noop(inst: InstModel, cons: RecipeModel, aff: Seq<Affinity>, n: int)
    requires
        forall|k: int| 0 <= k < n ==> !is_candidate(inst, cons, aff, k),
    ensures
        candidates_upto(inst, cons, aff, n).len() == 0,
    decreases n,
{
    if n > 0 {
        lemma_candidates_noop(inst, cons, aff, n - 1);
    }
}

proof fn lemma_spill_noop(inst: InstModel, cons: RecipeModel, aff: Seq<Affinity>, base: int, n: int)
    requires
        0 <= n <= inst.results.len(),
        forall|j: int| 0 <= j < n ==> !needs_spill(inst, cons, aff, j),
    ensures
        spill_upto(inst, cons, aff, base, n).results == inst.results.subrange(0, n),
        spill_upto(inst, cons, aff, base, n).spills.len() == 0,
        spill_upto(inst, cons, aff, base, n).affs.len() == 0,
    decreases n,
{
    if n > 0 {
        lemma_spill_noop(inst, cons, aff, base, n - 1);
        assert(inst.results.subrange(0, n) =~~= inst.results.subrange(0, n - 1).push(
            inst.results[n - 1],
        ));
    } else {
        assert(inst.results.subrange(0, 0) =~~= Seq::<Value>::empty());
    }
}

proof fn lemma_reload_inst_noop(inst: InstModel, cons: RecipeModel, aff: Seq<Affinity>)
    requires
        cons.ins.len() == inst.args.len(),
        cons.outs.len() == inst.results.len(),
        forall|k: int| 0 <= k < cons.ins.len() ==> !is_candidate(inst, cons, aff, k),
        forall|j: int| 0 <= j < cons.outs.len() ==> !needs_spill(inst, cons, aff, j),
    ensures
        reload_inst_spec(inst, cons, aff).insts == seq![inst],
        reload_inst_spec(inst, cons, aff).aff == aff,
{
    lemma_candidates_noop(inst, cons, aff, cons.ins.len() as int);
    let cands = candidates_of(inst, cons, aff);
    assert(cands =~~= Seq::<ReloadCandidate>::empty());
    let fl = fill_list(cands);
    assert(fl =~~= Seq::<ReloadCandidate>::empty());
    let fv = values_of(fl);
    assert(fv.len() == 0);
    assert forall|k: int| 0 <= k < inst.args.len() implies #[trigger] rewrite_arg(
        fv,
        aff.len() as int,
        inst.args[k],
    ) == inst.args[k] by {
        assert(!fv.contains(inst.args[k]));
    }
    assert(rewrite_args(inst.args, fv, aff.len() as int) =~~= inst.args);
    lemma_spill_noop(inst, cons, aff, aff.len() as int, cons.outs.len() as int);
    assert(inst.results.subrange(0, inst.results.len() as int) =~~= inst.results);
    let r = reload_inst_spec(inst, cons, aff);
    assert(r.insts =~~= seq![inst]);
    assert(r.aff =~~= aff);
}

proof fn lemma_reload_insts_noop(insts: Seq<InstModel>, enc: Seq<RecipeModel>, aff: Seq<Affinity>)
    requires
        forall|i: int| 0 <= i < insts.len() ==> inst_wf(#[trigger] insts[i], enc, aff.len() as int),
        forall|i: int| 0 <= i < insts.len() ==> inst_noop(#[trigger] insts[i], enc, aff),
    ensures
        reload_insts_spec(insts, enc, aff).insts == insts,
        reload_insts_spec(insts, enc, aff).aff == aff,
    decreases insts.len(),
{
    if insts.len() > 0 {
        let first = insts[0];
        match first.encoding {
            Some(e) => {
                lemma_reload_inst_noop(first, enc[e as int], aff);
            },
            None => {},
        }
        assert forall|i: int| 0 <= i < insts.drop_first().len() implies inst_wf(
            #[trigger] insts.drop_first()[i],
            enc,
            aff.len() as int,
        ) && inst_noop(insts.drop_first()[i], enc, aff) by {
            assert(insts.drop_first()[i] == insts[i + 1]);
        }
        lemma_reload_insts_noop(insts.drop_first(), enc, aff);
        assert(reload_insts_spec(insts, enc, aff).insts =~~= insts);
    } else {
        assert(reload_insts_spec(insts, enc, aff).insts =~~= insts);
    }
}

proof fn lemma_entry_params_noop(abi: Seq<AbiParam>, params: Seq<Value>, aff: Seq<Affinity>, n: int)
    requires
        0 <= n <= params.len(),
        abi.len() == params.len(),
        forall|j: int| 0 <= j < n ==> !entry_rewrite((#[trigger] abi[j]).location, aff[params[j] as int]),
    ensures
        entry_params_upto(abi, params, aff, n).params == params.subrange(0, n),
        entry_params_upto(abi, params, aff, n).insts.len() == 0,
        entry_params_upto(abi, params, aff, n).aff == aff,
    decreases n,
{
    if n > 0 {
        lemma_entry_params_noop(abi, params, aff, n - 1);
        assert(params.subrange(0, n) =~~= params.subrange(0, n - 1).push(params[n - 1]));
    } else {
        assert(params.subrange(0, 0) =~~= Seq::<Value>::empty());
    }
}

proof fn lemma_reload_ebbs_noop(f: FunctionModel, enc: Seq<RecipeModel>, aff: Seq<Affinity>, n: int)
    requires
        0 <= n <= f.ebbs.len(),
        func_wf(f, enc, aff),
        forall|b: int| 0 <= b < f.ebbs.len() ==> ebb_noop(#[trigger] f.ebbs[b], enc, aff),
        f.ebbs.len() > 0 ==> entry_noop(f.abi_params, f.ebbs[0].params, aff),
    ensures
        reload_ebbs_upto(f, enc, aff, n).ebbs == f.ebbs.subrange(0, n),
        reload_ebbs_upto(f, enc, aff, n).aff == aff,
    decreases n,
{
    if n > 0 {
        lemma_reload_ebbs_noop(f, enc, aff, n - 1);
        let ebb = f.ebbs[n - 1];
        let head = ebb_head_spec(n - 1 == 0, ebb, f.abi_params, aff);
        if n - 1 == 0 {
            lemma_entry_params_noop(f.abi_params, ebb.params, aff, f.abi_params.len() as int);
            assert(ebb.params.subrange(0, ebb.params.len() as int) =~~= ebb.params);
            assert(head.params =~~= ebb.params);
        }
        assert(head.aff == aff);
        lemma_reload_insts_noop(ebb.insts, enc, aff);
        let r = reload_ebb_spec(n - 1 == 0, ebb, f.abi_params, enc, aff);
        assert(r.ebb.insts =~~= ebb.insts);
        assert(r.ebb =~~= ebb);
        assert(f.ebbs.subrange(0, n) =~~= f.ebbs.subrange(0, n - 1).push(ebb));
    } else {
        assert(f.ebbs.subrange(0, 0) =~~= Seq::<EbbModel>::empty());
    }
}

/// Reload no-op law. On a function where every value's affinity already
/// matches what its operands accept — no legally encoded instruction has a
/// stack-resident input in a register-demanding slot or a stack-affinity
/// result in a register slot, and every entry parameter's location matches
/// its value's affinity — the pass inserts no fill and no spill and leaves
/// every block, parameter and instruction identity unchanged.
pub proof fn lemma_reload_noop(f: FunctionModel, enc: Seq<RecipeModel>, aff: Seq<Affinity>)
    requires
        func_wf(f, enc, aff),
        forall|b: int| 0 <= b < f.ebbs.len() ==> ebb_noop(#[trigger] f.ebbs[b], enc, aff),
        f.ebbs.len() > 0 ==> entry_noop(f.abi_params, f.ebbs[0].params, aff),
    ensures
        reload_func_spec(f, enc, aff).ebbs == f.ebbs,
        reload_func_spec(f, enc, aff).aff == aff,
{
    lemma_reload_ebbs_noop(f, enc, aff, f.ebbs.len() as int);
    assert(f.ebbs.subrange(0, f.ebbs.len() as int) =~~= f.ebbs);
}

/// The distinct values of the candidates among the inputs.
pub open spec fn cand_value_set(inst: InstModel, cons: RecipeModel, aff: Seq<Affinity>) -> Set<
    Value,
> {
    Set::new(
        |v: Value|
            exists|k: int|
                0 <= k < cons.ins.len() && is_candidate(inst, cons, aff, k) && inst.args[k] == v,
    )
}

proof fn lemma_pop_filter_len(c: Seq<ReloadCandidate>, seen: Set<Value>)
    ensures
        pop_filter(c, seen).len() <= c.len(),
    decreases c.len(),
{
    if c.len() > 0 {
        let cand = c.last();
        if seen.contains(cand.value) {
            lemma_pop_filter_len(c.drop_last(), seen);
        } else {
            lemma_pop_filter_len(c.drop_last(), seen.insert(cand.value));
        }
    }
}

proof fn lemma_candidates_len(inst: InstModel, cons: RecipeModel, aff: Seq<Affinity>, n: int)
    ensures
        candidates_upto(inst, cons, aff, n).len() <= if n <= 0 {
            0int
        } else {
            n
        },
    decreases n,
{
    if n > 0 {
        lemma_candidates_len(inst, cons, aff, n - 1);
    }
}

proof fn lemma_pop_filter_membership(c: Seq<ReloadCandidate>, seen: Set<Value>, v: Value)
    ensures
        values_of(pop_filter(c, seen)).contains(v) <==> (values_of(c).contains(v)
            && !seen.contains(v)),
    decreases c.len(),
{
    let vs = values_of(c);
    if c.len() == 0 {
        assert(!vs.contains(v));
        assert(!values_of(pop_filter(c, seen)).contains(v));
    } else {
        let cand = c.last();
        assert(c =~~= c.drop_last().push(cand));
        lemma_values_push(c.drop_last(), cand);
        let vd = values_of(c.drop_last());
        assert(vs =~~= vd.push(cand.value));
        assert(vs.contains(v) <==> (vd.contains(v) || v == cand.value)) by {
            if vs.contains(v) {
                let i = choose|i: int| 0 <= i < vs.len() && vs[i] == v;
                if i < vd.len() {
                    assert(vd[i] == v);
                }
            }
            if vd.contains(v) {
                let i = choose|i: int| 0 <= i < vd.len() && vd[i] == v;
                assert(vs[i] == v);
            }
            if v == cand.value {
                assert(vs[vd.len() as int] == v);
            }
        }
        if seen.contains(cand.value) {
            lemma_pop_filter_membership(c.drop_last(), seen, v);
        } else {
            lemma_pop_filter_membership(c.drop_last(), seen.insert(cand.value), v);
            let rest = pop_filter(c.drop_last(), seen.insert(cand.value));
            let whole = pop_filter(c, seen);
            assert(whole == seq![cand] + rest);
            let wv = values_of(whole);
            let rv = values_of(rest);
            assert(wv.contains(v) <==> (v == cand.value || rv.contains(v))) by {
                assert(wv[0] == cand.value);
                if wv.contains(v) {
                    let i = choose|i: int| 0 <= i < wv.len() && wv[i] == v;
                    if i > 0 {
                        assert(whole[i] == rest[i - 1]);
                        assert(rv[i - 1] == v);
                    }
                }
                if rv.contains(v) {
                    let i = choose|i: int| 0 <= i < rv.len() && rv[i] == v;
                    assert(whole[i + 1] == rest[i]);
                    assert(wv[i + 1] == v);
                }
            }
        }
    }
}

proof fn lemma_candidates_membership(
    inst: InstModel,
    cons: RecipeModel,
    aff: Seq<Affinity>,
    n: int,
    v: Value,
)
    ensures
        values_of(candidates_upto(inst, cons, aff, n)).contains(v) <==> exists|k: int|
            0 <= k < n && is_candidate(inst, cons, aff, k) && inst.args[k] == v,
    decreases n,
{
    if n > 0 {
        lemma_candidates_membership(inst, cons, aff, n - 1, v);
        let pre = candidates_upto(inst, cons, aff, n - 1);
        let cur = candidates_upto(inst, cons, aff, n);
        if is_candidate(inst, cons, aff, n - 1) {
            let cand = ReloadCandidate {
                value: inst.args[n - 1],
                regclass: cons.ins[n - 1].regclass,
            };
            lemma_values_push(pre, cand);
            let pv = values_of(pre);
            let cv = values_of(cur);
            assert(cv =~~= pv.push(cand.value));
            assert(cv.contains(v) <==> (pv.contains(v) || v == cand.value)) by {
                if cv.contains(v) {
                    let i = choose|i: int| 0 <= i < cv.len() && cv[i] == v;
                    if i < pv.len() {
                        assert(pv[i] == v);
                    }
                }
                if pv.contains(v) {
                    let i = choose|i: int| 0 <= i < pv.len() && pv[i] == v;
                    assert(cv[i] == v);
                }
                if v == cand.value {
                    assert(cv[pv.len() as int] == v);
                }
            }
            if cv.contains(v) {
                if v == cand.value {
                    assert(0 <= n - 1 < n && is_candidate(inst, cons, aff, n - 1) && inst.args[n
                        - 1] == v);
                }
            }
        }
    } else {
        assert(!values_of(candidates_upto(inst, cons, aff, n)).contains(v));
    }
}

/// Fill count law. For one legally encoded instruction, the number of fills
/// inserted before it equals the number of distinct stack-affinity input
/// values bound to register-demanding operands; every such value is filled,
/// its every occurrence in the instruction is replaced by the same fresh
/// register value, and every other input is left unchanged.
pub proof fn lemma_fill_count(inst: InstModel, cons: RecipeModel, aff: Seq<Affinity>)
    requires
        cons.ins.len() == inst.args.len(),
        aff.len() + inst.args.len() <= usize::MAX,
    ensures
        ({
            let cands = candidates_of(inst, cons, aff);
            let fl = fill_list(cands);
            let base = aff.len() as int;
            let args1 = rewrite_args(inst.args, values_of(fl), base);
            &&& fl.len() == cand_value_set(inst, cons, aff).len()
            &&& forall|k: int|
                0 <= k < inst.args.len() && is_candidate(inst, cons, aff, k) ==> values_of(
                    fl,
                ).contains(#[trigger] inst.args[k])
            &&& forall|k: int|
                0 <= k < inst.args.len() && is_candidate(inst, cons, aff, k)
                    ==> (#[trigger] args1[k]) as int >= base
            &&& forall|k1: int, k2: int|
                0 <= k1 < inst.args.len() && 0 <= k2 < inst.args.len() && inst.args[k1]
                    == inst.args[k2] ==> args1[k1] == args1[k2]
            &&& forall|k: int|
                0 <= k < inst.args.len() && !is_candidate(inst, cons, aff, k) && !values_of(
                    fl,
                ).contains(inst.args[k]) ==> (#[trigger] args1[k]) == inst.args[k]
        }),
{
    let cands = candidates_of(inst, cons, aff);
    let fl = fill_list(cands);
    let base = aff.len() as int;
    let fv = values_of(fl);
    let args1 = rewrite_args(inst.args, fv, base);
    lemma_pop_filter_distinct(cands, Set::empty());
    lemma_pop_filter_len(cands, Set::empty());
    lemma_candidates_len(inst, cons, aff, cons.ins.len() as int);
    assert forall|v: Value| fv.to_set().contains(v) <==> cand_value_set(inst, cons, aff).contains(
        v,
    ) by {
        lemma_pop_filter_membership(cands, Set::empty(), v);
        lemma_candidates_membership(inst, cons, aff, cons.ins.len() as int, v);
    }
    assert(fv.to_set() =~~= cand_value_set(inst, cons, aff));
    fv.unique_seq_to_set();
    assert forall|k: int|
        0 <= k < inst.args.len() && is_candidate(inst, cons, aff, k) implies fv.contains(
        #[trigger] inst.args[k],
    ) by {
        lemma_pop_filter_membership(cands, Set::empty(), inst.args[k]);
        lemma_candidates_membership(inst, cons, aff, cons.ins.len() as int, inst.args[k]);
    }
    assert forall|k: int|
        0 <= k < inst.args.len() && is_candidate(inst, cons, aff, k) implies (
    #[trigger] args1[k]) as int >= base by {
        assert(fv.contains(inst.args[k]));
        let i0 = fv.index_of(inst.args[k]);
        assert(fv[i0] == inst.args[k]);
        assert(0 <= i0 < fv.len());
        assert(args1[k] == rewrite_arg(fv, base, inst.args[k]));
        assert(base + i0 <= base + inst.args.len());
    }
}

/// Spill preservation law. For each result whose affinity demands stack
/// residency but whose encoding slot is a register, exactly one spill is
/// appended after the instruction; the spill's output is the original value
/// identity (so downstream references stay valid), its input is the fresh
/// register temporary that replaced the result, every fresh temporary is a
/// new identity, and results that need no spill keep their identity.
pub proof fn lemma_spill_preservation(
    inst: InstModel,
    cons: RecipeModel,
    aff: Seq<Affinity>,
    base: int,
    n: int,
)
    requires
        0 <= n <= inst.results.len(),
        cons.outs.len() == inst.results.len(),
        0 <= base,
        base + n <= usize::MAX,
    ensures
        ({
            let sp = spill_upto(inst, cons, aff, base, n);
            &&& sp.results.len() == n
            &&& 0 <= spill_count_upto(inst, cons, aff, n) <= n
            &&& sp.spills.len() == spill_count_upto(inst, cons, aff, n)
            &&& forall|j: int|
                0 <= j < n && needs_spill(inst, cons, aff, j) ==> (#[trigger] sp.results[j]) as int
                    == base + spill_count_upto(inst, cons, aff, j)
            &&& forall|j: int|
                0 <= j < n && !needs_spill(inst, cons, aff, j) ==> (#[trigger] sp.results[j])
                    == inst.results[j]
            &&& forall|j: int|
                0 <= j < n && needs_spill(inst, cons, aff, j) ==> #[trigger] sp.spills[
                    spill_count_upto(inst, cons, aff, j)
                ] == (InstModel {
                    opcode: Opcode::Spill,
                    args: seq![sp.results[j]],
                    results: seq![inst.results[j]],
                    encoding: None,
                })
        }),
    decreases n,
{
    if n > 0 {
        lemma_spill_preservation(inst, cons, aff, base, n - 1);
        lemma_spill_counts(inst, cons, aff, base, n - 1);
        let pre = spill_upto(inst, cons, aff, base, n - 1);
        let sp = spill_upto(inst, cons, aff, base, n);
        assert forall|j: int| 0 <= j < n - 1 implies sp.results[j] == pre.results[j] by {}
        assert forall|j: int|
            0 <= j < n - 1 && needs_spill(inst, cons, aff, j) implies #[trigger] sp.spills[
            spill_count_upto(inst, cons, aff, j)
        ] == pre.spills[spill_count_upto(inst, cons, aff, j)] by {
            lemma_spill_counts(inst, cons, aff, base, j);
            lemma_spill_count_mono(inst, cons, aff, j, n - 1);
        }
    }
}

/// The spill count never decreases along the results.
proof fn lemma_spill_count_mono(
    inst: InstModel,
    cons: RecipeModel,
    aff: Seq<Affinity>,
    a: int,
    b: int,
)
    requires
        a <= b,
    ensures
        spill_count_upto(inst, cons, aff, a) <= spill_count_upto(inst, cons, aff, b),
        needs_spill(inst, cons, aff, a) && 0 <= a ==> spill_count_upto(inst, cons, aff, a) + 1
            <= spill_count_upto(inst, cons, aff, b) || a == b,
    decreases b - a,
{
    if a < b {
        lemma_spill_count_mono(inst, cons, aff, a + 1, b);
    }
}

/// How many of the first `n` entry parameters need rewriting.
pub open spec fn entry_count_upto(
    abi: Seq<AbiParam>,
    params: Seq<Value>,
    aff: Seq<Affinity>,
    n: int,
) -> int
    decreases n,
{
    if n <= 0 {
        0
    } else {
        entry_count_upto(abi, params, aff, n - 1) + if entry_rewrite(
            abi[n - 1].location,
            aff[params[n - 1] as int],
        ) {
            1int
        } else {
            0int
        }
    }
}

/// Entry-parameter rewrite law. A register-located entry parameter bound to
/// a stack-affinity value is replaced by exactly one fresh register-resident
/// parameter together with exactly one spill at block entry that writes it
/// back into the original identity; a parameter whose location already
/// matches its affinity generates no instruction and keeps its identity.
pub proof fn lemma_entry_param_rewrite(
    abi: Seq<AbiParam>,
    params: Seq<Value>,
    aff: Seq<Affinity>,
    n: int,
)
    requires
        0 <= n <= abi.len(),
        abi.len() == params.len(),
        forall|j: int| 0 <= j < params.len() ==> (#[trigger] params[j]) < aff.len(),
        aff.len() + n <= usize::MAX,
    ensures
        ({
            let r = entry_params_upto(abi, params, aff, n);
            let cnt = entry_count_upto(abi, params, aff, n);
            &&& r.params.len() == n
            &&& 0 <= cnt <= n
            &&& r.insts.len() == cnt
            &&& r.aff.len() == aff.len() + cnt
            &&& forall|j: int|
                0 <= j < n && !entry_rewrite(abi[j].location, aff[params[j] as int])
                    ==> (#[trigger] r.params[j]) == params[j]
            &&& forall|j: int|
                0 <= j < n && entry_rewrite(abi[j].location, aff[params[j] as int])
                    ==> (#[trigger] r.params[j]) as int == aff.len() + entry_count_upto(
                    abi,
                    params,
                    aff,
                    j,
                ) && r.insts[entry_count_upto(abi, params, aff, j)] == (InstModel {
                    opcode: Opcode::Spill,
                    args: seq![r.params[j]],
                    results: seq![params[j]],
                    encoding: None,
                })
        }),
    decreases n,
{
    if n > 0 {
        lemma_entry_param_rewrite(abi, params, aff, n - 1);
        let pre = entry_params_upto(abi, params, aff, n - 1);
        let r = entry_params_upto(abi, params, aff, n);
        assert forall|j: int|
            0 <= j < n - 1 && entry_rewrite(abi[j].location, aff[params[j] as int])
            implies #[trigger] r.insts[entry_count_upto(abi, params, aff, j)] == pre.insts[
            entry_count_upto(abi, params, aff, j)
        ] by {
            lemma_entry_count_mono(abi, params, aff, 0, j);
            lemma_entry_count_mono(abi, params, aff, j, n - 1);
            assert(pre.insts.len() == entry_count_upto(abi, params, aff, n - 1));
            assert(entry_count_upto(abi, params, aff, j) < pre.insts.len());
        }
    }
}

/// The entry rewrite count never decreases along the parameters.
proof fn lemma_entry_count_mono(
    abi: Seq<AbiParam>,
    params: Seq<Value>,
    aff: Seq<Affinity>,
    a: int,
    b: int,
)
    requires
        a <= b,
    ensures
        entry_count_upto(abi, params, aff, a) <= entry_count_upto(abi, params, aff, b),
        entry_rewrite(abi[a].location, aff[params[a] as int]) && 0 <= a ==> entry_count_upto(
            abi,
            params,
            aff,
            a,
        ) + 1 <= entry_count_upto(abi, params, aff, b) || a == b,
    decreases b - a,
{
    if a < b {
        lemma_entry_count_mono(abi, params, aff, a + 1, b);
    }
}

} // verus!
