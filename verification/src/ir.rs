//! A small SSA program representation for the reload pass.
//!
//! Values are dense ids into a liveness table that records each value's
//! affinity (stack- or register-resident). Instructions carry their input and
//! result values and an optional encoding, an index into a table of
//! per-operand constraints. Blocks carry their parameter values and their
//! instruction sequence; the entry block's parameters are bound to ABI
//! locations from the function signature. Blocks are stored in a
//! dominance-respecting topological order, so walking them in storage order
//! visits every block after all its dominators.

use vstd::prelude::*;

verus! {

/// A program value: a dense id into the liveness table.
pub type Value = usize;

/// A value's residency: on the stack, or in a register of a top-level
/// register class.
#[derive(Clone, Copy, PartialEq, Eq, Structural, Debug)]
pub enum Affinity {
    /// The value lives on the stack.
    Stack,
    /// The value lives in a register of the given top-level class.
    Reg(u8),
}

impl Affinity {
    /// Whether this affinity demands stack residency.
    pub open spec fn is_stack_spec(&self) -> bool {
        self is Stack
    }

    /// Whether this affinity demands stack residency.
    pub fn is_stack(&self) -> (r: bool)
        ensures
            r == self.is_stack_spec(),
    {
        match self {
            Affinity::Stack => true,
            Affinity::Reg(_) => false,
        }
    }
}

/// What residency an encoding's operand slot accepts.
#[derive(Clone, Copy, PartialEq, Eq, Structural, Debug)]
pub enum ConstraintKind {
    /// The slot demands a register.
    Reg,
    /// The slot accepts a stack-resident value.
    Stack,
}

/// The constraint of one operand slot of an encoding.
#[derive(Clone, Copy, PartialEq, Eq, Structural, Debug)]
pub struct OperandConstraint {
    /// What residency the slot accepts.
    pub kind: ConstraintKind,
    /// The top-level register class the slot demands, when it demands one.
    pub regclass: u8,
}

/// The operand constraints of one encoding recipe.
pub struct RecipeConstraints {
    /// Constraints of the input operands, in operand order.
    pub ins: Vec<OperandConstraint>,
    /// Constraints of the result values, in result order.
    pub outs: Vec<OperandConstraint>,
}

/// The encoding table: per-recipe operand constraints.
pub struct EncInfo {
    /// Recipe constraints, indexed by encoding.
    pub constraints: Vec<RecipeConstraints>,
}

/// An instruction's operation.
#[derive(Clone, Copy, PartialEq, Eq, Structural, Debug)]
pub enum Opcode {
    /// Produce a register-resident copy of a stack-resident value.
    Fill,
    /// Write a register-resident value into a stack-resident identity.
    Spill,
    /// Any other operation, identified by an opaque number.
    Other(u32),
}

/// One instruction: an operation over input values producing result values,
/// with a chosen encoding when one is legal.
pub struct Instruction {
    /// The operation.
    pub opcode: Opcode,
    /// Input values, in operand order.
    pub args: Vec<Value>,
    /// Result values, in result order.
    pub results: Vec<Value>,
    /// The chosen encoding, an index into the encoding table, when legal.
    pub encoding: Option<usize>,
}

/// The ABI-assigned location of an entry-block parameter.
#[derive(Clone, Copy, PartialEq, Eq, Structural, Debug)]
pub enum ArgumentLoc {
    /// The parameter arrives in a register of the given top-level class.
    Reg(u8),
    /// The parameter arrives in a stack slot at the given offset.
    Stack(u32),
    /// No location was assigned; earlier passes must never leave this.
    Unassigned,
}

/// One parameter of the function signature.
#[derive(Clone, Copy, PartialEq, Eq, Structural, Debug)]
pub struct AbiParam {
    /// Where the parameter arrives on entry.
    pub location: ArgumentLoc,
}

/// An extended basic block: parameter values and an instruction sequence.
pub struct Ebb {
    /// The block's parameter values.
    pub params: Vec<Value>,
    /// The block's instructions, in program order.
    pub insts: Vec<Instruction>,
}

/// A function: its signature's parameter locations and its blocks, stored in
/// a dominance-respecting topological order with the entry block first.
pub struct Function {
    /// ABI locations of the entry block's parameters, in signature order.
    pub abi_params: Vec<AbiParam>,
    /// The blocks; index 0 is the entry block.
    pub ebbs: Vec<Ebb>,
}

/// The liveness store, reduced to what the reload pass reads and writes: one
/// affinity per value, indexed by value id. Fresh values take the next id.
pub struct Liveness {
    affinities: Vec<Affinity>,
}

/// The mathematical content of an instruction.
#[verifier::ext_equal]
pub ghost struct InstModel {
    pub opcode: Opcode,
    pub args: Seq<Value>,
    pub results: Seq<Value>,
    pub encoding: Option<usize>,
}

/// The mathematical content of one recipe's constraints.
#[verifier::ext_equal]
pub ghost struct RecipeModel {
    pub ins: Seq<OperandConstraint>,
    pub outs: Seq<OperandConstraint>,
}

/// The mathematical content of a block.
#[verifier::ext_equal]
pub ghost struct EbbModel {
    pub params: Seq<Value>,
    pub insts: Seq<InstModel>,
}

/// The mathematical content of a function.
#[verifier::ext_equal]
pub ghost struct FunctionModel {
    pub abi_params: Seq<AbiParam>,
    pub ebbs: Seq<EbbModel>,
}

/// The instruction sequence `s`, as mathematical instructions.
pub open spec fn insts_view(s: Seq<Instruction>) -> Seq<InstModel> {
    s.map_values(|x: Instruction| x@)
}

impl View for Instruction {
    type V = InstModel;

    open spec fn view(&self) -> InstModel {
        InstModel {
            opcode: self.opcode,
            args: self.args@,
            results: self.results@,
            encoding: self.encoding,
        }
    }
}

impl View for RecipeConstraints {
    type V = RecipeModel;

    open spec fn view(&self) -> RecipeModel {
        RecipeModel { ins: self.ins@, outs: self.outs@ }
    }
}

impl View for EncInfo {
    type V = Seq<RecipeModel>;

    open spec fn view(&self) -> Seq<RecipeModel> {
        self.constraints@.map_values(|r: RecipeConstraints| r@)
    }
}

impl View for Ebb {
    type V = EbbModel;

    open spec fn view(&self) -> EbbModel {
        EbbModel { params: self.params@, insts: insts_view(self.insts@) }
    }
}

impl View for Function {
    type V = FunctionModel;

    open spec fn view(&self) -> FunctionModel {
        FunctionModel {
            abi_params: self.abi_params@,
            ebbs: self.ebbs@.map_values(|e: Ebb| e@),
        }
    }
}

impl View for Liveness {
    type V = Seq<Affinity>;

    closed spec fn view(&self) -> Seq<Affinity> {
        self.affinities@
    }
}

impl Liveness {
    /// A liveness store over the given per-value affinities, value id `i`
    /// owning `affinities[i]`.
    pub fn from_affinities(affinities: Vec<Affinity>) -> (l: Liveness)
        ensures
            l@ == affinities@,
    {
        Liveness { affinities }
    }

    /// The number of values the store knows.
    pub fn len(&self) -> (n: usize)
        ensures
            n == self@.len(),
    {
        self.affinities.len()
    }

    /// The affinity of value `v`, which must have a live range.
    pub fn get(&self, v: Value) -> (a: Affinity)
        requires
            (v as int) < self@.len(),
        ensures
            a == self@[v as int],
    {
        self.affinities[v]
    }

    /// Create a fresh value with the given affinity and a new, initially dead
    /// live range; returns its id, the next dense id.
    pub fn create(&mut self, a: Affinity) -> (v: Value)
        ensures
            final(self)@ == old(self)@.push(a),
            v as int == old(self)@.len(),
    {
        let v = self.affinities.len();
        self.affinities.push(a);
        v
    }
}

/// Whether instruction `i` is well formed: its values have live ranges among
/// the `nvals` known values, and its encoding, when legal, points into the
/// table and its constraints match the operand counts.
pub open spec fn inst_wf(i: InstModel, enc: Seq<RecipeModel>, nvals: int) -> bool {
    &&& forall|k: int| 0 <= k < i.args.len() ==> (#[trigger] i.args[k]) < nvals
    &&& forall|k: int| 0 <= k < i.results.len() ==> (#[trigger] i.results[k]) < nvals
    &&& match i.encoding {
        Some(e) => {
            &&& e < enc.len()
            &&& enc[e as int].ins.len() == i.args.len()
            &&& enc[e as int].outs.len() == i.results.len()
        },
        None => true,
    }
}

/// Whether block `e` is well formed with respect to the encoding table and
/// the `nvals` known values.
pub open spec fn ebb_wf(e: EbbModel, enc: Seq<RecipeModel>, nvals: int) -> bool {
    &&& forall|k: int| 0 <= k < e.params.len() ==> (#[trigger] e.params[k]) < nvals
    &&& forall|k: int| 0 <= k < e.insts.len() ==> inst_wf(#[trigger] e.insts[k], enc, nvals)
}

/// Whether the entry block's parameters are well bound: one per signature
/// parameter, every location assigned, and a stack location only for a value
/// whose affinity is already stack.
pub open spec fn entry_wf(abi: Seq<AbiParam>, params: Seq<Value>, aff: Seq<Affinity>) -> bool {
    &&& abi.len() == params.len()
    &&& forall|j: int| 0 <= j < params.len() ==> (#[trigger] params[j]) < aff.len()
    &&& forall|j: int| 0 <= j < abi.len() ==> !((#[trigger] abi[j]).location is Unassigned)
    &&& forall|j: int|
        0 <= j < abi.len() ==> ((#[trigger] abi[j]).location is Stack ==> aff[params[j] as int]
            is Stack)
}

/// Whether function `f` is well formed with respect to the encoding table and
/// the affinity table `aff`.
pub open spec fn func_wf(f: FunctionModel, enc: Seq<RecipeModel>, aff: Seq<Affinity>) -> bool {
    &&& forall|k: int|
        0 <= k < f.ebbs.len() ==> ebb_wf(#[trigger] f.ebbs[k], enc, aff.len() as int)
    &&& f.ebbs.len() > 0 ==> entry_wf(f.abi_params, f.ebbs[0].params, aff)
}

/// Copy a value vector.
pub fn copy_values(v: &Vec<Value>) -> (r: Vec<Value>)
    ensures
        r@ == v@,
{
    let mut r: Vec<Value> = Vec::new();
    let n = v.len();
    let mut i: usize = 0;
    #[verifier::loop_isolation(false)]
    while i < n
        invariant
            i <= n,
            r@ == v@.take(i as int),
        decreases n - i,
    {
        r.push(v[i]);
        proof {
            assert(v@.take(i + 1) =~= v@.take(i as int).push(v@[i as int]));
        }
        i = i + 1;
    }
    proof {
        assert(v@.take(n as int) =~= v@);
    }
    r
}

/// Copy an instruction.
pub fn copy_inst(i: &Instruction) -> (r: Instruction)
    ensures
        r@ == i@,
{
    let r = Instruction {
        opcode: i.opcode,
        args: copy_values(&i.args),
        results: copy_values(&i.results),
        encoding: i.encoding,
    };
    proof {
        assert(r@ =~= i@);
    }
    r
}

} // verus!
