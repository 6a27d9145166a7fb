//! A model of a Cranelift function under construction.
//!
//! A function is known by the operations that were performed to build it. `state` replays them
//! and says what has become of the blocks, values, stack slots and variables; `legal` says which
//! operation may come next.
use vstd::prelude::*;

verus! {

/// An SSA value, by its number in the function.
#[derive(Clone, Copy, Debug, PartialEq, Eq, Structural)]
pub struct Value(pub u32);

/// A basic block, by its number in the function.
#[derive(Clone, Copy, Debug, PartialEq, Eq, Structural)]
pub struct Block(pub u32);

/// A stack slot, by its number in the function.
#[derive(Clone, Copy, Debug, PartialEq, Eq, Structural)]
pub struct StackSlot(pub u32);

/// A variable of the source program that is kept in SSA values.
#[derive(Clone, Copy, Debug, PartialEq, Eq, Structural)]
pub struct Variable(pub u32);

impl Value {
    pub open spec fn id(self) -> nat {
        self.0 as nat
    }
}

/// The numbers of `values`.
pub open spec fn ids(values: Seq<Value>) -> Seq<nat> {
    values.map_values(|v: Value| v.id())
}

impl Block {
    pub open spec fn id(self) -> nat {
        self.0 as nat
    }
}

impl StackSlot {
    pub open spec fn id(self) -> nat {
        self.0 as nat
    }
}

impl Variable {
    pub open spec fn id(self) -> nat {
        self.0 as nat
    }
}

/// The types of SSA values that occur here.
#[derive(Clone, Copy, Debug, PartialEq, Eq, Structural)]
pub enum IrType {
    B1,
    B8,
    I8,
    I16,
    I32,
    I64,
}

#[derive(Clone, Copy, Debug, PartialEq, Eq, Structural)]
pub enum IntCC {
    Equal,
    NotEqual,
    SignedLessThan,
    SignedGreaterThan,
    UnsignedLessThan,
    UnsignedGreaterThan,
}

#[derive(Clone, Copy, Debug, PartialEq, Eq, Structural)]
pub enum FloatCC {
    LessThan,
    GreaterThan,
}

/// The instructions that compute one value from two.
#[derive(Clone, Copy, Debug, PartialEq, Eq, Structural)]
pub enum BinInst {
    Iadd,
    Sdiv,
    Srem,
    Ishl,
    Band,
    Bor,
    IntCompare(IntCC),
    FloatCompare(FloatCC),
}

/// Calling conventions.
#[derive(Clone, Copy, Debug, PartialEq, Eq, Structural)]
pub enum CallConv {
    Fast,
    Cold,
    SystemV,
    WindowsFastcall,
    BaldrdashSystemV,
    BaldrdashWindows,
    Baldrdash2020,
    Probestack,
}

/// An operation on a function under construction. Blocks, values, stack slots and variables are
/// given by their numbers.
pub enum Op {
    /// Starts a function, named by two numbers
    Function {
        namespace: u32,
        index: u32,
        conv: CallConv,
        params: Seq<IrType>,
        returns: Seq<IrType>,
    },
    /// Adds an explicit stack slot
    ExplicitSlot { size: u32 },
    CreateBlock,
    /// Gives a block the parameters of the function
    FunctionParams { block: nat },
    /// Makes a block the one that instructions are added to
    SwitchTo { block: nat },
    /// Declares that no more branches to a block will come
    Seal { block: nat },
    DeclareVar { var: nat, ty: IrType },
    DefVar { var: nat, value: nat },
    UseVar { var: nat },
    Iconst { ty: IrType, imm: i64 },
    IaddImm { x: nat, imm: i64 },
    IntCompareImm { cond: IntCC, x: nat, imm: i64 },
    Bnot { x: nat },
    Binary { inst: BinInst, x: nat, y: nat },
    Select { c: nat, x: nat, y: nat },
    Uextend { ty: IrType, x: nat },
    Ireduce { ty: IrType, x: nat },
    StackAddr { ty: IrType, slot: nat, offset: i32 },
    StackLoad { ty: IrType, slot: nat, offset: i32 },
    StackStore { x: nat, slot: nat, offset: i32 },
    /// A load with no memory flags
    Load { ty: IrType, p: nat, offset: i32 },
    /// A store with no memory flags
    Store { x: nat, p: nat, offset: i32 },
    /// A branch without arguments, taken when `c` is zero
    Brz { c: nat, block: nat },
    /// A jump without arguments
    Jump { block: nat },
    Return { values: Seq<nat> },
    Finalize,
}

/// What has become of a function.
pub struct FnState {
    /// The types of the function's parameters
    pub params: Seq<IrType>,
    /// How many stack slots and blocks there are; they are numbered from zero
    pub slots: nat,
    pub blocks: nat,
    /// The declared variables
    pub vars: Map<nat, IrType>,
    /// The values that variables were last given in a block, by the block and the variable
    pub defs: Map<(nat, nat), nat>,
    /// The types of all values, by their numbers
    pub values: Seq<IrType>,
    /// The blocks that have the function's parameters, each with the first of these values
    pub params_of: Map<nat, nat>,
    /// The block that instructions are added to
    pub cur: Option<nat>,
    /// The blocks that end in a jump or return
    pub filled: Set<nat>,
    pub sealed: Set<nat>,
    /// The blocks that have been the current one
    pub entered: Set<nat>,
    /// The blocks that there is a branch to
    pub led_to: Set<nat>,
    /// The blocks that SSA construction may have looked for a variable in
    pub searched: Set<nat>,
    /// Whether the last instruction of the current block is a conditional branch
    pub branched: bool,
    /// Whether the function is finalized, so that nothing more can be done to it
    pub finished: bool,
}

/// The types of the values that Cranelift's SSA construction adds to a function that was built by
/// `ops` when a variable is used: block parameters, and zeros for variables that are used where no
/// definition reaches.
pub uninterp spec fn use_var_types(ops: Seq<Op>, var: nat) -> Seq<IrType>;

/// The types of the values that Cranelift's SSA construction adds to a function that was built by
/// `ops` when a block is sealed.
pub uninterp spec fn seal_types(ops: Seq<Op>, block: nat) -> Seq<IrType>;

/// The number of the value that Cranelift's SSA construction finds for a variable in the current
/// block of a function that was built by `ops`.
pub uninterp spec fn use_var_value(ops: Seq<Op>, var: nat) -> nat;

impl FnState {
    pub open spec fn empty() -> FnState {
        FnState {
            params: Seq::empty(),
            slots: 0,
            blocks: 0,
            vars: Map::empty(),
            defs: Map::empty(),
            values: Seq::empty(),
            params_of: Map::empty(),
            cur: None,
            filled: Set::empty(),
            sealed: Set::empty(),
            entered: Set::empty(),
            led_to: Set::empty(),
            searched: Set::empty(),
            branched: false,
            finished: false,
        }
    }

    /// The current block can take any instruction.
    pub open spec fn ready(self) -> bool {
        &&& self.cur is Some
        &&& !self.filled.contains(self.cur->0)
        &&& !self.branched
        &&& !self.finished
    }

    pub open spec fn has_value(self, v: nat) -> bool {
        v < self.values.len()
    }

    /// The value that a variable was last given in the current block, if it was given one there.
    pub open spec fn def_here(self, var: nat) -> Option<nat> {
        if self.cur is Some && self.defs.contains_key((self.cur->0, var)) {
            Some(self.defs[(self.cur->0, var)])
        } else {
            None
        }
    }

    /// A variable can be used: it is declared, and where a block has the function's parameters, it
    /// has been given a value there.
    pub open spec fn has_var(self, var: nat) -> bool {
        &&& self.vars.contains_key(var)
        &&& forall|b: nat| #[trigger]
            self.params_of.contains_key(b) ==> self.defs.contains_key((b, var))
    }

    pub open spec fn can_seal(self, block: nat) -> bool {
        block < self.blocks && !self.sealed.contains(block)
    }

    /// A branch can go to `block`: all branches to it are not known yet, and if it goes back to a
    /// block that has been entered, it is not the first one.
    pub open spec fn can_target(self, block: nat) -> bool {
        self.can_seal(block) && (self.entered.contains(block) ==> self.led_to.contains(block))
    }

    /// All blocks are filled and sealed.
    pub open spec fn complete(self) -> bool {
        forall|b: nat|
            b < self.blocks ==> #[trigger] self.filled.contains(b) && self.sealed.contains(b)
    }

    /// `op` comes up to what Cranelift demands of a function in this state. A block takes no more
    /// than 2^16 parameters, be they those of the function or added for variables; and going back
    /// from block to block, SSA construction must not run in a circle.
    pub open spec fn legal(self, op: Op) -> bool {
        !self.finished && match op {
            Op::Function { .. } => false,
            Op::ExplicitSlot { .. } => true,
            Op::CreateBlock => true,
            Op::FunctionParams { block } => {
                &&& self.cur is None
                &&& block < self.blocks
                &&& !self.params_of.contains_key(block)
                &&& self.params.len() <= 0x1_0000
            },
            Op::SwitchTo { block } => {
                &&& block < self.blocks
                &&& !self.filled.contains(block)
                &&& self.cur is Some ==> self.filled.contains(self.cur->0)
            },
            Op::Seal { block } => self.can_seal(block),
            Op::DeclareVar { var, .. } => var < 0x1_0000 && !self.vars.contains_key(var),
            Op::DefVar { var, value } => {
                &&& self.cur is Some
                &&& self.vars.contains_key(var)
                &&& self.has_value(value)
                &&& self.values[value as int] == self.vars[var]
            },
            Op::UseVar { var } => self.cur is Some && self.has_var(var),
            Op::Iconst { .. } => self.ready(),
            Op::IaddImm { x, .. } => self.ready() && self.has_value(x),
            Op::IntCompareImm { x, .. } => self.ready() && self.has_value(x),
            Op::Bnot { x } => self.ready() && self.has_value(x),
            Op::Binary { x, y, .. } => self.ready() && self.has_value(x) && self.has_value(y),
            Op::Select { c, x, y } => {
                &&& self.ready()
                &&& self.has_value(c)
                &&& self.has_value(x)
                &&& self.has_value(y)
            },
            Op::Uextend { x, .. } => self.ready() && self.has_value(x),
            Op::Ireduce { x, .. } => self.ready() && self.has_value(x),
            Op::StackAddr { slot, .. } => self.ready() && slot < self.slots,
            Op::StackLoad { slot, .. } => self.ready() && slot < self.slots,
            Op::StackStore { x, slot, .. } => {
                self.ready() && self.has_value(x) && slot < self.slots
            },
            Op::Load { p, .. } => self.ready() && self.has_value(p),
            Op::Store { x, p, .. } => self.ready() && self.has_value(x) && self.has_value(p),
            Op::Brz { c, block } => {
                self.ready() && self.has_value(c) && self.can_target(block)
            },
            Op::Jump { block } => {
                &&& self.cur is Some
                &&& !self.filled.contains(self.cur->0)
                &&& self.can_target(block)
            },
            Op::Return { values } => {
                &&& self.ready()
                &&& forall|i: int| 0 <= i < values.len() ==> self.has_value(#[trigger] values[i])
            },
            Op::Finalize => self.complete(),
        }
    }

    /// The type of the value that `op` yields, where it yields one.
    pub open spec fn result_type(self, op: Op) -> Option<IrType> {
        match op {
            Op::Iconst { ty, .. } => Some(ty),
            Op::IaddImm { x, .. } => Some(self.values[x as int]),
            Op::IntCompareImm { .. } => Some(IrType::B1),
            Op::Bnot { x } => Some(self.values[x as int]),
            Op::Binary { inst: BinInst::IntCompare(_), .. } => Some(IrType::B1),
            Op::Binary { inst: BinInst::FloatCompare(_), .. } => Some(IrType::B1),
            Op::Binary { x, .. } => Some(self.values[x as int]),
            Op::Select { x, .. } => Some(self.values[x as int]),
            Op::Uextend { ty, .. } => Some(ty),
            Op::Ireduce { ty, .. } => Some(ty),
            Op::StackAddr { ty, .. } => Some(ty),
            Op::StackLoad { ty, .. } => Some(ty),
            Op::Load { ty, .. } => Some(ty),
            _ => None,
        }
    }

    /// The state after `op`, in which SSA construction adds values of the types `added`.
    pub open spec fn step(self, op: Op, added: Seq<IrType>) -> FnState {
        match op {
            Op::Function { params, .. } => FnState { params, ..FnState::empty() },
            Op::ExplicitSlot { .. } => FnState { slots: self.slots + 1, ..self },
            Op::CreateBlock => FnState { blocks: self.blocks + 1, ..self },
            Op::FunctionParams { block } => FnState {
                params_of: self.params_of.insert(block, self.values.len()),
                values: self.values + self.params,
                ..self
            },
            Op::SwitchTo { block } => FnState {
                cur: Some(block),
                entered: self.entered.insert(block),
                ..self
            },
            Op::Seal { block } => FnState {
                sealed: self.sealed.insert(block),
                values: self.values + added,
                searched: if self.searched.contains(block) {
                    self.entered
                } else {
                    self.searched
                },
                ..self
            },
            Op::DeclareVar { var, ty } => FnState { vars: self.vars.insert(var, ty), ..self },
            Op::DefVar { var, value } => FnState {
                defs: self.defs.insert((self.cur->0, var), value),
                ..self
            },
            Op::UseVar { var } => FnState {
                values: self.values + added,
                searched: if self.def_here(var) is Some {
                    self.searched
                } else {
                    self.entered
                },
                ..self
            },
            Op::StackStore { .. } => self,
            Op::Store { .. } => self,
            Op::Brz { block, .. } => FnState {
                led_to: self.led_to.insert(block),
                branched: true,
                ..self
            },
            Op::Jump { block } => FnState { led_to: self.led_to.insert(block), ..self.fill() },
            Op::Return { .. } => self.fill(),
            Op::Finalize => FnState { cur: None, finished: true, ..self },
            _ => FnState { values: self.values.push(self.result_type(op)->0), ..self },
        }
    }

    pub open spec fn fill(self) -> FnState {
        FnState { filled: self.filled.insert(self.cur->0), branched: false, ..self }
    }
}

/// The types of the values that SSA construction adds in `op`, performed after `ops`.
pub open spec fn added_types(ops: Seq<Op>, op: Op) -> Seq<IrType> {
    match op {
        Op::UseVar { var } => use_var_types(ops, var),
        Op::Seal { block } => seal_types(ops, block),
        _ => Seq::empty(),
    }
}

/// The state of a function that was built by `ops`.
#[verifier::opaque]
pub open spec fn state(ops: Seq<Op>) -> FnState
    decreases ops.len(),
{
    if ops.len() == 0 {
        FnState::empty()
    } else {
        state(ops.drop_last()).step(ops.last(), added_types(ops.drop_last(), ops.last()))
    }
}

pub broadcast proof fn lemma_state_push(ops: Seq<Op>, op: Op)
    ensures
        #[trigger] state(ops.push(op)) == state(ops).step(op, added_types(ops, op)),
{
    reveal(state);
    assert(ops.push(op).drop_last() =~= ops);
}

/// `op` comes up to what Cranelift demands where it is performed, after `ops`. If it reads a
/// variable in the block that gave it a value, then that value is what it yields, and none is
/// added; and if it seals a block that no variable has been looked for in, none is added either.
pub open spec fn sound(ops: Seq<Op>, op: Op) -> bool {
    &&& state(ops).legal(op)
    &&& op matches Op::UseVar { var } ==> state(ops).def_here(var) matches Some(value) ==> {
        &&& use_var_value(ops, var) == value
        &&& use_var_types(ops, var).len() == 0
    }
    &&& op matches Op::Seal { block } ==> !state(ops).searched.contains(block) ==> seal_types(
        ops,
        block,
    ).len() == 0
}

/// `ops` start a function, and each of the others is sound where it is performed.
#[verifier::opaque]
pub open spec fn sound_throughout(ops: Seq<Op>) -> bool {
    &&& ops.len() > 0
    &&& ops[0] is Function
    &&& forall|i: int| 0 < i < ops.len() ==> sound(ops.take(i), #[trigger] ops[i])
}

pub broadcast proof fn lemma_sound_push(ops: Seq<Op>, op: Op)
    requires
        sound_throughout(ops),
        sound(ops, op),
    ensures
        #[trigger] sound_throughout(ops.push(op)),
{
    reveal(sound_throughout);
    let all = ops.push(op);
    assert forall|i: int| 0 < i < all.len() implies sound(all.take(i), #[trigger] all[i]) by {
        if i < ops.len() {
            assert(all.take(i) =~= ops.take(i));
            assert(all[i] == ops[i]);
        } else {
            assert(all.take(i) =~= ops);
        }
    }
}

pub proof fn lemma_sound_start(op: Op)
    requires
        op is Function,
    ensures
        sound_throughout(seq![op]),
{
    reveal(sound_throughout);
}

/// How often `op` occurs in `ops`.
pub open spec fn times(ops: Seq<Op>, op: Op) -> nat
    decreases ops.len(),
{
    if ops.len() == 0 {
        0
    } else {
        times(ops.drop_last(), op) + (if ops.last() == op {
            1nat
        } else {
            0nat
        })
    }
}

pub broadcast proof fn lemma_times_push(ops: Seq<Op>, next: Op, op: Op)
    ensures
        #[trigger] times(ops.push(next), op) == times(ops, op) + (if next == op {
            1nat
        } else {
            0nat
        }),
{
    assert(ops.push(next).drop_last() =~= ops);
}

} // verus!
