//! Cranelift's function builder: for each of its functions that is used here, a function that
//! calls it, with what is relied on of it.
//!
//! Cranelift checks much of what it demands of its callers only in debug builds. The demands are
//! made here in any case; `FnState::legal` holds them. Blocks, values and stack slots are
//! numbered with 32 bits: running out of numbers is left aside, as running out of memory is.
use vstd::prelude::*;
use cranelift_codegen::ir::condcodes;
use cranelift_codegen::ir::entities;
use cranelift_codegen::ir::types;
use cranelift_codegen::ir::InstBuilder;
use cranelift_codegen::ir::{
    AbiParam, ExternalName, Function, MemFlags, Signature, StackSlotData, StackSlotKind,
};
use cranelift_codegen::isa;
use cranelift_frontend::{FunctionBuilder, FunctionBuilderContext};
use crate::ir::{
    ids, seal_types, state, use_var_types, use_var_value, BinInst, Block, CallConv, FloatCC, IntCC,
    IrType, Op, StackSlot, Value, Variable,
};

verus! {

/// The signature of a function; `params_of` and `returns_of` say what is in it.
#[verifier::external_type_specification]
#[verifier::external_body]
pub struct ExSignature(Signature);

/// A function in Cranelift's intermediate language; `function_ops` says what is in it.
#[verifier::external_type_specification]
#[verifier::external_body]
pub struct ExFunction(Function);

/// The working memory of a builder; `context_ops` says what is in it.
#[verifier::external_type_specification]
#[verifier::external_body]
pub struct ExFunctionBuilderContext(FunctionBuilderContext);

/// A function under construction; `ops_of` says what has been done to it.
#[verifier::external_type_specification]
#[verifier::external_body]
pub struct ExFunctionBuilder<'a>(FunctionBuilder<'a>);

/// The calling convention of a signature.
pub uninterp spec fn convention_of(sig: Signature) -> CallConv;

/// Every parameter and return value of a signature is of one of the types here, and just as
/// `AbiParam::new` makes it: without a special purpose, extension or location.
pub uninterp spec fn is_plain(sig: Signature) -> bool;

/// The types of the parameters of a signature.
pub uninterp spec fn params_of(sig: Signature) -> Seq<IrType>;

/// The types of the return values of a signature.
pub uninterp spec fn returns_of(sig: Signature) -> Seq<IrType>;

/// The operations that built a function.
pub uninterp spec fn function_ops(func: Function) -> Seq<Op>;

/// The operations on a function that is not finished yet, as far as they have left something in
/// a builder's context.
pub uninterp spec fn context_ops(ctx: FunctionBuilderContext) -> Seq<Op>;

/// The operations that built the function that `b` is working on, in order.
pub uninterp spec fn ops_of(b: FunctionBuilder<'_>) -> Seq<Op>;

/// The text that Cranelift prints for a function that was built by `ops`.
pub uninterp spec fn function_text(ops: Seq<Op>) -> Seq<char>;

/// `Signature::new`: the given convention, and neither parameters nor return values.
#[verifier::external_body]
pub(crate) fn new_signature(conv: CallConv) -> (sig: Signature)
    ensures
        convention_of(sig) == conv,
        is_plain(sig),
        params_of(sig) == Seq::<IrType>::empty(),
        returns_of(sig) == Seq::<IrType>::empty(),
{
    let conv = match conv {
        CallConv::Fast => isa::CallConv::Fast,
        CallConv::Cold => isa::CallConv::Cold,
        CallConv::SystemV => isa::CallConv::SystemV,
        CallConv::WindowsFastcall => isa::CallConv::WindowsFastcall,
        CallConv::BaldrdashSystemV => isa::CallConv::BaldrdashSystemV,
        CallConv::BaldrdashWindows => isa::CallConv::BaldrdashWindows,
        CallConv::Baldrdash2020 => isa::CallConv::Baldrdash2020,
        CallConv::Probestack => isa::CallConv::Probestack,
    };
    Signature::new(conv)
}

/// Pushes an `AbiParam::new` to the field `params` of a `Signature`: one more parameter.
#[verifier::external_body]
pub(crate) fn push_param(sig: &mut Signature, ty: IrType)
    ensures
        convention_of(*final(sig)) == convention_of(*old(sig)),
        is_plain(*final(sig)) == is_plain(*old(sig)),
        params_of(*final(sig)) == params_of(*old(sig)).push(ty),
        returns_of(*final(sig)) == returns_of(*old(sig)),
{
    let ty = match ty {
        IrType::B1 => types::B1,
        IrType::B8 => types::B8,
        IrType::I8 => types::I8,
        IrType::I16 => types::I16,
        IrType::I32 => types::I32,
        IrType::I64 => types::I64,
    };
    sig.params.push(AbiParam::new(ty));
}

/// Pushes an `AbiParam::new` to the field `returns` of a `Signature`: one more return value.
#[verifier::external_body]
pub(crate) fn push_return(sig: &mut Signature, ty: IrType)
    ensures
        convention_of(*final(sig)) == convention_of(*old(sig)),
        is_plain(*final(sig)) == is_plain(*old(sig)),
        params_of(*final(sig)) == params_of(*old(sig)),
        returns_of(*final(sig)) == returns_of(*old(sig)).push(ty),
{
    let ty = match ty {
        IrType::B1 => types::B1,
        IrType::B8 => types::B8,
        IrType::I8 => types::I8,
        IrType::I16 => types::I16,
        IrType::I32 => types::I32,
        IrType::I64 => types::I64,
    };
    sig.returns.push(AbiParam::new(ty));
}

/// `Function::with_name_signature` with an `ExternalName::user`: a function with nothing in it
/// but its name and signature.
#[verifier::external_body]
pub(crate) fn new_function(namespace: u32, index: u32, sig: Signature) -> (func: Function)
    requires
        is_plain(sig),
    ensures
        function_ops(func) == seq![
            Op::Function {
                namespace,
                index,
                conv: convention_of(sig),
                params: params_of(sig),
                returns: returns_of(sig),
            },
        ],
{
    Function::with_name_signature(ExternalName::user(namespace, index), sig)
}

/// `FunctionBuilderContext::new`: nothing in it yet.
#[verifier::external_body]
pub(crate) fn new_context() -> (ctx: FunctionBuilderContext)
    ensures
        context_ops(ctx) == Seq::<Op>::empty(),
{
    FunctionBuilderContext::new()
}

/// `FunctionBuilder::new`: it takes up the function as it is. The function must be a new one,
/// and the context empty.
#[verifier::external_body]
pub(crate) fn new_builder<'a>(
    func: &'a mut Function,
    ctx: &'a mut FunctionBuilderContext,
) -> (b: FunctionBuilder<'a>)
    requires
        function_ops(*old(func)).len() == 1,
        function_ops(*old(func))[0] is Function,
        context_ops(*old(ctx)).len() == 0,
    ensures
        ops_of(b) == function_ops(*old(func)),
{
    FunctionBuilder::new(func, ctx)
}

/// `FunctionBuilder::create_stack_slot` with a `StackSlotData::new` of
/// `StackSlotKind::ExplicitSlot`: slots are numbered in the order in which they are created.
#[verifier::external_body]
pub(crate) fn create_explicit_slot(b: &mut FunctionBuilder<'_>, size: u32) -> (r: StackSlot)
    requires
        state(ops_of(*old(b))).legal(Op::ExplicitSlot { size }),
    ensures
        ops_of(*final(b)) == ops_of(*old(b)).push(Op::ExplicitSlot { size }),
        r.id() == state(ops_of(*old(b))).slots,
{
    let data = StackSlotData::new(StackSlotKind::ExplicitSlot, size);
    StackSlot(b.create_stack_slot(data).as_u32())
}

/// `FunctionBuilder::create_block`: blocks are numbered in the order in which they are created.
#[verifier::external_body]
pub(crate) fn create_block(b: &mut FunctionBuilder<'_>) -> (r: Block)
    requires
        state(ops_of(*old(b))).legal(Op::CreateBlock),
    ensures
        ops_of(*final(b)) == ops_of(*old(b)).push(Op::CreateBlock),
        r.id() == state(ops_of(*old(b))).blocks,
{
    Block(b.create_block().as_u32())
}

/// `FunctionBuilder::append_block_params_for_function_params`: one new value for each parameter
/// of the function, in order.
#[verifier::external_body]
pub(crate) fn append_function_params(b: &mut FunctionBuilder<'_>, block: Block)
    requires
        state(ops_of(*old(b))).legal(Op::FunctionParams { block: block.id() }),
    ensures
        ops_of(*final(b)) == ops_of(*old(b)).push(Op::FunctionParams { block: block.id() }),
{
    b.append_block_params_for_function_params(entities::Block::from_u32(block.0))
}

/// `FunctionBuilder::block_params`, at an index: of a block that was given the parameters of the
/// function, these come first.
#[verifier::external_body]
pub(crate) fn block_param(b: &FunctionBuilder<'_>, block: Block, i: usize) -> (r: Value)
    requires
        state(ops_of(*b)).params_of.contains_key(block.id()),
        i < state(ops_of(*b)).params.len(),
    ensures
        r.id() == state(ops_of(*b)).params_of[block.id()] + i,
{
    Value(b.block_params(entities::Block::from_u32(block.0))[i].as_u32())
}

/// `FunctionBuilder::switch_to_block`: the block that instructions are added to from now on.
#[verifier::external_body]
pub(crate) fn switch_to_block(b: &mut FunctionBuilder<'_>, block: Block)
    requires
        state(ops_of(*old(b))).legal(Op::SwitchTo { block: block.id() }),
    ensures
        ops_of(*final(b)) == ops_of(*old(b)).push(Op::SwitchTo { block: block.id() }),
{
    b.switch_to_block(entities::Block::from_u32(block.0))
}

/// `FunctionBuilder::seal_block`: the block is sealed. Nothing is added to the function if no
/// variable has been looked for in the block. Else values may be added; how SSA construction
/// completes what it has left open is not described further.
#[verifier::external_body]
pub(crate) fn seal_block(b: &mut FunctionBuilder<'_>, block: Block)
    requires
        state(ops_of(*old(b))).legal(Op::Seal { block: block.id() }),
    ensures
        ops_of(*final(b)) == ops_of(*old(b)).push(Op::Seal { block: block.id() }),
        !state(ops_of(*old(b))).searched.contains(block.id()) ==> seal_types(
            ops_of(*old(b)),
            block.id(),
        ).len() == 0,
{
    b.seal_block(entities::Block::from_u32(block.0))
}

/// `FunctionBuilder::is_filled`: whether the current block ends in a jump or return.
#[verifier::external_body]
pub(crate) fn is_filled(b: &FunctionBuilder<'_>) -> (r: bool)
    requires
        state(ops_of(*b)).cur is Some,
    ensures
        r == state(ops_of(*b)).filled.contains(state(ops_of(*b)).cur->0),
{
    b.is_filled()
}

/// `FunctionBuilder::declare_var`: the variable has a type from now on.
#[verifier::external_body]
pub(crate) fn declare_var(b: &mut FunctionBuilder<'_>, var: Variable, ty: IrType)
    requires
        state(ops_of(*old(b))).legal(Op::DeclareVar { var: var.id(), ty }),
    ensures
        ops_of(*final(b)) == ops_of(*old(b)).push(Op::DeclareVar { var: var.id(), ty }),
{
    let ty = match ty {
        IrType::B1 => types::B1,
        IrType::B8 => types::B8,
        IrType::I8 => types::I8,
        IrType::I16 => types::I16,
        IrType::I32 => types::I32,
        IrType::I64 => types::I64,
    };
    b.declare_var(cranelift_frontend::Variable::with_u32(var.0), ty)
}

/// `FunctionBuilder::def_var`: the variable has this value from here on in the current block.
#[verifier::external_body]
pub(crate) fn def_var(b: &mut FunctionBuilder<'_>, var: Variable, value: Value)
    requires
        state(ops_of(*old(b))).legal(Op::DefVar { var: var.id(), value: value.id() }),
    ensures
        ops_of(*final(b)) == ops_of(*old(b)).push(Op::DefVar { var: var.id(), value: value.id() }),
{
    b.def_var(cranelift_frontend::Variable::with_u32(var.0), entities::Value::from_u32(value.0))
}

/// `FunctionBuilder::use_var`: a value of the variable's type. In the block that gave the variable
/// a value, it is that one, and nothing is added to the function. Elsewhere values may be added,
/// and which value it is follows from what has been done to the function; how SSA construction
/// finds it is not described further.
#[verifier::external_body]
pub(crate) fn use_var(b: &mut FunctionBuilder<'_>, var: Variable) -> (r: Value)
    requires
        state(ops_of(*old(b))).legal(Op::UseVar { var: var.id() }),
    ensures
        ops_of(*final(b)) == ops_of(*old(b)).push(Op::UseVar { var: var.id() }),
        r.id() == use_var_value(ops_of(*old(b)), var.id()),
        state(ops_of(*final(b))).has_value(r.id()),
        state(ops_of(*final(b))).values[r.id() as int] == state(ops_of(*old(b))).vars[var.id()],
        state(ops_of(*old(b))).def_here(var.id()) matches Some(value) ==> r.id() == value
            && use_var_types(ops_of(*old(b)), var.id()).len() == 0,
{
    Value(b.use_var(cranelift_frontend::Variable::with_u32(var.0)).as_u32())
}

/// `InstBuilder::iconst`: a new value of the given type.
#[verifier::external_body]
pub(crate) fn iconst(b: &mut FunctionBuilder<'_>, ty: IrType, imm: i64) -> (r: Value)
    requires
        state(ops_of(*old(b))).legal(Op::Iconst { ty, imm }),
    ensures
        ops_of(*final(b)) == ops_of(*old(b)).push(Op::Iconst { ty, imm }),
        r.id() == state(ops_of(*old(b))).values.len(),
{
    let ty = match ty {
        IrType::B1 => types::B1,
        IrType::B8 => types::B8,
        IrType::I8 => types::I8,
        IrType::I16 => types::I16,
        IrType::I32 => types::I32,
        IrType::I64 => types::I64,
    };
    let r = b.ins().iconst(ty, imm);
    Value(r.as_u32())
}

/// `InstBuilder::iadd_imm`: a new value.
#[verifier::external_body]
pub(crate) fn iadd_imm(b: &mut FunctionBuilder<'_>, x: Value, imm: i64) -> (r: Value)
    requires
        state(ops_of(*old(b))).legal(Op::IaddImm { x: x.id(), imm }),
    ensures
        ops_of(*final(b)) == ops_of(*old(b)).push(Op::IaddImm { x: x.id(), imm }),
        r.id() == state(ops_of(*old(b))).values.len(),
{
    let r = b.ins().iadd_imm(entities::Value::from_u32(x.0), imm);
    Value(r.as_u32())
}

/// `InstBuilder::icmp_imm`: a new value, of type `b1`.
#[verifier::external_body]
pub(crate) fn int_compare_imm(
    b: &mut FunctionBuilder<'_>,
    cond: IntCC,
    x: Value,
    imm: i64,
) -> (r: Value)
    requires
        state(ops_of(*old(b))).legal(Op::IntCompareImm { cond, x: x.id(), imm }),
    ensures
        ops_of(*final(b)) == ops_of(*old(b)).push(Op::IntCompareImm { cond, x: x.id(), imm }),
        r.id() == state(ops_of(*old(b))).values.len(),
{
    let cond = match cond {
        IntCC::Equal => condcodes::IntCC::Equal,
        IntCC::NotEqual => condcodes::IntCC::NotEqual,
        IntCC::SignedLessThan => condcodes::IntCC::SignedLessThan,
        IntCC::SignedGreaterThan => condcodes::IntCC::SignedGreaterThan,
        IntCC::UnsignedLessThan => condcodes::IntCC::UnsignedLessThan,
        IntCC::UnsignedGreaterThan => condcodes::IntCC::UnsignedGreaterThan,
    };
    let r = b.ins().icmp_imm(cond, entities::Value::from_u32(x.0), imm);
    Value(r.as_u32())
}

/// `InstBuilder::bnot`: a new value.
#[verifier::external_body]
pub(crate) fn bnot(b: &mut FunctionBuilder<'_>, x: Value) -> (r: Value)
    requires
        state(ops_of(*old(b))).legal(Op::Bnot { x: x.id() }),
    ensures
        ops_of(*final(b)) == ops_of(*old(b)).push(Op::Bnot { x: x.id() }),
        r.id() == state(ops_of(*old(b))).values.len(),
{
    let r = b.ins().bnot(entities::Value::from_u32(x.0));
    Value(r.as_u32())
}

/// `InstBuilder::iadd`: a new value.
#[verifier::external_body]
pub(crate) fn iadd(b: &mut FunctionBuilder<'_>, x: Value, y: Value) -> (r: Value)
    requires
        state(ops_of(*old(b))).legal(Op::Binary { inst: BinInst::Iadd, x: x.id(), y: y.id() }),
    ensures
        ops_of(*final(b)) == ops_of(*old(b)).push(
            Op::Binary { inst: BinInst::Iadd, x: x.id(), y: y.id() },
        ),
        r.id() == state(ops_of(*old(b))).values.len(),
{
    let r = b.ins().iadd(entities::Value::from_u32(x.0), entities::Value::from_u32(y.0));
    Value(r.as_u32())
}

/// `InstBuilder::sdiv`: a new value.
#[verifier::external_body]
pub(crate) fn sdiv(b: &mut FunctionBuilder<'_>, x: Value, y: Value) -> (r: Value)
    requires
        state(ops_of(*old(b))).legal(Op::Binary { inst: BinInst::Sdiv, x: x.id(), y: y.id() }),
    ensures
        ops_of(*final(b)) == ops_of(*old(b)).push(
            Op::Binary { inst: BinInst::Sdiv, x: x.id(), y: y.id() },
        ),
        r.id() == state(ops_of(*old(b))).values.len(),
{
    let r = b.ins().sdiv(entities::Value::from_u32(x.0), entities::Value::from_u32(y.0));
    Value(r.as_u32())
}

/// `InstBuilder::srem`: a new value.
#[verifier::external_body]
pub(crate) fn srem(b: &mut FunctionBuilder<'_>, x: Value, y: Value) -> (r: Value)
    requires
        state(ops_of(*old(b))).legal(Op::Binary { inst: BinInst::Srem, x: x.id(), y: y.id() }),
    ensures
        ops_of(*final(b)) == ops_of(*old(b)).push(
            Op::Binary { inst: BinInst::Srem, x: x.id(), y: y.id() },
        ),
        r.id() == state(ops_of(*old(b))).values.len(),
{
    let r = b.ins().srem(entities::Value::from_u32(x.0), entities::Value::from_u32(y.0));
    Value(r.as_u32())
}

/// `InstBuilder::ishl`: a new value.
#[verifier::external_body]
pub(crate) fn ishl(b: &mut FunctionBuilder<'_>, x: Value, y: Value) -> (r: Value)
    requires
        state(ops_of(*old(b))).legal(Op::Binary { inst: BinInst::Ishl, x: x.id(), y: y.id() }),
    ensures
        ops_of(*final(b)) == ops_of(*old(b)).push(
            Op::Binary { inst: BinInst::Ishl, x: x.id(), y: y.id() },
        ),
        r.id() == state(ops_of(*old(b))).values.len(),
{
    let r = b.ins().ishl(entities::Value::from_u32(x.0), entities::Value::from_u32(y.0));
    Value(r.as_u32())
}

/// `InstBuilder::band`: a new value.
#[verifier::external_body]
pub(crate) fn band(b: &mut FunctionBuilder<'_>, x: Value, y: Value) -> (r: Value)
    requires
        state(ops_of(*old(b))).legal(Op::Binary { inst: BinInst::Band, x: x.id(), y: y.id() }),
    ensures
        ops_of(*final(b)) == ops_of(*old(b)).push(
            Op::Binary { inst: BinInst::Band, x: x.id(), y: y.id() },
        ),
        r.id() == state(ops_of(*old(b))).values.len(),
{
    let r = b.ins().band(entities::Value::from_u32(x.0), entities::Value::from_u32(y.0));
    Value(r.as_u32())
}

/// `InstBuilder::bor`: a new value.
#[verifier::external_body]
pub(crate) fn bor(b: &mut FunctionBuilder<'_>, x: Value, y: Value) -> (r: Value)
    requires
        state(ops_of(*old(b))).legal(Op::Binary { inst: BinInst::Bor, x: x.id(), y: y.id() }),
    ensures
        ops_of(*final(b)) == ops_of(*old(b)).push(
            Op::Binary { inst: BinInst::Bor, x: x.id(), y: y.id() },
        ),
        r.id() == state(ops_of(*old(b))).values.len(),
{
    let r = b.ins().bor(entities::Value::from_u32(x.0), entities::Value::from_u32(y.0));
    Value(r.as_u32())
}

/// `InstBuilder::icmp`: a new value, of type `b1`.
#[verifier::external_body]
pub(crate) fn int_compare(
    b: &mut FunctionBuilder<'_>,
    cond: IntCC,
    x: Value,
    y: Value,
) -> (r: Value)
    requires
        state(ops_of(*old(b))).legal(
            Op::Binary { inst: BinInst::IntCompare(cond), x: x.id(), y: y.id() },
        ),
    ensures
        ops_of(*final(b)) == ops_of(*old(b)).push(
            Op::Binary { inst: BinInst::IntCompare(cond), x: x.id(), y: y.id() },
        ),
        r.id() == state(ops_of(*old(b))).values.len(),
{
    let cond = match cond {
        IntCC::Equal => condcodes::IntCC::Equal,
        IntCC::NotEqual => condcodes::IntCC::NotEqual,
        IntCC::SignedLessThan => condcodes::IntCC::SignedLessThan,
        IntCC::SignedGreaterThan => condcodes::IntCC::SignedGreaterThan,
        IntCC::UnsignedLessThan => condcodes::IntCC::UnsignedLessThan,
        IntCC::UnsignedGreaterThan => condcodes::IntCC::UnsignedGreaterThan,
    };
    let r = b.ins().icmp(cond, entities::Value::from_u32(x.0), entities::Value::from_u32(y.0));
    Value(r.as_u32())
}

/// `InstBuilder::fcmp`: a new value, of type `b1`.
#[verifier::external_body]
pub(crate) fn float_compare(
    b: &mut FunctionBuilder<'_>,
    cond: FloatCC,
    x: Value,
    y: Value,
) -> (r: Value)
    requires
        state(ops_of(*old(b))).legal(
            Op::Binary { inst: BinInst::FloatCompare(cond), x: x.id(), y: y.id() },
        ),
    ensures
        ops_of(*final(b)) == ops_of(*old(b)).push(
            Op::Binary { inst: BinInst::FloatCompare(cond), x: x.id(), y: y.id() },
        ),
        r.id() == state(ops_of(*old(b))).values.len(),
{
    let cond = match cond {
        FloatCC::LessThan => condcodes::FloatCC::LessThan,
        FloatCC::GreaterThan => condcodes::FloatCC::GreaterThan,
    };
    let r = b.ins().fcmp(cond, entities::Value::from_u32(x.0), entities::Value::from_u32(y.0));
    Value(r.as_u32())
}

/// `InstBuilder::select`: a new value.
#[verifier::external_body]
pub(crate) fn select(b: &mut FunctionBuilder<'_>, c: Value, x: Value, y: Value) -> (r: Value)
    requires
        state(ops_of(*old(b))).legal(Op::Select { c: c.id(), x: x.id(), y: y.id() }),
    ensures
        ops_of(*final(b)) == ops_of(*old(b)).push(Op::Select { c: c.id(), x: x.id(), y: y.id() }),
        r.id() == state(ops_of(*old(b))).values.len(),
{
    let r = b.ins().select(
        entities::Value::from_u32(c.0),
        entities::Value::from_u32(x.0),
        entities::Value::from_u32(y.0),
    );
    Value(r.as_u32())
}

/// `InstBuilder::uextend`: a new value of the given type.
#[verifier::external_body]
pub(crate) fn uextend(b: &mut FunctionBuilder<'_>, ty: IrType, x: Value) -> (r: Value)
    requires
        state(ops_of(*old(b))).legal(Op::Uextend { ty, x: x.id() }),
    ensures
        ops_of(*final(b)) == ops_of(*old(b)).push(Op::Uextend { ty, x: x.id() }),
        r.id() == state(ops_of(*old(b))).values.len(),
{
    let ty = match ty {
        IrType::B1 => types::B1,
        IrType::B8 => types::B8,
        IrType::I8 => types::I8,
        IrType::I16 => types::I16,
        IrType::I32 => types::I32,
        IrType::I64 => types::I64,
    };
    let r = b.ins().uextend(ty, entities::Value::from_u32(x.0));
    Value(r.as_u32())
}

/// `InstBuilder::ireduce`: a new value of the given type.
#[verifier::external_body]
pub(crate) fn ireduce(b: &mut FunctionBuilder<'_>, ty: IrType, x: Value) -> (r: Value)
    requires
        state(ops_of(*old(b))).legal(Op::Ireduce { ty, x: x.id() }),
    ensures
        ops_of(*final(b)) == ops_of(*old(b)).push(Op::Ireduce { ty, x: x.id() }),
        r.id() == state(ops_of(*old(b))).values.len(),
{
    let ty = match ty {
        IrType::B1 => types::B1,
        IrType::B8 => types::B8,
        IrType::I8 => types::I8,
        IrType::I16 => types::I16,
        IrType::I32 => types::I32,
        IrType::I64 => types::I64,
    };
    let r = b.ins().ireduce(ty, entities::Value::from_u32(x.0));
    Value(r.as_u32())
}

/// `InstBuilder::stack_addr`: a new value of the given type.
#[verifier::external_body]
pub(crate) fn stack_addr(
    b: &mut FunctionBuilder<'_>,
    ty: IrType,
    slot: StackSlot,
    offset: i32,
) -> (r: Value)
    requires
        state(ops_of(*old(b))).legal(Op::StackAddr { ty, slot: slot.id(), offset }),
    ensures
        ops_of(*final(b)) == ops_of(*old(b)).push(Op::StackAddr { ty, slot: slot.id(), offset }),
        r.id() == state(ops_of(*old(b))).values.len(),
{
    let ty = match ty {
        IrType::B1 => types::B1,
        IrType::B8 => types::B8,
        IrType::I8 => types::I8,
        IrType::I16 => types::I16,
        IrType::I32 => types::I32,
        IrType::I64 => types::I64,
    };
    let r = b.ins().stack_addr(ty, entities::StackSlot::from_u32(slot.0), offset);
    Value(r.as_u32())
}

/// `InstBuilder::stack_load`: a new value of the given type.
#[verifier::external_body]
pub(crate) fn stack_load(
    b: &mut FunctionBuilder<'_>,
    ty: IrType,
    slot: StackSlot,
    offset: i32,
) -> (r: Value)
    requires
        state(ops_of(*old(b))).legal(Op::StackLoad { ty, slot: slot.id(), offset }),
    ensures
        ops_of(*final(b)) == ops_of(*old(b)).push(Op::StackLoad { ty, slot: slot.id(), offset }),
        r.id() == state(ops_of(*old(b))).values.len(),
{
    let ty = match ty {
        IrType::B1 => types::B1,
        IrType::B8 => types::B8,
        IrType::I8 => types::I8,
        IrType::I16 => types::I16,
        IrType::I32 => types::I32,
        IrType::I64 => types::I64,
    };
    let r = b.ins().stack_load(ty, entities::StackSlot::from_u32(slot.0), offset);
    Value(r.as_u32())
}

/// `InstBuilder::stack_store`: an instruction at the end of the current block, which yields no
/// value.
#[verifier::external_body]
pub(crate) fn stack_store(b: &mut FunctionBuilder<'_>, x: Value, slot: StackSlot, offset: i32)
    requires
        state(ops_of(*old(b))).legal(Op::StackStore { x: x.id(), slot: slot.id(), offset }),
    ensures
        ops_of(*final(b)) == ops_of(*old(b)).push(
            Op::StackStore { x: x.id(), slot: slot.id(), offset },
        ),
{
    b.ins().stack_store(
        entities::Value::from_u32(x.0),
        entities::StackSlot::from_u32(slot.0),
        offset,
    );
}

/// `InstBuilder::load` with `MemFlags::new`: a new value of the given type.
#[verifier::external_body]
pub(crate) fn load(b: &mut FunctionBuilder<'_>, ty: IrType, p: Value, offset: i32) -> (r: Value)
    requires
        state(ops_of(*old(b))).legal(Op::Load { ty, p: p.id(), offset }),
    ensures
        ops_of(*final(b)) == ops_of(*old(b)).push(Op::Load { ty, p: p.id(), offset }),
        r.id() == state(ops_of(*old(b))).values.len(),
{
    let ty = match ty {
        IrType::B1 => types::B1,
        IrType::B8 => types::B8,
        IrType::I8 => types::I8,
        IrType::I16 => types::I16,
        IrType::I32 => types::I32,
        IrType::I64 => types::I64,
    };
    let r = b.ins().load(ty, MemFlags::new(), entities::Value::from_u32(p.0), offset);
    Value(r.as_u32())
}

/// `InstBuilder::store` with `MemFlags::new`: an instruction at the end of the current block, which
/// yields no value.
#[verifier::external_body]
pub(crate) fn store(b: &mut FunctionBuilder<'_>, x: Value, p: Value, offset: i32)
    requires
        state(ops_of(*old(b))).legal(Op::Store { x: x.id(), p: p.id(), offset }),
    ensures
        ops_of(*final(b)) == ops_of(*old(b)).push(Op::Store { x: x.id(), p: p.id(), offset }),
{
    b.ins().store(
        MemFlags::new(),
        entities::Value::from_u32(x.0),
        entities::Value::from_u32(p.0),
        offset,
    );
}

/// `InstBuilder::brz` without block arguments: the current block branches, and a jump is to follow.
#[verifier::external_body]
pub(crate) fn brz(b: &mut FunctionBuilder<'_>, c: Value, block: Block)
    requires
        state(ops_of(*old(b))).legal(Op::Brz { c: c.id(), block: block.id() }),
    ensures
        ops_of(*final(b)) == ops_of(*old(b)).push(Op::Brz { c: c.id(), block: block.id() }),
{
    b.ins().brz(entities::Value::from_u32(c.0), entities::Block::from_u32(block.0), &[]);
}

/// `InstBuilder::jump` without block arguments: the current block ends here.
#[verifier::external_body]
pub(crate) fn jump(b: &mut FunctionBuilder<'_>, block: Block)
    requires
        state(ops_of(*old(b))).legal(Op::Jump { block: block.id() }),
    ensures
        ops_of(*final(b)) == ops_of(*old(b)).push(Op::Jump { block: block.id() }),
{
    b.ins().jump(entities::Block::from_u32(block.0), &[]);
}

/// `InstBuilder::return_`: the current block ends here, and hands over these values.
#[verifier::external_body]
pub(crate) fn return_(b: &mut FunctionBuilder<'_>, values: &Vec<Value>)
    requires
        state(ops_of(*old(b))).legal(Op::Return { values: ids(values@) }),
    ensures
        ops_of(*final(b)) == ops_of(*old(b)).push(Op::Return { values: ids(values@) }),
{
    let values: Vec<entities::Value> =
        values.iter().map(|v| entities::Value::from_u32(v.0)).collect();
    b.ins().return_(&values);
}

/// `FunctionBuilder::finalize`: no block is current any more. Every block must be filled and
/// sealed.
#[verifier::external_body]
pub(crate) fn finalize(b: &mut FunctionBuilder<'_>)
    requires
        state(ops_of(*old(b))).legal(Op::Finalize),
    ensures
        ops_of(*final(b)) == ops_of(*old(b)).push(Op::Finalize),
{
    b.finalize()
}

/// `FunctionBuilder::display`, without an instruction set, as text: it follows from what has been
/// done to the function.
#[verifier::external_body]
pub(crate) fn display(b: &FunctionBuilder<'_>) -> (r: String)
    ensures
        r@ == function_text(ops_of(*b)),
{
    b.display(None).to_string()
}

} // verus!
