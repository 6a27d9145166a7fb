//! Which functions can be lowered, and where the values of their expressions are then found.
use vstd::prelude::*;
use crate::ast::{
    BinOp, ExprOrDef, FunctionBody, IdentRef, Initialiser, Node, NodeKind, Statement, UniOp,
    VariableDefinition,
};
use crate::ir::{BinInst, FloatCC, IntCC, IrType};
use crate::types::{BaseType, FunctionType, Signedness, TypeRef};

verus! {

/// Where the value of an expression is found: in an SSA value, in a variable that is kept in SSA
/// values, or in memory, at an offset in a stack slot or from a pointer.
#[derive(Clone, Copy, Debug)]
pub enum Shape<'t> {
    Temporary,
    Variable,
    StackSlot(u32, &'t TypeRef),
    Pointer(u32, &'t TypeRef),
}

impl<'t> Shape<'t> {
    /// The value can be had as an SSA value.
    pub open spec fn readable(self) -> bool {
        match self {
            Shape::Temporary => true,
            Shape::Variable => true,
            Shape::StackSlot(_, ty) => ir_type(*ty) is Some,
            Shape::Pointer(_, ty) => ir_type(*ty) is Some,
        }
    }

    /// The value is in memory, where another can be put in its place.
    pub open spec fn in_memory(self) -> bool {
        self is StackSlot || self is Pointer
    }

    fn is_readable(&self) -> (r: bool)
        ensures
            r == self.readable(),
    {
        match self {
            Shape::Temporary => true,
            Shape::Variable => true,
            Shape::StackSlot(_, ty) => ir_type_of(ty).is_some(),
            Shape::Pointer(_, ty) => ir_type_of(ty).is_some(),
        }
    }

    fn is_in_memory(&self) -> (r: bool)
        ensures
            r == self.in_memory(),
    {
        match self {
            Shape::StackSlot(..) => true,
            Shape::Pointer(..) => true,
            _ => false,
        }
    }
}

/// The type of the SSA values that hold C values of type `ty`, where there is one.
pub open spec fn ir_type(ty: TypeRef) -> Option<IrType> {
    match ty.basetype {
        BaseType::Bool => Some(IrType::B8),
        BaseType::Pointer(_) => Some(IrType::I32),
        BaseType::Integer(_) => match ty.size {
            Some(8) => Some(IrType::I64),
            Some(4) => Some(IrType::I32),
            Some(2) => Some(IrType::I16),
            _ => None,
        },
        _ => None,
    }
}

pub fn ir_type_of(ty: &TypeRef) -> (r: Option<IrType>)
    ensures
        r == ir_type(*ty),
{
    match &ty.basetype {
        BaseType::Bool => Some(IrType::B8),
        BaseType::Pointer(_) => Some(IrType::I32),
        BaseType::Integer(_) => match ty.get_size() {
            Some(8) => Some(IrType::I64),
            Some(4) => Some(IrType::I32),
            Some(2) => Some(IrType::I16),
            _ => None,
        },
        _ => None,
    }
}

/// The instruction for `op` on operands the first of which has type `ty`, where there is one.
pub open spec fn binop_inst(op: BinOp, ty: TypeRef) -> Option<BinInst> {
    match ty.basetype {
        BaseType::Float(_) => float_inst(op),
        BaseType::Pointer(_) => unsigned_inst(op),
        BaseType::Integer(class) => match class.sign() {
            Signedness::Unsigned => unsigned_inst(op),
            Signedness::Signed => signed_inst(op),
        },
        BaseType::Bool => match op {
            BinOp::LogicOr => Some(BinInst::Bor),
            _ => None,
        },
        _ => None,
    }
}

pub open spec fn signed_inst(op: BinOp) -> Option<BinInst> {
    match op {
        BinOp::CmpLt => Some(BinInst::IntCompare(IntCC::SignedLessThan)),
        BinOp::CmpGt => Some(BinInst::IntCompare(IntCC::SignedGreaterThan)),
        BinOp::CmpEqu => Some(BinInst::IntCompare(IntCC::Equal)),
        BinOp::CmpNEqu => Some(BinInst::IntCompare(IntCC::NotEqual)),
        BinOp::Div => Some(BinInst::Sdiv),
        BinOp::Mod => Some(BinInst::Srem),
        BinOp::ShiftLeft => Some(BinInst::Ishl),
        _ => None,
    }
}

pub open spec fn unsigned_inst(op: BinOp) -> Option<BinInst> {
    match op {
        BinOp::CmpLt => Some(BinInst::IntCompare(IntCC::UnsignedLessThan)),
        BinOp::CmpGt => Some(BinInst::IntCompare(IntCC::UnsignedGreaterThan)),
        BinOp::Add => Some(BinInst::Iadd),
        BinOp::BitAnd => Some(BinInst::Band),
        BinOp::BitOr => Some(BinInst::Bor),
        _ => None,
    }
}

pub open spec fn float_inst(op: BinOp) -> Option<BinInst> {
    match op {
        BinOp::CmpLt => Some(BinInst::FloatCompare(FloatCC::LessThan)),
        BinOp::CmpGt => Some(BinInst::FloatCompare(FloatCC::GreaterThan)),
        _ => None,
    }
}

/// Chooses the instruction for a binary operation.
pub fn select_binop(op: BinOp, ty: &TypeRef) -> (r: Option<BinInst>)
    ensures
        r == binop_inst(op, *ty),
{
    let sign = match &ty.basetype {
        BaseType::Float(_) => {
            return match op {
                BinOp::CmpLt => Some(BinInst::FloatCompare(FloatCC::LessThan)),
                BinOp::CmpGt => Some(BinInst::FloatCompare(FloatCC::GreaterThan)),
                _ => None,
            };
        },
        BaseType::Pointer(_) => Signedness::Unsigned,
        BaseType::Integer(class) => class.signedness(),
        BaseType::Bool => {
            return match op {
                BinOp::LogicOr => Some(BinInst::Bor),
                _ => None,
            };
        },
        _ => {
            return None;
        },
    };
    match sign {
        Signedness::Signed => match op {
            BinOp::CmpLt => Some(BinInst::IntCompare(IntCC::SignedLessThan)),
            BinOp::CmpGt => Some(BinInst::IntCompare(IntCC::SignedGreaterThan)),
            BinOp::CmpEqu => Some(BinInst::IntCompare(IntCC::Equal)),
            BinOp::CmpNEqu => Some(BinInst::IntCompare(IntCC::NotEqual)),
            BinOp::Div => Some(BinInst::Sdiv),
            BinOp::Mod => Some(BinInst::Srem),
            BinOp::ShiftLeft => Some(BinInst::Ishl),
            _ => None,
        },
        Signedness::Unsigned => match op {
            BinOp::CmpLt => Some(BinInst::IntCompare(IntCC::UnsignedLessThan)),
            BinOp::CmpGt => Some(BinInst::IntCompare(IntCC::UnsignedGreaterThan)),
            BinOp::Add => Some(BinInst::Iadd),
            BinOp::BitAnd => Some(BinInst::Band),
            BinOp::BitOr => Some(BinInst::Bor),
            _ => None,
        },
    }
}

/// How a value of one type becomes a value of another.
#[derive(Clone, Copy, Debug, PartialEq, Eq, Structural)]
pub enum CastInst {
    /// It is one already
    Keep,
    Uextend,
    Ireduce,
}

/// The width in bits of an integer type.
pub open spec fn int_bits(ty: IrType) -> Option<int> {
    match ty {
        IrType::I8 => Some(8),
        IrType::I16 => Some(16),
        IrType::I32 => Some(32),
        IrType::I64 => Some(64),
        _ => None,
    }
}

/// How a value of type `src` becomes one of type `dst`, where this is possible: truth values can
/// be widened, integers can only lose bits.
pub open spec fn cast_inst(src: IrType, dst: IrType) -> Option<CastInst> {
    match (int_bits(src), int_bits(dst)) {
        (Some(s), Some(d)) => if s == d {
            Some(CastInst::Keep)
        } else if s > d {
            Some(CastInst::Ireduce)
        } else {
            None
        },
        (None, Some(d)) => if src != IrType::B8 {
            None
        } else if d == 8 {
            Some(CastInst::Keep)
        } else {
            Some(CastInst::Uextend)
        },
        (_, None) => if src == IrType::B8 && dst == IrType::B8 {
            Some(CastInst::Keep)
        } else {
            None
        },
    }
}

/// Chooses the instruction for a conversion between types of SSA values.
pub fn select_cast(src: IrType, dst: IrType) -> (r: Option<CastInst>)
    ensures
        r == cast_inst(src, dst),
{
    match (src, dst) {
        (IrType::B8, IrType::B8) => Some(CastInst::Keep),
        (IrType::I8, IrType::I8) => Some(CastInst::Keep),
        (IrType::I16, IrType::I16) => Some(CastInst::Keep),
        (IrType::I32, IrType::I32) => Some(CastInst::Keep),
        (IrType::I64, IrType::I64) => Some(CastInst::Keep),
        (IrType::B8, IrType::I8) => Some(CastInst::Keep),
        (IrType::B8, IrType::I16) | (IrType::B8, IrType::I32) | (IrType::B8, IrType::I64) => Some(
            CastInst::Uextend,
        ),
        (IrType::I16, IrType::I8) | (IrType::I32, IrType::I8) | (IrType::I32, IrType::I16) => Some(
            CastInst::Ireduce,
        ),
        (IrType::I64, IrType::I8) | (IrType::I64, IrType::I16) | (IrType::I64, IrType::I32) => Some(
            CastInst::Ireduce,
        ),
        _ => None,
    }
}

/// A value of type `src` that is found in `shape` can be cast to `dst`: an array in memory to a
/// pointer, or a value that can be read to a type that it can be converted to.
pub open spec fn castable(shape: Shape, src: TypeRef, dst: TypeRef) -> bool {
    if src.basetype is Array {
        dst.basetype is Pointer && shape.in_memory()
    } else {
        &&& shape.readable()
        &&& ir_type(src) is Some
        &&& ir_type(dst) is Some
        &&& cast_inst(ir_type(src)->0, ir_type(dst)->0) is Some
    }
}

fn is_castable(shape: Shape<'_>, src: &TypeRef, dst: &TypeRef) -> (r: bool)
    ensures
        r == castable(shape, *src, *dst),
{
    match (&src.basetype, &dst.basetype) {
        (BaseType::Array(_), BaseType::Pointer(_)) => shape.is_in_memory(),
        (BaseType::Array(_), _) => false,
        _ => match (ir_type_of(src), ir_type_of(dst)) {
            (Some(s), Some(d)) => shape.is_readable() && select_cast(s, d).is_some(),
            _ => false,
        },
    }
}

/// Where the result of `op` is found, its operand of type `ty` being in `shape`; `None` where
/// there is no code for it.
pub open spec fn uniop_shape<'t>(op: UniOp, shape: Shape<'t>, ty: &'t TypeRef) -> Option<
    Shape<'t>,
> {
    if !shape.readable() {
        None
    } else {
        match op {
            UniOp::PostDec | UniOp::PostInc | UniOp::PreDec | UniOp::PreInc => {
                if shape.in_memory() {
                    Some(Shape::Temporary)
                } else {
                    None
                }
            },
            UniOp::Deref => match &ty.basetype {
                BaseType::Pointer(target) => Some(Shape::Pointer(0, target)),
                _ => None,
            },
            UniOp::BitNot => if ty.basetype is Integer {
                Some(Shape::Temporary)
            } else {
                None
            },
            UniOp::LogicNot => if ty.basetype is Bool || ty.basetype is Integer
                || ty.basetype is Pointer {
                Some(Shape::Temporary)
            } else {
                None
            },
            _ => None,
        }
    }
}

fn shape_of_uniop<'t>(op: UniOp, shape: Shape<'t>, ty: &'t TypeRef) -> (r: Option<Shape<'t>>)
    ensures
        r == uniop_shape(op, shape, ty),
{
    if !shape.is_readable() {
        return None;
    }
    match op {
        UniOp::PostDec | UniOp::PostInc | UniOp::PreDec | UniOp::PreInc => {
            if shape.is_in_memory() {
                Some(Shape::Temporary)
            } else {
                None
            }
        },
        UniOp::Deref => match &ty.basetype {
            BaseType::Pointer(target) => Some(Shape::Pointer(0, &**target)),
            _ => None,
        },
        UniOp::BitNot => match &ty.basetype {
            BaseType::Integer(_) => Some(Shape::Temporary),
            _ => None,
        },
        UniOp::LogicNot => match &ty.basetype {
            BaseType::Bool | BaseType::Integer(_) | BaseType::Pointer(_) => Some(Shape::Temporary),
            _ => None,
        },
        _ => None,
    }
}

/// Where the member `name` is found of a struct or union of type `ty` that is in `shape`.
pub open spec fn member_shape<'t>(shape: Shape<'t>, ty: &'t TypeRef, name: Seq<char>) -> Option<
    Shape<'t>,
> {
    match ty.field(name) {
        Some((ofs, field_ty)) => match shape {
            Shape::StackSlot(base, _) if base + ofs <= u32::MAX => Some(
                Shape::StackSlot((base + ofs) as u32, &field_ty),
            ),
            Shape::Pointer(base, _) if base + ofs <= u32::MAX => Some(
                Shape::Pointer((base + ofs) as u32, &field_ty),
            ),
            _ => None,
        },
        None => None,
    }
}

fn shape_of_member<'t>(shape: Shape<'t>, ty: &'t TypeRef, name: &String) -> (r: Option<Shape<'t>>)
    ensures
        r == member_shape(shape, ty, name@),
{
    match ty.get_field(name) {
        Some((ofs, field_ty)) => match shape {
            Shape::StackSlot(base, _) => match base.checked_add(ofs) {
                Some(sum) => Some(Shape::StackSlot(sum, field_ty)),
                None => None,
            },
            Shape::Pointer(base, _) => match base.checked_add(ofs) {
                Some(sum) => Some(Shape::Pointer(sum, field_ty)),
                None => None,
            },
            _ => None,
        },
        None => None,
    }
}

/// The type that type checking found for `n`.
pub open spec fn type_of(n: Node) -> Option<TypeRef> {
    match n.meta {
        Some(meta) => Some(meta.ty),
        None => None,
    }
}

/// Where the value of `n` is found, the variables being in `vars`; `None` where `n` cannot be
/// lowered.
pub open spec fn node_shape<'t>(vars: Seq<Shape<'t>>, n: &'t Node) -> Option<Shape<'t>>
    decreases n, 0nat,
{
    match &n.kind {
        NodeKind::StmtList(nodes) => nodes_shape(vars, nodes@, nodes@.len()),
        NodeKind::Identifier(_, binding) => match *binding {
            Some(IdentRef::Local(idx)) if idx < vars.len() => Some(vars[idx as int]),
            _ => None,
        },
        NodeKind::Integer(_, _) => Some(Shape::Temporary),
        NodeKind::Assign(slot, val) => match (node_shape(vars, slot), node_shape(vars, val)) {
            (Some(to), Some(from)) if to.in_memory() && !from.in_memory() => Some(to),
            _ => None,
        },
        NodeKind::AssignOp(op, slot, val) => match (
            node_shape(vars, slot),
            node_shape(vars, val),
            type_of(**val),
        ) {
            (Some(to), Some(from), Some(ty)) if to.in_memory() && to.readable() && from.readable()
                && binop_inst(*op, ty) is Some => Some(to),
            _ => None,
        },
        NodeKind::Cast(ty, val) => match (node_shape(vars, val), type_of(**val)) {
            (Some(shape), Some(src)) if castable(shape, src, *ty) => Some(Shape::Temporary),
            _ => None,
        },
        NodeKind::ImplicitCast(ty, val) => match (node_shape(vars, val), type_of(**val)) {
            (Some(shape), Some(src)) if castable(shape, src, *ty) => Some(Shape::Temporary),
            _ => None,
        },
        NodeKind::Ternary(cond, yes, no) => match (
            node_shape(vars, cond),
            node_shape(vars, yes),
            node_shape(vars, no),
            n.meta,
        ) {
            (Some(c), Some(y), Some(z), Some(meta)) if c.readable() && y.readable() && z.readable()
                && !meta.is_lvalue => Some(Shape::Temporary),
            _ => None,
        },
        NodeKind::UniOp(op, val) => match (node_shape(vars, val), type_of(**val)) {
            (Some(shape), Some(ty)) => uniop_shape(*op, shape, &ty),
            _ => None,
        },
        NodeKind::BinOp(op, left, right) => match (
            node_shape(vars, left),
            node_shape(vars, right),
            type_of(**left),
        ) {
            (Some(x), Some(y), Some(ty)) if x.readable() && y.readable() && binop_inst(*op, ty)
                is Some => Some(Shape::Temporary),
            _ => None,
        },
        NodeKind::Member(val, name) => match (node_shape(vars, val), type_of(**val)) {
            (Some(shape), Some(ty)) => member_shape(shape, &ty, name@),
            _ => None,
        },
        _ => None,
    }
}

/// Where the value of the last of the first `k` of `nodes` is found; `None` where one of these
/// cannot be lowered, or there are none.
pub open spec fn nodes_shape<'t>(vars: Seq<Shape<'t>>, nodes: Seq<Node>, k: nat) -> Option<
    Shape<'t>,
>
    decreases nodes, k,
{
    if k == 0 || k > nodes.len() {
        None
    } else if k == 1 {
        node_shape(vars, &nodes[0])
    } else {
        match nodes_shape(vars, nodes, (k - 1) as nat) {
            Some(_) => node_shape(vars, &nodes[k - 1]),
            None => None,
        }
    }
}

/// `n` can be lowered and its value be had as an SSA value.
pub open spec fn node_readable(vars: Seq<Shape>, n: &Node) -> bool {
    node_shape(vars, n) is Some && node_shape(vars, n)->0.readable()
}

pub open spec fn cond_ok(vars: Seq<Shape>, cond: ExprOrDef) -> bool {
    match cond {
        ExprOrDef::Expr(n) => node_readable(vars, &n),
        ExprOrDef::Definition(_) => false,
    }
}

/// The definition of a variable can be lowered.
pub open spec fn def_ok(vars: Seq<Shape>, def: VariableDefinition) -> bool {
    match def.index {
        Some(idx) => idx < vars.len() && match def.value {
            Initialiser::Uninitialised => true,
            Initialiser::Value(n) => {
                &&& vars[idx as int].in_memory()
                &&& node_shape(vars, &n) is Some
                &&& !node_shape(vars, &n)->0.in_memory()
            },
            Initialiser::ListLiteral(_) => false,
        },
        None => false,
    }
}

/// `stmt` can be lowered, where `breaks` and `continues` say whether there is something to break
/// out of and to continue.
pub open spec fn stmt_ok(vars: Seq<Shape>, breaks: bool, continues: bool, stmt: Statement) -> bool
    decreases stmt, 0nat,
{
    match stmt {
        Statement::Empty => true,
        Statement::VarDef(defs) => forall|i: int|
            0 <= i < defs@.len() ==> def_ok(vars, #[trigger] defs@[i]),
        Statement::Expr(n) => node_shape(vars, &n) is Some,
        Statement::Block(stmts) => stmts_ok(vars, breaks, continues, stmts@, stmts@.len()),
        Statement::IfStatement { cond, true_arm, else_arm } => {
            &&& cond_ok(vars, cond)
            &&& stmts_ok(vars, breaks, continues, true_arm@, true_arm@.len())
            &&& match else_arm {
                Some(stmts) => stmts_ok(vars, breaks, continues, stmts@, stmts@.len()),
                None => true,
            }
        },
        Statement::WhileLoop { cond, body } => {
            &&& cond_ok(vars, cond)
            &&& stmts_ok(vars, true, true, body@, body@.len())
        },
        Statement::Continue => continues,
        Statement::Break => breaks,
        Statement::Return(val) => match val {
            Some(n) => node_readable(vars, &n),
            None => true,
        },
        _ => false,
    }
}

/// The first `k` of `stmts` can be lowered.
pub open spec fn stmts_ok(
    vars: Seq<Shape>,
    breaks: bool,
    continues: bool,
    stmts: Seq<Statement>,
    k: nat,
) -> bool
    decreases stmts, k,
{
    if k == 0 {
        true
    } else if k > stmts.len() {
        false
    } else {
        &&& stmts_ok(vars, breaks, continues, stmts, (k - 1) as nat)
        &&& stmt_ok(vars, breaks, continues, stmts[k - 1])
    }
}

/// Where the variables of a function are found: its arguments in SSA values, the others in a
/// stack slot each.
pub open spec fn var_shapes(ty: FunctionType, body: FunctionBody) -> Seq<Shape<'static>> {
    let args = ty.args@.len();
    let vars = body.var_table@;
    Seq::new(
        if args <= vars.len() {
            vars.len()
        } else {
            args
        },
        |i: int|
            if i < args {
                Shape::Variable
            } else {
                Shape::StackSlot(0, &vars[i].ty)
            },
    )
}

/// A function of type `ty` and with this body can be lowered: its arguments and what it returns
/// are held in SSA values, its variables have a size, and there is code for all its statements.
/// Every argument takes one SSA value of 32 bits, and a block takes no more than 2^16 of them.
pub open spec fn lowerable(ty: FunctionType, body: FunctionBody) -> bool {
    &&& ty.ret.basetype is Void || ir_type(ty.ret) is Some
    &&& ty.args@.len() <= 0x1_0000
    &&& forall|i: int|
        0 <= i < ty.args@.len() ==> ir_type((#[trigger] ty.args@[i]).0) == Some(IrType::I32)
    &&& forall|i: int|
        ty.args@.len() <= i < body.var_table@.len() ==> (#[trigger] body.var_table@[i]).ty.size
            is Some
    &&& stmts_ok(var_shapes(ty, body), false, false, body.code@, body.code@.len())
}

fn shape_of_nodes<'t>(vars: &Vec<Shape<'t>>, nodes: &'t Vec<Node>) -> (r: Option<Shape<'t>>)
    ensures
        r == nodes_shape(vars@, nodes@, nodes@.len()),
    decreases nodes,
{
    if nodes.len() == 0 {
        return None;
    }
    let mut last = shape_of_node(vars, &nodes[0]);
    let mut k: usize = 1;
    while k < nodes.len()
        invariant
            1 <= k <= nodes@.len(),
            last == nodes_shape(vars@, nodes@, k as nat),
        decreases nodes@.len() - k,
    {
        let next = shape_of_node(vars, &nodes[k]);
        if last.is_some() {
            last = next;
        }
        k += 1;
    }
    last
}

fn shape_of_node<'t>(vars: &Vec<Shape<'t>>, n: &'t Node) -> (r: Option<Shape<'t>>)
    ensures
        r == node_shape(vars@, n),
    decreases n,
{
    match &n.kind {
        NodeKind::StmtList(nodes) => shape_of_nodes(vars, nodes),
        NodeKind::Identifier(_, binding) => match *binding {
            Some(IdentRef::Local(idx)) => if idx < vars.len() {
                Some(vars[idx])
            } else {
                None
            },
            _ => None,
        },
        NodeKind::Integer(_, _) => Some(Shape::Temporary),
        NodeKind::Assign(slot, val) => match (shape_of_node(vars, slot), shape_of_node(vars, val)) {
            (Some(to), Some(from)) => if to.is_in_memory() && !from.is_in_memory() {
                Some(to)
            } else {
                None
            },
            _ => None,
        },
        NodeKind::AssignOp(op, slot, val) => match (
            shape_of_node(vars, slot),
            shape_of_node(vars, val),
            &val.meta,
        ) {
            (Some(to), Some(from), Some(meta)) => if to.is_in_memory() && to.is_readable()
                && from.is_readable() && select_binop(*op, &meta.ty).is_some() {
                Some(to)
            } else {
                None
            },
            _ => None,
        },
        NodeKind::Cast(ty, val) => match (shape_of_node(vars, val), &val.meta) {
            (Some(shape), Some(meta)) => if is_castable(shape, &meta.ty, ty) {
                Some(Shape::Temporary)
            } else {
                None
            },
            _ => None,
        },
        NodeKind::ImplicitCast(ty, val) => match (shape_of_node(vars, val), &val.meta) {
            (Some(shape), Some(meta)) => if is_castable(shape, &meta.ty, ty) {
                Some(Shape::Temporary)
            } else {
                None
            },
            _ => None,
        },
        NodeKind::Ternary(cond, yes, no) => match (
            shape_of_node(vars, cond),
            shape_of_node(vars, yes),
            shape_of_node(vars, no),
            &n.meta,
        ) {
            (Some(c), Some(y), Some(z), Some(meta)) => if c.is_readable() && y.is_readable()
                && z.is_readable() && !meta.is_lvalue {
                Some(Shape::Temporary)
            } else {
                None
            },
            _ => None,
        },
        NodeKind::UniOp(op, val) => match (shape_of_node(vars, val), &val.meta) {
            (Some(shape), Some(meta)) => shape_of_uniop(*op, shape, &meta.ty),
            _ => None,
        },
        NodeKind::BinOp(op, left, right) => match (
            shape_of_node(vars, left),
            shape_of_node(vars, right),
            &left.meta,
        ) {
            (Some(x), Some(y), Some(meta)) => if x.is_readable() && y.is_readable() && select_binop(
                *op,
                &meta.ty,
            ).is_some() {
                Some(Shape::Temporary)
            } else {
                None
            },
            _ => None,
        },
        NodeKind::Member(val, name) => match (shape_of_node(vars, val), &val.meta) {
            (Some(shape), Some(meta)) => shape_of_member(shape, &meta.ty, name),
            _ => None,
        },
        _ => None,
    }
}

fn can_read_node(vars: &Vec<Shape<'_>>, n: &Node) -> (r: bool)
    ensures
        r == node_readable(vars@, n),
{
    match shape_of_node(vars, n) {
        Some(shape) => shape.is_readable(),
        None => false,
    }
}

fn can_lower_cond(vars: &Vec<Shape<'_>>, cond: &ExprOrDef) -> (r: bool)
    ensures
        r == cond_ok(vars@, *cond),
{
    match cond {
        ExprOrDef::Expr(n) => can_read_node(vars, n),
        ExprOrDef::Definition(_) => false,
    }
}

fn can_lower_def(vars: &Vec<Shape<'_>>, def: &VariableDefinition) -> (r: bool)
    ensures
        r == def_ok(vars@, *def),
{
    match def.index {
        Some(idx) => idx < vars.len() && match &def.value {
            Initialiser::Uninitialised => true,
            Initialiser::Value(n) => match shape_of_node(vars, n) {
                Some(shape) => vars[idx].is_in_memory() && !shape.is_in_memory(),
                None => false,
            },
            Initialiser::ListLiteral(_) => false,
        },
        None => false,
    }
}

fn can_lower_defs(vars: &Vec<Shape<'_>>, defs: &Vec<VariableDefinition>) -> (r: bool)
    ensures
        r == forall|i: int| 0 <= i < defs@.len() ==> def_ok(vars@, #[trigger] defs@[i]),
{
    let mut k: usize = 0;
    while k < defs.len()
        invariant
            k <= defs@.len(),
            forall|i: int| 0 <= i < k ==> def_ok(vars@, #[trigger] defs@[i]),
        decreases defs@.len() - k,
    {
        if !can_lower_def(vars, &defs[k]) {
            return false;
        }
        k += 1;
    }
    true
}

fn can_lower_stmts(
    vars: &Vec<Shape<'_>>,
    breaks: bool,
    continues: bool,
    stmts: &Vec<Statement>,
) -> (r: bool)
    ensures
        r == stmts_ok(vars@, breaks, continues, stmts@, stmts@.len()),
    decreases stmts,
{
    let mut k: usize = 0;
    let mut ok = true;
    while k < stmts.len()
        invariant
            k <= stmts@.len(),
            ok == stmts_ok(vars@, breaks, continues, stmts@, k as nat),
        decreases stmts@.len() - k,
    {
        let next = can_lower_stmt(vars, breaks, continues, &stmts[k]);
        ok = ok && next;
        k += 1;
    }
    ok
}

fn can_lower_stmt(vars: &Vec<Shape<'_>>, breaks: bool, continues: bool, stmt: &Statement) -> (r:
    bool)
    ensures
        r == stmt_ok(vars@, breaks, continues, *stmt),
    decreases stmt,
{
    match stmt {
        Statement::Empty => true,
        Statement::VarDef(defs) => can_lower_defs(vars, defs),
        Statement::Expr(n) => shape_of_node(vars, n).is_some(),
        Statement::Block(stmts) => can_lower_stmts(vars, breaks, continues, stmts),
        Statement::IfStatement { cond, true_arm, else_arm } => {
            can_lower_cond(vars, cond) && can_lower_stmts(vars, breaks, continues, true_arm)
                && match else_arm {
                Some(stmts) => can_lower_stmts(vars, breaks, continues, stmts),
                None => true,
            }
        },
        Statement::WhileLoop { cond, body } => {
            can_lower_cond(vars, cond) && can_lower_stmts(vars, true, true, body)
        },
        Statement::Continue => continues,
        Statement::Break => breaks,
        Statement::Return(val) => match val {
            Some(n) => can_read_node(vars, n),
            None => true,
        },
        _ => false,
    }
}

/// Whether a function of type `ty` and with this body can be lowered.
pub fn can_lower(ty: &FunctionType, body: &FunctionBody) -> (r: bool)
    ensures
        r == lowerable(*ty, *body),
{
    let ret_ok = match &ty.ret.basetype {
        BaseType::Void => true,
        _ => ir_type_of(&ty.ret).is_some(),
    };
    let args: usize = ty.args.len();
    if !ret_ok || args > 0x1_0000 {
        return false;
    }
    let mut vars: Vec<Shape<'_>> = Vec::new();
    let mut i: usize = 0;
    while i < args
        invariant
            i <= args,
            args == ty.args@.len(),
            vars@.len() == i,
            forall|k: int| 0 <= k < i ==> #[trigger] vars@[k] == Shape::Variable,
            forall|k: int| 0 <= k < i ==> ir_type((#[trigger] ty.args@[k]).0) == Some(IrType::I32),
        decreases args - i,
    {
        match ir_type_of(&ty.args[i].0) {
            Some(IrType::I32) => {},
            _ => {
                return false;
            },
        }
        vars.push(Shape::Variable);
        i += 1;
    }
    while i < body.var_table.len()
        invariant
            args <= i,
            i <= body.var_table@.len() || i == args,
            args == ty.args@.len(),
            vars@.len() == i,
            forall|k: int| 0 <= k < args ==> #[trigger] vars@[k] == Shape::Variable,
            forall|k: int|
                args <= k < i ==> #[trigger] vars@[k] == Shape::StackSlot(
                    0,
                    &body.var_table@[k].ty,
                ),
            forall|k: int| args <= k < i ==> (#[trigger] body.var_table@[k]).ty.size is Some,
        decreases body.var_table@.len() - i,
    {
        let var = &body.var_table[i];
        if var.ty.get_size().is_none() {
            return false;
        }
        vars.push(Shape::StackSlot(0, &var.ty));
        i += 1;
    }
    assert(vars@ =~= var_shapes(*ty, *body));
    can_lower_stmts(&vars, false, false, &body.code)
}

} // verus!
