//! The code of a C function: the operations on a Cranelift function that it is lowered to.
//!
//! Every function here takes the operations so far and gives them with those that follow. None of
//! them has a meaning for what cannot be lowered (see `shape`).
use vstd::prelude::*;
use crate::ast::{
    BinOp, ExprOrDef, FunctionBody, IdentRef, Initialiser, Node, NodeKind, Statement, UniOp,
    VariableDefinition,
};
use crate::ir::{state, use_var_value, CallConv, IntCC, IrType, Op};
use crate::shape::{binop_inst, cast_inst, ir_type, type_of, CastInst, Shape};
use crate::types::{BaseType, FunctionType, TypeRef};

verus! {

/// Where a value is found, by the numbers of the SSA value, variable or stack slot.
pub enum Place {
    Temporary(nat),
    Variable(nat),
    /// An offset in a stack slot, and the type of what is there
    StackSlot(nat, u32, TypeRef),
    /// An offset from a pointer, and the type of what is there
    Pointer(nat, u32, TypeRef),
}

/// The blocks that `break` and `continue` jump to, where a scope sets them.
pub struct Targets {
    pub on_break: Option<nat>,
    pub on_continue: Option<nat>,
}

impl Place {
    pub open spec fn shape<'t>(self) -> Shape<'t> {
        match self {
            Place::Temporary(_) => Shape::Temporary,
            Place::Variable(_) => Shape::Variable,
            Place::StackSlot(_, ofs, ty) => Shape::StackSlot(ofs, &ty),
            Place::Pointer(_, ofs, ty) => Shape::Pointer(ofs, &ty),
        }
    }
}

pub open spec fn shapes<'t>(vars: Seq<Place>) -> Seq<Shape<'t>> {
    vars.map_values(|p: Place| p.shape())
}

impl Targets {
    /// A scope that is no loop.
    pub open spec fn unset() -> Targets {
        Targets { on_break: None, on_continue: None }
    }
}

/// The block that `break` jumps to: that of the innermost scope that sets one.
pub open spec fn break_target(scopes: Seq<Targets>) -> Option<nat>
    decreases scopes.len(),
{
    if scopes.len() == 0 {
        None
    } else if scopes.last().on_break is Some {
        scopes.last().on_break
    } else {
        break_target(scopes.drop_last())
    }
}

/// The block that `continue` jumps to: that of the innermost scope that sets one.
pub open spec fn continue_target(scopes: Seq<Targets>) -> Option<nat>
    decreases scopes.len(),
{
    if scopes.len() == 0 {
        None
    } else if scopes.last().on_continue is Some {
        scopes.last().on_continue
    } else {
        continue_target(scopes.drop_last())
    }
}

/// The number of the value that the next instruction yields.
pub open spec fn next_value(ops: Seq<Op>) -> nat {
    state(ops).values.len()
}

/// One more instruction, and the value that it yields.
pub open spec fn emit(ops: Seq<Op>, op: Op) -> (Seq<Op>, nat) {
    (ops.push(op), next_value(ops))
}

/// Goes on in a block that all branches to are known of.
pub open spec fn enter_code(ops: Seq<Op>, block: nat) -> Seq<Op> {
    ops.push(Op::SwitchTo { block }).push(Op::Seal { block })
}

/// Goes on in a new block that nothing branches to, after code that leaves the current one.
pub open spec fn orphan_code(ops: Seq<Op>) -> Seq<Op> {
    enter_code(ops.push(Op::CreateBlock), state(ops).blocks)
}

/// Adds three blocks, the first of which has the number `state(ops).blocks`.
pub open spec fn three_blocks(ops: Seq<Op>) -> Seq<Op> {
    ops.push(Op::CreateBlock).push(Op::CreateBlock).push(Op::CreateBlock)
}

/// Branches to `no` when `c` is zero, else to `yes`.
pub open spec fn branch_code(ops: Seq<Op>, c: nat, yes: nat, no: nat) -> Seq<Op> {
    ops.push(Op::Brz { c, block: no }).push(Op::Jump { block: yes })
}

/// Reads what is in `p`, and the SSA value that holds it then.
pub open spec fn read_code(ops: Seq<Op>, p: Place) -> (Seq<Op>, nat) {
    match p {
        Place::Temporary(v) => (ops, v),
        Place::Variable(var) => (ops.push(Op::UseVar { var }), use_var_value(ops, var)),
        Place::StackSlot(slot, ofs, ty) => emit(
            ops,
            Op::StackLoad { ty: ir_type(ty)->0, slot, offset: ofs as i32 },
        ),
        Place::Pointer(p, ofs, ty) => emit(
            ops,
            Op::Load { ty: ir_type(ty)->0, p, offset: ofs as i32 },
        ),
    }
}

/// Puts what is in `from` into `to`, a place in memory.
pub open spec fn assign_code(ops: Seq<Op>, to: Place, from: Place) -> Seq<Op> {
    let (ops, x) = read_code(ops, from);
    match to {
        Place::StackSlot(slot, ofs, _) => ops.push(Op::StackStore { x, slot, offset: ofs as i32 }),
        Place::Pointer(p, ofs, _) => ops.push(Op::Store { x, p, offset: ofs as i32 }),
        _ => ops,
    }
}

/// Casts what is in `p` from `src` to `dst`: of an array its address is taken.
pub open spec fn cast_code(ops: Seq<Op>, dst: TypeRef, p: Place, src: TypeRef) -> (Seq<Op>, nat) {
    if src.basetype is Array {
        match p {
            Place::StackSlot(slot, ofs, _) => emit(
                ops,
                Op::StackAddr { ty: IrType::I32, slot, offset: ofs as i32 },
            ),
            Place::Pointer(x, ofs, _) => emit(ops, Op::IaddImm { x, imm: ofs as i64 }),
            _ => (ops, 0),
        }
    } else {
        let (ops, x) = read_code(ops, p);
        match cast_inst(ir_type(src)->0, ir_type(dst)->0)->0 {
            CastInst::Keep => (ops, x),
            CastInst::Uextend => emit(ops, Op::Uextend { ty: ir_type(dst)->0, x }),
            CastInst::Ireduce => emit(ops, Op::Ireduce { ty: ir_type(dst)->0, x }),
        }
    }
}

pub open spec fn binop_code(ops: Seq<Op>, op: BinOp, ty: TypeRef, x: nat, y: nat) -> (
    Seq<Op>,
    nat,
) {
    emit(ops, Op::Binary { inst: binop_inst(op, ty)->0, x, y })
}

/// Adds `by` to the value `x` that was read from `p`, and puts it back there; the new value.
pub open spec fn step_code(ops: Seq<Op>, p: Place, x: nat, by: i64) -> (Seq<Op>, nat) {
    let (ops, new) = emit(ops, Op::IaddImm { x, imm: by });
    (assign_code(ops, p, Place::Temporary(new)), new)
}

/// A unary operation on what is in `p`, of type `ty`.
pub open spec fn uniop_code(ops: Seq<Op>, op: UniOp, p: Place, ty: TypeRef) -> (Seq<Op>, Place) {
    let (ops, x) = read_code(ops, p);
    match op {
        UniOp::PostDec => (step_code(ops, p, x, -1i64).0, Place::Temporary(x)),
        UniOp::PostInc => (step_code(ops, p, x, 1i64).0, Place::Temporary(x)),
        UniOp::PreDec => {
            let (ops, new) = step_code(ops, p, x, -1i64);
            (ops, Place::Temporary(new))
        },
        UniOp::PreInc => {
            let (ops, new) = step_code(ops, p, x, 1i64);
            (ops, Place::Temporary(new))
        },
        UniOp::Deref => match ty.basetype {
            BaseType::Pointer(target) => (ops, Place::Pointer(x, 0, *target)),
            _ => (ops, p),
        },
        UniOp::BitNot => {
            let (ops, r) = emit(ops, Op::Bnot { x });
            (ops, Place::Temporary(r))
        },
        UniOp::LogicNot => {
            let (ops, r) = emit(ops, Op::IntCompareImm { cond: IntCC::Equal, x, imm: 0 });
            (ops, Place::Temporary(r))
        },
        _ => (ops, p),
    }
}

/// The member `name` of a struct or union of type `ty` that is in `p`.
pub open spec fn member_place(p: Place, ty: TypeRef, name: Seq<char>) -> Place {
    match ty.field(name) {
        Some((ofs, field_ty)) => match p {
            Place::StackSlot(slot, base, _) => Place::StackSlot(
                slot,
                (base + ofs) as u32,
                field_ty,
            ),
            Place::Pointer(x, base, _) => Place::Pointer(x, (base + ofs) as u32, field_ty),
            _ => p,
        },
        None => p,
    }
}

/// The code of an expression, and where its value is found then, the variables being in `vars`.
pub open spec fn node_code(vars: Seq<Place>, ops: Seq<Op>, n: Node) -> (Seq<Op>, Place)
    decreases n, 0nat,
{
    match n.kind {
        NodeKind::StmtList(nodes) => nodes_code(vars, ops, nodes@, nodes@.len()),
        NodeKind::Identifier(_, Some(IdentRef::Local(idx))) => (ops, vars[idx as int]),
        NodeKind::Integer(val, _) => {
            let (ops, r) = emit(ops, Op::Iconst { ty: IrType::I32, imm: val as i64 });
            (ops, Place::Temporary(r))
        },
        NodeKind::Assign(slot, val) => {
            let (ops, to) = node_code(vars, ops, *slot);
            let (ops, from) = node_code(vars, ops, *val);
            (assign_code(ops, to, from), to)
        },
        NodeKind::AssignOp(op, slot, val) => {
            let (ops, to) = node_code(vars, ops, *slot);
            let (ops, from) = node_code(vars, ops, *val);
            let (ops, x) = read_code(ops, to);
            let (ops, y) = read_code(ops, from);
            let (ops, r) = binop_code(ops, op, type_of(*val)->0, x, y);
            (assign_code(ops, to, Place::Temporary(r)), to)
        },
        NodeKind::Cast(ty, val) => {
            let (ops, p) = node_code(vars, ops, *val);
            let (ops, r) = cast_code(ops, ty, p, type_of(*val)->0);
            (ops, Place::Temporary(r))
        },
        NodeKind::ImplicitCast(ty, val) => {
            let (ops, p) = node_code(vars, ops, *val);
            let (ops, r) = cast_code(ops, ty, p, type_of(*val)->0);
            (ops, Place::Temporary(r))
        },
        NodeKind::Ternary(cond, yes, no) => {
            let (ops, p) = node_code(vars, ops, *cond);
            let (ops, c) = read_code(ops, p);
            let first = state(ops).blocks;
            let ops = branch_code(three_blocks(ops), c, first, first + 1);
            let (ops, p) = node_code(vars, enter_code(ops, first), *yes);
            let (ops, x) = read_code(ops, p);
            let ops = enter_code(ops.push(Op::Jump { block: first + 2 }), first + 1);
            let (ops, p) = node_code(vars, ops, *no);
            let (ops, y) = read_code(ops, p);
            let ops = enter_code(ops.push(Op::Jump { block: first + 2 }), first + 2);
            let (ops, r) = emit(ops, Op::Select { c, x, y });
            (ops, Place::Temporary(r))
        },
        NodeKind::UniOp(op, val) => {
            let (ops, p) = node_code(vars, ops, *val);
            uniop_code(ops, op, p, type_of(*val)->0)
        },
        NodeKind::BinOp(op, left, right) => {
            let (ops, p) = node_code(vars, ops, *left);
            let (ops, q) = node_code(vars, ops, *right);
            let (ops, x) = read_code(ops, p);
            let (ops, y) = read_code(ops, q);
            let (ops, r) = binop_code(ops, op, type_of(*left)->0, x, y);
            (ops, Place::Temporary(r))
        },
        NodeKind::Member(val, name) => {
            let (ops, p) = node_code(vars, ops, *val);
            (ops, member_place(p, type_of(*val)->0, name@))
        },
        _ => (ops, Place::Temporary(0)),
    }
}

/// The code of the first `k` of `nodes`, and where the value of the last of them is found.
pub open spec fn nodes_code(vars: Seq<Place>, ops: Seq<Op>, nodes: Seq<Node>, k: nat) -> (
    Seq<Op>,
    Place,
)
    decreases nodes, k,
{
    if k == 0 || k > nodes.len() {
        (ops, Place::Temporary(0))
    } else {
        node_code(vars, nodes_code(vars, ops, nodes, (k - 1) as nat).0, nodes[k - 1])
    }
}

/// The code of a condition, and the SSA value that holds it.
pub open spec fn cond_code(vars: Seq<Place>, ops: Seq<Op>, cond: ExprOrDef) -> (Seq<Op>, nat) {
    match cond {
        ExprOrDef::Expr(n) => {
            let (ops, p) = node_code(vars, ops, n);
            read_code(ops, p)
        },
        ExprOrDef::Definition(_) => (ops, 0),
    }
}

/// The code of the definition of a variable.
pub open spec fn def_code(vars: Seq<Place>, ops: Seq<Op>, def: VariableDefinition) -> Seq<Op> {
    match def.value {
        Initialiser::Value(n) => {
            let (ops, p) = node_code(vars, ops, n);
            assign_code(ops, vars[def.index->0 as int], p)
        },
        _ => ops,
    }
}

/// The code of the first `k` of `defs`.
pub open spec fn defs_code(
    vars: Seq<Place>,
    ops: Seq<Op>,
    defs: Seq<VariableDefinition>,
    k: nat,
) -> Seq<Op>
    decreases k,
{
    if k == 0 {
        ops
    } else {
        def_code(vars, defs_code(vars, ops, defs, (k - 1) as nat), defs[k - 1])
    }
}

/// The code of a statement in `scopes`, the outermost of which comes first. In the body of a loop,
/// `break` goes to its head and `continue` to its exit.
pub open spec fn stmt_code(
    vars: Seq<Place>,
    scopes: Seq<Targets>,
    ops: Seq<Op>,
    stmt: Statement,
) -> Seq<Op>
    decreases stmt, 0nat,
{
    match stmt {
        Statement::VarDef(defs) => defs_code(vars, ops, defs@, defs@.len()),
        Statement::Expr(n) => node_code(vars, ops, n).0,
        Statement::Block(stmts) => stmts_code(
            vars,
            scopes.push(Targets::unset()),
            ops,
            stmts@,
            stmts@.len(),
        ),
        Statement::IfStatement { cond, true_arm, else_arm } => {
            let (ops, c) = cond_code(vars, ops, cond);
            let first = state(ops).blocks;
            let inner = scopes.push(Targets::unset());
            let ops = branch_code(three_blocks(ops), c, first, first + 1);
            let ops = enter_code(ops, first);
            let ops = stmts_code(vars, inner, ops, true_arm@, true_arm@.len());
            let ops = enter_code(ops.push(Op::Jump { block: first + 2 }), first + 1);
            let ops = match else_arm {
                Some(stmts) => stmts_code(vars, inner, ops, stmts@, stmts@.len()),
                None => ops,
            };
            enter_code(ops.push(Op::Jump { block: first + 2 }), first + 2)
        },
        Statement::WhileLoop { cond, body } => {
            let first = state(ops).blocks;
            let top = first;
            let exit = first + 2;
            let outer = scopes.push(Targets { on_break: Some(top), on_continue: Some(exit) });
            let inner = outer.push(Targets::unset());
            let ops = three_blocks(ops).push(Op::Jump { block: top }).push(
                Op::SwitchTo { block: top },
            );
            let (ops, c) = cond_code(vars, ops, cond);
            let ops = enter_code(branch_code(ops, c, first + 1, exit), first + 1);
            let ops = stmts_code(vars, inner, ops, body@, body@.len());
            let ops = ops.push(Op::Jump { block: top }).push(Op::Seal { block: top });
            enter_code(ops, exit)
        },
        Statement::Continue => orphan_code(
            ops.push(Op::Jump { block: continue_target(scopes)->0 }),
        ),
        Statement::Break => orphan_code(ops.push(Op::Jump { block: break_target(scopes)->0 })),
        Statement::Return(Some(n)) => {
            let (ops, p) = node_code(vars, ops, n);
            let (ops, v) = read_code(ops, p);
            orphan_code(ops.push(Op::Return { values: seq![v] }))
        },
        Statement::Return(None) => orphan_code(ops.push(Op::Return { values: Seq::empty() })),
        _ => ops,
    }
}

/// The code of the first `k` of `stmts`.
pub open spec fn stmts_code(
    vars: Seq<Place>,
    scopes: Seq<Targets>,
    ops: Seq<Op>,
    stmts: Seq<Statement>,
    k: nat,
) -> Seq<Op>
    decreases stmts, k,
{
    if k == 0 || k > stmts.len() {
        ops
    } else {
        stmt_code(vars, scopes, stmts_code(vars, scopes, ops, stmts, (k - 1) as nat), stmts[k - 1])
    }
}

/// Where the variables of a function are found: the arguments in the Cranelift variables of the
/// same numbers, the others in a stack slot each, in order.
pub open spec fn var_places(ty: FunctionType, body: FunctionBody) -> Seq<Place> {
    let args = ty.args@.len();
    let vars = body.var_table@;
    Seq::new(
        if args <= vars.len() {
            vars.len()
        } else {
            args
        },
        |i: int|
            if i < args {
                Place::Variable(i as nat)
            } else {
                Place::StackSlot((i - args) as nat, 0, vars[i].ty)
            },
    )
}

/// The types of the SSA values that hold the arguments of a function.
pub open spec fn param_types(ty: FunctionType) -> Seq<IrType> {
    ty.args@.map_values(|arg: (TypeRef, String)| ir_type(arg.0)->0)
}

/// The type of the SSA value that a function returns, if it returns one.
pub open spec fn return_types(ty: FunctionType) -> Seq<IrType> {
    if ty.ret.basetype is Void {
        Seq::empty()
    } else {
        seq![ir_type(ty.ret)->0]
    }
}

/// Stack slots for the variables from number `from` on, up to but without number `to`.
pub open spec fn slots_code(ops: Seq<Op>, body: FunctionBody, from: nat, to: nat) -> Seq<Op>
    decreases to,
{
    if to <= from {
        ops
    } else {
        slots_code(ops, body, from, (to - 1) as nat).push(
            Op::ExplicitSlot { size: body.var_table@[to - 1].ty.size->0 },
        )
    }
}

/// Gives the first `k` Cranelift variables the values of the function's parameters.
pub open spec fn args_code(ops: Seq<Op>, k: nat) -> Seq<Op>
    decreases k,
{
    if k == 0 {
        ops
    } else {
        let i = (k - 1) as nat;
        args_code(ops, i).push(Op::DeclareVar { var: i, ty: IrType::I32 }).push(
            Op::DefVar { var: i, value: i },
        )
    }
}

/// All that comes before the statements of a function: its signature, its stack slots and the
/// block that takes its arguments.
pub open spec fn prologue_code(ty: FunctionType, body: FunctionBody) -> Seq<Op> {
    let args = ty.args@.len();
    let start = seq![
        Op::Function {
            namespace: 0,
            index: 0,
            conv: CallConv::SystemV,
            params: param_types(ty),
            returns: return_types(ty),
        },
    ];
    let ops = slots_code(start, body, args, body.var_table@.len());
    let ops = ops.push(Op::CreateBlock).push(Op::FunctionParams { block: 0 });
    args_code(enter_code(ops, 0), args)
}

/// Returns from the function, unless the current block ends otherwise.
pub open spec fn epilogue_code(ops: Seq<Op>) -> Seq<Op> {
    if state(ops).filled.contains(state(ops).cur->0) {
        ops
    } else {
        ops.push(Op::Return { values: Seq::empty() })
    }
}

/// The code of a function.
pub open spec fn function_code(ty: FunctionType, body: FunctionBody) -> Seq<Op> {
    let scopes = seq![Targets::unset(), Targets::unset()];
    epilogue_code(
        stmts_code(
            var_places(ty, body),
            scopes,
            prologue_code(ty, body),
            body.code@,
            body.code@.len(),
        ),
    )
}

} // verus!
