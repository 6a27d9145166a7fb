//! The code of a C function does what the function means.
use vstd::prelude::*;
use crate::ast::{
    BinOp, ExprOrDef, FunctionBody, IdentRef, Initialiser, Node, NodeKind, Statement, UniOp,
    VariableDefinition,
};
use crate::code::{
    args_code, assign_code, binop_code, branch_code, break_target, cast_code, cond_code,
    continue_target, defs_code, enter_code, function_code, next_value, node_code, nodes_code,
    orphan_code, param_types, prologue_code, read_code, return_types, shapes, slots_code,
    step_code, stmt_code, stmts_code, three_blocks, uniop_code, var_places, Place, Targets,
};
use crate::ir::{lemma_state_push, lemma_times_push, state, times, CallConv, IrType, Op};
use crate::laws::{
    end_arm, extends, first_arm, follows, goes_on, law_blocks_hide_no_loop,
    law_expression_self_contained, law_function_returns, law_loops_hide_loops,
    law_places_as_foretold, law_prologue, law_statement_self_contained,
    law_statements_self_contained, lemma_assign, lemma_branch, lemma_cast, lemma_cond, lemma_def,
    lemma_defs, lemma_emit, lemma_first_arm, lemma_goes_nowhere, lemma_goes_on, lemma_loop_body,
    lemma_loop_head, lemma_nodes, lemma_read, lemma_second_arm, lemma_slots, lemma_start,
    lemma_uniop, loop_body, loop_end, loop_head, new_once, once_each, open_for_code,
};
use crate::meaning::{
    apart, bind, call_of, call_result, entered_once, entry, finds, owner, Call, Loc, Machine,
    Outcome, Program, Target,
};
use crate::shape::{
    binop_inst, castable, cond_ok, def_ok, ir_type, lowerable, node_shape, nodes_shape, stmt_ok,
    stmts_ok, type_of, uniop_shape, var_shapes, Shape,
};
use crate::types::{FunctionType, TypeRef};

verus! {

broadcast use {lemma_state_push, lemma_times_push};

/// What is needed of the operations of a program to run it.
pub open spec fn runnable(p: Program) -> bool {
    apart(p.ops) && entered_once(p.ops)
}

/// The machine is where the code after `ops` begins.
pub open spec fn stands(p: Program, m: Machine, ops: Seq<Op>) -> bool {
    &&& m.at == ops.len()
    &&& m.result is None
    &&& extends(ops, p.ops)
}

/// The value `n` is one of the first `k`, or one of a variable.
pub open spec fn steady(p: Program, n: nat, k: nat) -> bool {
    owner(p.ops, n) is Some || n < k
}

/// From `a` to `b` the variables and the first `k` values hold what they held.
pub open spec fn stable(p: Program, a: Machine, b: Machine, k: nat) -> bool {
    &&& a.vars == b.vars
    &&& forall|n: nat| steady(p, n, k) ==> #[trigger] p.look(b, n) == p.look(a, n)
}

/// `place` is where the code has what is at `loc`.
pub open spec fn holds(p: Program, m: Machine, place: Place, loc: Loc) -> bool {
    match (place, loc) {
        (Place::Temporary(n), Loc::Value(v)) => p.look(m, n) == v,
        (Place::Variable(i), Loc::Arg(j)) => i == j,
        (Place::StackSlot(slot, ofs, ty), Loc::Slot(of, at, what)) => slot == of && ofs == at && ty
            == what,
        (Place::Pointer(n, ofs, ty), Loc::Memory(a, at, what)) => p.look(m, n) == a && ofs == at
            && ty == what,
        _ => false,
    }
}

/// `place` names no value but the first `k` and those of variables.
pub open spec fn lasting(p: Program, place: Place, k: nat) -> bool {
    match place {
        Place::Temporary(n) => steady(p, n, k),
        Place::Pointer(n, _, _) => steady(p, n, k),
        _ => true,
    }
}

/// The code has the arguments and the variables of a call where they belong.
pub open spec fn serves(p: Program, m: Machine, vars: Seq<Place>, c: Call) -> bool {
    &&& p.target == c.target
    &&& vars.len() == c.vars.len()
    &&& forall|i: nat| i < c.args.len() ==> #[trigger] m.vars[i] == c.args[i as int]
    &&& forall|i: int|
        0 <= i < vars.len() ==> match (#[trigger] vars[i], c.vars[i]) {
            (Place::Variable(j), Loc::Arg(k)) => j == k && j < c.args.len(),
            (Place::StackSlot(slot, ofs, ty), Loc::Slot(of, at, what)) => slot == of && ofs == at
                && ty == what,
            _ => false,
        }
}

proof fn lemma_run(p: Program, a: Machine, i: nat, j: nat)
    ensures
        p.run(p.run(a, i), j) == p.run(a, i + j),
    decreases i,
{
    if i > 0 {
        lemma_run(p, p.step(a), (i - 1) as nat, j);
    }
}

proof fn lemma_leads(p: Program, a: Machine, b: Machine, c: Machine)
    requires
        p.leads(a, b),
        p.leads(b, c),
    ensures
        p.leads(a, c),
{
    let i = choose|i: nat| #[trigger] p.run(a, i) == b;
    let j = choose|j: nat| #[trigger] p.run(b, j) == c;
    lemma_run(p, a, i, j);
    assert(p.run(a, i + j) == c);
}

proof fn lemma_leads_self(p: Program, a: Machine)
    ensures
        p.leads(a, a),
{
    assert(p.run(a, 0) == a);
}

proof fn lemma_leads_step(p: Program, a: Machine)
    ensures
        p.leads(a, p.step(a)),
{
    reveal_with_fuel(Program::run, 2);
    assert(p.run(a, 1) == p.step(a));
}

proof fn lemma_stable(p: Program, a: Machine, b: Machine, c: Machine, k: nat, l: nat)
    requires
        stable(p, a, b, k),
        stable(p, b, c, l),
        k <= l,
    ensures
        stable(p, a, c, k),
{
    assert forall|n: nat| steady(p, n, k) implies #[trigger] p.look(c, n) == p.look(a, n) by {
        assert(steady(p, n, l));
        assert(p.look(b, n) == p.look(a, n));
    }
}

proof fn lemma_still_holds(p: Program, a: Machine, b: Machine, place: Place, loc: Loc, k: nat)
    requires
        holds(p, a, place, loc),
        lasting(p, place, k),
        stable(p, a, b, k),
    ensures
        holds(p, b, place, loc),
{
}

proof fn lemma_extends(a: Seq<Op>, b: Seq<Op>, c: Seq<Op>)
    requires
        extends(a, b),
        extends(b, c),
    ensures
        extends(a, c),
{
    assert forall|i: int| 0 <= i < a.len() implies #[trigger] c[i] == a[i] by {
        assert(b[i] == a[i]);
    }
}

/// The next operation, and those before it.
proof fn lemma_next(p: Program, ops: Seq<Op>, op: Op)
    requires
        extends(ops.push(op), p.ops),
    ensures
        p.ops[ops.len() as int] == op,
        p.ops.take(ops.len() as int) == ops,
        extends(ops, p.ops),
{
    let all = ops.push(op);
    assert(p.ops[ops.len() as int] == all[ops.len() as int]);
    assert forall|i: int| 0 <= i < ops.len() implies #[trigger] p.ops[i] == ops[i] by {
        assert(p.ops[i] == all[i]);
    }
    assert(p.ops.take(ops.len() as int) =~= ops);
}

/// An operation that does nothing when it runs.
proof fn lemma_idle(p: Program, m: Machine, ops: Seq<Op>, op: Op) -> (b: Machine)
    requires
        stands(p, m, ops),
        extends(ops.push(op), p.ops),
        op is Function || op is ExplicitSlot || op is CreateBlock || op is SwitchTo || op is Seal
            || op is DeclareVar || op is UseVar,
    ensures
        p.leads(m, b),
        stands(p, b, ops.push(op)),
        b == (Machine { at: m.at + 1, ..m }),
{
    lemma_next(p, ops, op);
    lemma_leads_step(p, m);
    p.step(m)
}

/// An operation that yields a value.
proof fn lemma_yield(p: Program, m: Machine, ops: Seq<Op>, op: Op) -> (b: Machine)
    requires
        runnable(p),
        stands(p, m, ops),
        extends(ops.push(op), p.ops),
        state(ops).result_type(op) is Some,
    ensures
        p.leads(m, b),
        stands(p, b, ops.push(op)),
        b.mem == m.mem,
        p.look(b, next_value(ops)) == p.word(m, op),
        stable(p, m, b, next_value(ops)),
        owner(p.ops, next_value(ops)) is None,
{
    lemma_next(p, ops, op);
    lemma_leads_step(p, m);
    let nv = next_value(ops);
    assert(owner(p.ops, nv) is None) by {
        if exists|j: int| finds(p.ops, j, nv) {
            let j = choose|j: int| finds(p.ops, j, nv);
            assert(finds(p.ops, j, nv) && p.ops[ops.len() as int] == op);
        }
    }
    p.step(m)
}

proof fn lemma_read_runs(
    p: Program,
    m: Machine,
    c: Call,
    vars: Seq<Place>,
    ops: Seq<Op>,
    place: Place,
    loc: Loc,
) -> (b: Machine)
    requires
        runnable(p),
        serves(p, m, vars, c),
        stands(p, m, ops),
        extends(read_code(ops, place).0, p.ops),
        holds(p, m, place, loc),
        lasting(p, place, next_value(ops)),
        loc matches Loc::Arg(i) ==> i < c.args.len(),
    ensures
        p.leads(m, b),
        stands(p, b, read_code(ops, place).0),
        b.mem == m.mem,
        stable(p, m, b, next_value(ops)),
        serves(p, b, vars, c),
        p.look(b, read_code(ops, place).1) == c.get(m.mem, loc),
        steady(p, read_code(ops, place).1, next_value(read_code(ops, place).0)),
{
    match place {
        Place::Temporary(_) => {
            lemma_leads_self(p, m);
            m
        },
        Place::Variable(var) => {
            let op = Op::UseVar { var };
            let uv = read_code(ops, place).1;
            let b = lemma_idle(p, m, ops, op);
            lemma_next(p, ops, op);
            let k = ops.len() as int;
            assert(finds(p.ops, k, uv));
            let j = choose|j: int| finds(p.ops, j, uv);
            assert(finds(p.ops, j, uv));
            assert(p.ops[j] == p.ops[k]);
            b
        },
        Place::StackSlot(slot, ofs, ty) => {
            lemma_yield(
                p,
                m,
                ops,
                Op::StackLoad { ty: ir_type(ty)->0, slot, offset: ofs as i32 },
            )
        },
        Place::Pointer(x, ofs, ty) => {
            lemma_yield(p, m, ops, Op::Load { ty: ir_type(ty)->0, p: x, offset: ofs as i32 })
        },
    }
}

/// The machine gets from `a`, after `before`, to `b`, after `code`, and keeps what it had.
pub open spec fn gets(p: Program, a: Machine, b: Machine, before: Seq<Op>, code: Seq<Op>) -> bool {
    &&& p.leads(a, b)
    &&& stands(p, b, code)
    &&& stable(p, a, b, next_value(before))
}

proof fn lemma_gets(
    p: Program,
    a: Machine,
    b: Machine,
    c: Machine,
    x: Seq<Op>,
    y: Seq<Op>,
    z: Seq<Op>,
)
    requires
        gets(p, a, b, x, y),
        gets(p, b, c, y, z),
        next_value(x) <= next_value(y),
    ensures
        gets(p, a, c, x, z),
{
    lemma_leads(p, a, b, c);
    lemma_stable(p, a, b, c, next_value(x), next_value(y));
}

proof fn lemma_more_values(a: Seq<Op>, b: Seq<Op>)
    requires
        goes_on(a, b),
    ensures
        next_value(a) <= next_value(b),
{
    reveal(follows);
}

/// What `lasting` says of fewer values holds of more.
proof fn lemma_lasting(p: Program, place: Place, k: nat, l: nat)
    requires
        lasting(p, place, k),
        k <= l,
    ensures
        lasting(p, place, l),
{
}

/// `loc` is an argument only if there is one of that number.
pub open spec fn proper(c: Call, loc: Loc) -> bool {
    loc matches Loc::Arg(i) ==> i < c.args.len()
}

proof fn lemma_assign_runs(
    p: Program,
    m: Machine,
    c: Call,
    vars: Seq<Place>,
    ops: Seq<Op>,
    to: Place,
    dst: Loc,
    from: Place,
    src: Loc,
) -> (b: Machine)
    requires
        runnable(p),
        serves(p, m, vars, c),
        stands(p, m, ops),
        extends(assign_code(ops, to, from), p.ops),
        holds(p, m, to, dst),
        lasting(p, to, next_value(ops)),
        to.shape().in_memory(),
        holds(p, m, from, src),
        lasting(p, from, next_value(ops)),
        proper(c, src),
    ensures
        gets(p, m, b, ops, assign_code(ops, to, from)),
        b.mem == c.put(m.mem, dst, c.get(m.mem, src)),
{
    let (read, x) = read_code(ops, from);
    let code = assign_code(ops, to, from);
    assert(code == read.push(code.last()) && extends(read, code));
    lemma_extends(read, code, p.ops);
    let a = lemma_read_runs(p, m, c, vars, ops, from, src);
    lemma_still_holds(p, m, a, to, dst, next_value(ops));
    lemma_next(p, read, code.last());
    lemma_leads_step(p, a);
    let b = p.step(a);
    assert(b.at == code.len());
    lemma_leads(p, m, a, b);
    assert(stable(p, a, b, next_value(ops)));
    lemma_stable(p, m, a, b, next_value(ops), next_value(ops));
    b
}

proof fn lemma_cast_runs(
    p: Program,
    m: Machine,
    c: Call,
    vars: Seq<Place>,
    ops: Seq<Op>,
    dst: TypeRef,
    place: Place,
    src: TypeRef,
    loc: Loc,
) -> (b: Machine)
    requires
        runnable(p),
        serves(p, m, vars, c),
        stands(p, m, ops),
        extends(cast_code(ops, dst, place, src).0, p.ops),
        castable(place.shape(), src, dst),
        holds(p, m, place, loc),
        lasting(p, place, next_value(ops)),
        proper(c, loc),
    ensures
        gets(p, m, b, ops, cast_code(ops, dst, place, src).0),
        b.mem == m.mem,
        p.look(b, cast_code(ops, dst, place, src).1) == c.cast(m.mem, loc, src, dst),
        steady(
            p,
            cast_code(ops, dst, place, src).1,
            next_value(cast_code(ops, dst, place, src).0),
        ),
{
    let (code, r) = cast_code(ops, dst, place, src);
    if src.basetype is Array {
        assert(code == ops.push(code.last()));
        lemma_yield(p, m, ops, code.last())
    } else {
        let (read, x) = read_code(ops, place);
        if ir_type(src) == ir_type(dst) {
            lemma_read_runs(p, m, c, vars, ops, place, loc)
        } else {
            assert(code == read.push(code.last()) && extends(read, code));
            lemma_extends(read, code, p.ops);
            let a = lemma_read_runs(p, m, c, vars, ops, place, loc);
            let b = lemma_yield(p, a, read, code.last());
            lemma_gets(p, m, a, b, ops, read, code);
            b
        }
    }
}

/// Steps the value of what is at `loc`, which has been read already.
proof fn lemma_step_runs(
    p: Program,
    m: Machine,
    c: Call,
    vars: Seq<Place>,
    ops: Seq<Op>,
    place: Place,
    loc: Loc,
    x: nat,
    by: i64,
) -> (b: Machine)
    requires
        runnable(p),
        serves(p, m, vars, c),
        stands(p, m, ops),
        extends(step_code(ops, place, x, by).0, p.ops),
        place.shape().in_memory(),
        holds(p, m, place, loc),
        lasting(p, place, next_value(ops)),
    ensures
        gets(p, m, b, ops, step_code(ops, place, x, by).0),
        b.mem == c.put(m.mem, loc, (c.target.add_imm)(p.look(m, x), by)),
        p.look(b, step_code(ops, place, x, by).1) == (c.target.add_imm)(p.look(m, x), by),
        step_code(ops, place, x, by).1 < next_value(step_code(ops, place, x, by).0),
{
    let op = Op::IaddImm { x, imm: by };
    let up = ops.push(op);
    let new = next_value(ops);
    let code = step_code(ops, place, x, by).0;
    assert(extends(up, code));
    lemma_extends(up, code, p.ops);
    let a = lemma_yield(p, m, ops, op);
    lemma_still_holds(p, m, a, place, loc, next_value(ops));
    let v = p.look(a, new);
    let b = lemma_assign_runs(
        p,
        a,
        c,
        vars,
        up,
        place,
        loc,
        Place::Temporary(new),
        Loc::Value(v),
    );
    lemma_gets(p, m, a, b, ops, up, code);
    assert(steady(p, new, next_value(up)));
    assert(p.look(b, new) == p.look(a, new));
    b
}

proof fn lemma_uniop_runs(
    p: Program,
    m: Machine,
    c: Call,
    vars: Seq<Place>,
    ops: Seq<Op>,
    op: UniOp,
    place: Place,
    ty: TypeRef,
    loc: Loc,
) -> (b: Machine)
    requires
        runnable(p),
        serves(p, m, vars, c),
        stands(p, m, ops),
        extends(uniop_code(ops, op, place, ty).0, p.ops),
        uniop_shape(op, place.shape(), &ty) is Some,
        holds(p, m, place, loc),
        lasting(p, place, next_value(ops)),
        proper(c, loc),
    ensures
        gets(p, m, b, ops, uniop_code(ops, op, place, ty).0),
        b.mem == c.unary(m.mem, op, loc, ty).0,
        holds(p, b, uniop_code(ops, op, place, ty).1, c.unary(m.mem, op, loc, ty).1),
        lasting(
            p,
            uniop_code(ops, op, place, ty).1,
            next_value(uniop_code(ops, op, place, ty).0),
        ),
        proper(c, c.unary(m.mem, op, loc, ty).1),
{
    let (code, at) = uniop_code(ops, op, place, ty);
    let (read, x) = read_code(ops, place);
    assert(extends(ops, read));
    assert(extends(read, code));
    lemma_extends(read, code, p.ops);
    let a = lemma_read_runs(p, m, c, vars, ops, place, loc);
    lemma_still_holds(p, m, a, place, loc, next_value(ops));
    lemma_lasting(p, place, next_value(ops), next_value(read));
    match op {
        UniOp::PostInc | UniOp::PreInc => {
            let b = lemma_step_runs(p, a, c, vars, read, place, loc, x, 1i64);
            lemma_gets(p, m, a, b, ops, read, code);
            assert(p.look(b, x) == p.look(a, x));
            b
        },
        UniOp::PostDec | UniOp::PreDec => {
            let b = lemma_step_runs(p, a, c, vars, read, place, loc, x, -1i64);
            lemma_gets(p, m, a, b, ops, read, code);
            assert(p.look(b, x) == p.look(a, x));
            b
        },
        UniOp::BitNot | UniOp::LogicNot => {
            let b = lemma_yield(p, a, read, code.last());
            lemma_gets(p, m, a, b, ops, read, code);
            b
        },
        _ => a,
    }
}

/// A block begins where it is entered.
proof fn lemma_entry(p: Program, x: Seq<Op>, block: nat)
    requires
        runnable(p),
        extends(x.push(Op::SwitchTo { block }), p.ops),
    ensures
        entry(p.ops, block) == x.len(),
{
    lemma_next(p, x, Op::SwitchTo { block });
    let i = entry(p.ops, block);
    assert(p.ops[x.len() as int] == (Op::SwitchTo { block }));
    assert(p.ops[i] == (Op::SwitchTo { block }));
}

/// Into a block from its beginning.
proof fn lemma_enter(p: Program, m: Machine, x: Seq<Op>, block: nat) -> (b: Machine)
    requires
        runnable(p),
        m.at == entry(p.ops, block),
        m.result is None,
        extends(enter_code(x, block), p.ops),
    ensures
        p.leads(m, b),
        stands(p, b, enter_code(x, block)),
        b == (Machine { at: b.at, ..m }),
{
    let switch = x.push(Op::SwitchTo { block });
    lemma_next(p, switch, Op::Seal { block });
    lemma_next(p, x, Op::SwitchTo { block });
    lemma_entry(p, x, block);
    let a = lemma_idle(p, m, x, Op::SwitchTo { block });
    let b = lemma_idle(p, a, switch, Op::Seal { block });
    lemma_leads(p, m, a, b);
    b
}

/// A jump into a block.
proof fn lemma_jump(p: Program, m: Machine, ops: Seq<Op>, x: Seq<Op>, block: nat) -> (b: Machine)
    requires
        runnable(p),
        stands(p, m, ops),
        extends(ops.push(Op::Jump { block }), p.ops),
        extends(enter_code(x, block), p.ops),
    ensures
        p.leads(m, b),
        stands(p, b, enter_code(x, block)),
        b == (Machine { at: b.at, ..m }),
{
    lemma_next(p, ops, Op::Jump { block });
    lemma_leads_step(p, m);
    let a = p.step(m);
    let b = lemma_enter(p, a, x, block);
    lemma_leads(p, m, a, b);
    b
}

/// The three blocks of a branch are created before it.
proof fn lemma_three(p: Program, m: Machine, ops: Seq<Op>) -> (b: Machine)
    requires
        stands(p, m, ops),
        extends(three_blocks(ops), p.ops),
    ensures
        p.leads(m, b),
        stands(p, b, three_blocks(ops)),
        b == (Machine { at: b.at, ..m }),
{
    let one = ops.push(Op::CreateBlock);
    let two = one.push(Op::CreateBlock);
    lemma_next(p, two, Op::CreateBlock);
    lemma_next(p, one, Op::CreateBlock);
    let a = lemma_idle(p, m, ops, Op::CreateBlock);
    let b = lemma_idle(p, a, one, Op::CreateBlock);
    let c = lemma_idle(p, b, two, Op::CreateBlock);
    lemma_leads(p, m, a, b);
    lemma_leads(p, m, b, c);
    c
}

/// A branch on `c`: to where the code goes on in `yes` if it is not zero, else in `no`.
proof fn lemma_branches(
    p: Program,
    m: Machine,
    ops: Seq<Op>,
    c: nat,
    x: Seq<Op>,
    yes: nat,
    y: Seq<Op>,
    no: nat,
) -> (b: Machine)
    requires
        runnable(p),
        stands(p, m, ops),
        extends(branch_code(ops, c, yes, no), p.ops),
        !(p.target.is_zero)(p.look(m, c)) ==> extends(enter_code(x, yes), p.ops),
        (p.target.is_zero)(p.look(m, c)) ==> extends(enter_code(y, no), p.ops),
    ensures
        p.leads(m, b),
        !(p.target.is_zero)(p.look(m, c)) ==> stands(p, b, enter_code(x, yes)),
        (p.target.is_zero)(p.look(m, c)) ==> stands(p, b, enter_code(y, no)),
        b == (Machine { at: b.at, ..m }),
{
    let brz = ops.push(Op::Brz { c, block: no });
    lemma_next(p, brz, Op::Jump { block: yes });
    lemma_next(p, ops, Op::Brz { c, block: no });
    lemma_leads_step(p, m);
    let a = p.step(m);
    if (p.target.is_zero)(p.look(m, c)) {
        let b = lemma_enter(p, a, y, no);
        lemma_leads(p, m, a, b);
        b
    } else {
        let b = lemma_jump(p, a, brz, x, yes);
        lemma_leads(p, m, a, b);
        b
    }
}

/// The code of an expression evaluates it: wherever a machine stands before the code, it gets
/// through it with the memory that evaluating the expression leaves, the value of the expression
/// is where it belongs, and all other values hold what they held.
pub proof fn law_expressions_are_evaluated(
    p: Program,
    m: Machine,
    c: Call,
    vars: Seq<Place>,
    ops: Seq<Op>,
    n: Node,
) -> (b: Machine)
    requires
        runnable(p),
        serves(p, m, vars, c),
        stands(p, m, ops),
        open_for_code(state(ops)),
        node_shape(shapes(vars), &n) is Some,
        extends(node_code(vars, ops, n).0, p.ops),
    ensures
        gets(p, m, b, ops, node_code(vars, ops, n).0),
        b.mem == c.eval(m.mem, n).0,
        holds(p, b, node_code(vars, ops, n).1, c.eval(m.mem, n).1),
        lasting(p, node_code(vars, ops, n).1, next_value(node_code(vars, ops, n).0)),
        proper(c, c.eval(m.mem, n).1),
    decreases n, 1nat,
{
    lemma_leads_self(p, m);
    match n.kind {
        NodeKind::StmtList(nodes) => lemma_nodes_run(p, m, c, vars, ops, nodes@, nodes@.len()),
        NodeKind::Identifier(_, Some(IdentRef::Local(idx))) => {
            assert(shapes(vars).len() == vars.len());
            assert(holds(p, m, vars[idx as int], c.vars[idx as int]));
            m
        },
        NodeKind::Integer(val, _) => {
            lemma_yield(p, m, ops, Op::Iconst { ty: IrType::I32, imm: val as i64 })
        },
        NodeKind::Assign(_, _) => lemma_assignment_runs(p, m, c, vars, ops, n),
        NodeKind::AssignOp(_, _, _) => lemma_assign_op_runs(p, m, c, vars, ops, n),
        NodeKind::Cast(ty, val) => {
            let (x, place) = node_code(vars, ops, *val);
            let code = node_code(vars, ops, n).0;
            let src = type_of(*val)->0;
            law_places_as_foretold(vars, ops, *val);
            law_expression_self_contained(vars, ops, *val);
            lemma_cast(x, ty, place, src);
            lemma_extends(x, code, p.ops);
            let a = law_expressions_are_evaluated(p, m, c, vars, ops, *val);
            let (mem, loc) = c.eval(m.mem, *val);
            let b = lemma_cast_runs(p, a, c, vars, x, ty, place, src, loc);
            lemma_more_values(ops, x);
            lemma_gets(p, m, a, b, ops, x, code);
            b
        },
        NodeKind::ImplicitCast(ty, val) => {
            let (x, place) = node_code(vars, ops, *val);
            let code = node_code(vars, ops, n).0;
            let src = type_of(*val)->0;
            law_places_as_foretold(vars, ops, *val);
            law_expression_self_contained(vars, ops, *val);
            lemma_cast(x, ty, place, src);
            lemma_extends(x, code, p.ops);
            let a = law_expressions_are_evaluated(p, m, c, vars, ops, *val);
            let (mem, loc) = c.eval(m.mem, *val);
            let b = lemma_cast_runs(p, a, c, vars, x, ty, place, src, loc);
            lemma_more_values(ops, x);
            lemma_gets(p, m, a, b, ops, x, code);
            b
        },
        NodeKind::Ternary(_, _, _) => lemma_ternary_runs(p, m, c, vars, ops, n),
        NodeKind::UniOp(op, val) => {
            let (x, place) = node_code(vars, ops, *val);
            let code = node_code(vars, ops, n).0;
            let ty = type_of(*val)->0;
            law_places_as_foretold(vars, ops, *val);
            law_expression_self_contained(vars, ops, *val);
            lemma_uniop(x, op, place, ty);
            lemma_extends(x, code, p.ops);
            let a = law_expressions_are_evaluated(p, m, c, vars, ops, *val);
            let (mem, loc) = c.eval(m.mem, *val);
            let b = lemma_uniop_runs(p, a, c, vars, x, op, place, ty, loc);
            lemma_more_values(ops, x);
            lemma_gets(p, m, a, b, ops, x, code);
            b
        },
        NodeKind::BinOp(_, _, _) => lemma_binary_runs(p, m, c, vars, ops, n),
        NodeKind::Member(val, _) => {
            law_places_as_foretold(vars, ops, *val);
            law_expressions_are_evaluated(p, m, c, vars, ops, *val)
        },
        _ => m,
    }
}

proof fn lemma_nodes_run(
    p: Program,
    m: Machine,
    c: Call,
    vars: Seq<Place>,
    ops: Seq<Op>,
    nodes: Seq<Node>,
    k: nat,
) -> (b: Machine)
    requires
        runnable(p),
        serves(p, m, vars, c),
        stands(p, m, ops),
        open_for_code(state(ops)),
        nodes_shape(shapes(vars), nodes, k) is Some,
        extends(nodes_code(vars, ops, nodes, k).0, p.ops),
    ensures
        gets(p, m, b, ops, nodes_code(vars, ops, nodes, k).0),
        b.mem == c.eval_all(m.mem, nodes, k).0,
        holds(p, b, nodes_code(vars, ops, nodes, k).1, c.eval_all(m.mem, nodes, k).1),
        lasting(
            p,
            nodes_code(vars, ops, nodes, k).1,
            next_value(nodes_code(vars, ops, nodes, k).0),
        ),
        proper(c, c.eval_all(m.mem, nodes, k).1),
    decreases nodes, k,
{
    let x = nodes_code(vars, ops, nodes, (k - 1) as nat).0;
    if k == 1 {
        assert(x == ops);
        law_expressions_are_evaluated(p, m, c, vars, ops, nodes[0])
    } else {
        let code = nodes_code(vars, ops, nodes, k).0;
        lemma_nodes(vars, ops, nodes, (k - 1) as nat);
        law_expression_self_contained(vars, x, nodes[k - 1]);
        lemma_extends(x, code, p.ops);
        let a = lemma_nodes_run(p, m, c, vars, ops, nodes, (k - 1) as nat);
        let b = law_expressions_are_evaluated(p, a, c, vars, x, nodes[k - 1]);
        lemma_more_values(ops, x);
        lemma_gets(p, m, a, b, ops, x, code);
        b
    }
}

proof fn lemma_assignment_runs(
    p: Program,
    m: Machine,
    c: Call,
    vars: Seq<Place>,
    ops: Seq<Op>,
    n: Node,
) -> (b: Machine)
    requires
        n.kind is Assign,
        runnable(p),
        serves(p, m, vars, c),
        stands(p, m, ops),
        open_for_code(state(ops)),
        node_shape(shapes(vars), &n) is Some,
        extends(node_code(vars, ops, n).0, p.ops),
    ensures
        gets(p, m, b, ops, node_code(vars, ops, n).0),
        b.mem == c.eval(m.mem, n).0,
        holds(p, b, node_code(vars, ops, n).1, c.eval(m.mem, n).1),
        lasting(p, node_code(vars, ops, n).1, next_value(node_code(vars, ops, n).0)),
        proper(c, c.eval(m.mem, n).1),
    decreases n, 0nat,
{
    let (slot, val) = (n.kind->Assign_0, n.kind->Assign_1);
    let (x, to) = node_code(vars, ops, *slot);
    let (y, from) = node_code(vars, x, *val);
    let code = assign_code(y, to, from);
    law_places_as_foretold(vars, ops, *slot);
    law_expression_self_contained(vars, ops, *slot);
    law_places_as_foretold(vars, x, *val);
    law_expression_self_contained(vars, x, *val);
    lemma_assign(y, to, from);
    lemma_extends(y, code, p.ops);
    lemma_extends(x, y, p.ops);
    lemma_more_values(ops, x);
    lemma_more_values(x, y);
    lemma_more_values(y, code);
    let a = law_expressions_are_evaluated(p, m, c, vars, ops, *slot);
    let (mem, dst) = c.eval(m.mem, *slot);
    let b = law_expressions_are_evaluated(p, a, c, vars, x, *val);
    let (mem, src) = c.eval(mem, *val);
    lemma_gets(p, m, a, b, ops, x, y);
    lemma_still_holds(p, a, b, to, dst, next_value(x));
    lemma_lasting(p, to, next_value(x), next_value(y));
    let e = lemma_assign_runs(p, b, c, vars, y, to, dst, from, src);
    lemma_gets(p, m, b, e, ops, y, code);
    lemma_still_holds(p, b, e, to, dst, next_value(y));
    lemma_lasting(p, to, next_value(y), next_value(code));
    e
}

/// Both operands of a binary operation are read, and the operation is performed.
proof fn lemma_operation_runs(
    p: Program,
    m: Machine,
    c: Call,
    vars: Seq<Place>,
    ops: Seq<Op>,
    left: Place,
    x: Loc,
    right: Place,
    y: Loc,
    op: BinOp,
    ty: TypeRef,
) -> (b: Machine)
    requires
        runnable(p),
        serves(p, m, vars, c),
        stands(p, m, ops),
        open_for_code(state(ops)),
        extends(operation_code(ops, left, right, op, ty).0, p.ops),
        holds(p, m, left, x),
        lasting(p, left, next_value(ops)),
        proper(c, x),
        holds(p, m, right, y),
        lasting(p, right, next_value(ops)),
        proper(c, y),
    ensures
        gets(p, m, b, ops, operation_code(ops, left, right, op, ty).0),
        b.mem == m.mem,
        p.look(b, operation_code(ops, left, right, op, ty).1) == (c.target.binary)(
            binop_inst(op, ty)->0,
            c.get(m.mem, x),
            c.get(m.mem, y),
        ),
        operation_code(ops, left, right, op, ty).1 < next_value(
            operation_code(ops, left, right, op, ty).0,
        ),
{
    let (one, v) = read_code(ops, left);
    let (two, w) = read_code(one, right);
    let code = operation_code(ops, left, right, op, ty).0;
    lemma_read(ops, left);
    lemma_read(one, right);
    lemma_emit(two, code.last());
    lemma_extends(two, code, p.ops);
    lemma_extends(one, two, p.ops);
    lemma_more_values(ops, one);
    lemma_more_values(one, two);
    let a = lemma_read_runs(p, m, c, vars, ops, left, x);
    lemma_still_holds(p, m, a, right, y, next_value(ops));
    lemma_lasting(p, right, next_value(ops), next_value(one));
    let b = lemma_read_runs(p, a, c, vars, one, right, y);
    assert(p.look(b, v) == p.look(a, v));
    lemma_gets(p, m, a, b, ops, one, two);
    let e = lemma_yield(p, b, two, code.last());
    lemma_gets(p, m, b, e, ops, two, code);
    e
}

spec fn operation_code(ops: Seq<Op>, left: Place, right: Place, op: BinOp, ty: TypeRef) -> (
    Seq<Op>,
    nat,
) {
    let (ops, x) = read_code(ops, left);
    let (ops, y) = read_code(ops, right);
    binop_code(ops, op, ty, x, y)
}

proof fn lemma_assign_op_runs(
    p: Program,
    m: Machine,
    c: Call,
    vars: Seq<Place>,
    ops: Seq<Op>,
    n: Node,
) -> (b: Machine)
    requires
        n.kind is AssignOp,
        runnable(p),
        serves(p, m, vars, c),
        stands(p, m, ops),
        open_for_code(state(ops)),
        node_shape(shapes(vars), &n) is Some,
        extends(node_code(vars, ops, n).0, p.ops),
    ensures
        gets(p, m, b, ops, node_code(vars, ops, n).0),
        b.mem == c.eval(m.mem, n).0,
        holds(p, b, node_code(vars, ops, n).1, c.eval(m.mem, n).1),
        lasting(p, node_code(vars, ops, n).1, next_value(node_code(vars, ops, n).0)),
        proper(c, c.eval(m.mem, n).1),
    decreases n, 0nat,
{
    let (op, slot, val) = (n.kind->AssignOp_0, n.kind->AssignOp_1, n.kind->AssignOp_2);
    let ty = type_of(*val)->0;
    let (x, to) = node_code(vars, ops, *slot);
    let (y, from) = node_code(vars, x, *val);
    let (z, r) = operation_code(y, to, from, op, ty);
    let new = Place::Temporary(r);
    let code = assign_code(z, to, new);
    law_places_as_foretold(vars, ops, *slot);
    law_expression_self_contained(vars, ops, *slot);
    law_places_as_foretold(vars, x, *val);
    law_expression_self_contained(vars, x, *val);
    lemma_operation(y, to, from, op, ty);
    lemma_assign(z, to, new);
    assert(code == node_code(vars, ops, n).0);
    lemma_extends(z, code, p.ops);
    lemma_extends(y, z, p.ops);
    lemma_extends(x, y, p.ops);
    lemma_more_values(ops, x);
    lemma_more_values(x, y);
    lemma_more_values(y, z);
    lemma_more_values(z, code);
    let a = law_expressions_are_evaluated(p, m, c, vars, ops, *slot);
    let (mem, dst) = c.eval(m.mem, *slot);
    let b = law_expressions_are_evaluated(p, a, c, vars, x, *val);
    let (mem, src) = c.eval(mem, *val);
    lemma_gets(p, m, a, b, ops, x, y);
    lemma_still_holds(p, a, b, to, dst, next_value(x));
    lemma_lasting(p, to, next_value(x), next_value(y));
    let d = lemma_operation_runs(p, b, c, vars, y, to, dst, from, src, op, ty);
    lemma_gets(p, m, b, d, ops, y, z);
    lemma_still_holds(p, b, d, to, dst, next_value(y));
    lemma_lasting(p, to, next_value(y), next_value(z));
    let e = lemma_assign_runs(p, d, c, vars, z, to, dst, new, Loc::Value(p.look(d, r)));
    lemma_gets(p, m, d, e, ops, z, code);
    lemma_still_holds(p, d, e, to, dst, next_value(z));
    lemma_lasting(p, to, next_value(z), next_value(code));
    e
}

proof fn lemma_operation(ops: Seq<Op>, left: Place, right: Place, op: BinOp, ty: TypeRef)
    requires
        open_for_code(state(ops)),
    ensures
        goes_on(ops, operation_code(ops, left, right, op, ty).0),
{
    let one = read_code(ops, left).0;
    let two = read_code(one, right).0;
    let code = operation_code(ops, left, right, op, ty).0;
    lemma_read(ops, left);
    lemma_read(one, right);
    lemma_emit(two, code.last());
    lemma_goes_on(ops, one, two);
    lemma_goes_on(ops, two, code);
}

proof fn lemma_binary_runs(
    p: Program,
    m: Machine,
    c: Call,
    vars: Seq<Place>,
    ops: Seq<Op>,
    n: Node,
) -> (b: Machine)
    requires
        n.kind is BinOp,
        runnable(p),
        serves(p, m, vars, c),
        stands(p, m, ops),
        open_for_code(state(ops)),
        node_shape(shapes(vars), &n) is Some,
        extends(node_code(vars, ops, n).0, p.ops),
    ensures
        gets(p, m, b, ops, node_code(vars, ops, n).0),
        b.mem == c.eval(m.mem, n).0,
        holds(p, b, node_code(vars, ops, n).1, c.eval(m.mem, n).1),
        lasting(p, node_code(vars, ops, n).1, next_value(node_code(vars, ops, n).0)),
        proper(c, c.eval(m.mem, n).1),
    decreases n, 0nat,
{
    let (op, left, right) = (n.kind->BinOp_0, n.kind->BinOp_1, n.kind->BinOp_2);
    let ty = type_of(*left)->0;
    let (x, one) = node_code(vars, ops, *left);
    let (y, two) = node_code(vars, x, *right);
    let (code, r) = operation_code(y, one, two, op, ty);
    assert(code == node_code(vars, ops, n).0);
    law_places_as_foretold(vars, ops, *left);
    law_expression_self_contained(vars, ops, *left);
    law_places_as_foretold(vars, x, *right);
    law_expression_self_contained(vars, x, *right);
    lemma_operation(y, one, two, op, ty);
    lemma_extends(y, code, p.ops);
    lemma_extends(x, y, p.ops);
    lemma_more_values(ops, x);
    lemma_more_values(x, y);
    let a = law_expressions_are_evaluated(p, m, c, vars, ops, *left);
    let (mem, v) = c.eval(m.mem, *left);
    let b = law_expressions_are_evaluated(p, a, c, vars, x, *right);
    let (mem, w) = c.eval(mem, *right);
    lemma_gets(p, m, a, b, ops, x, y);
    lemma_still_holds(p, a, b, one, v, next_value(x));
    lemma_lasting(p, one, next_value(x), next_value(y));
    let e = lemma_operation_runs(p, b, c, vars, y, one, v, two, w, op, ty);
    lemma_gets(p, m, b, e, ops, y, code);
    e
}

/// An expression whose value is read.
proof fn lemma_read_node_runs(
    p: Program,
    m: Machine,
    c: Call,
    vars: Seq<Place>,
    ops: Seq<Op>,
    n: Node,
) -> (b: Machine)
    requires
        runnable(p),
        serves(p, m, vars, c),
        stands(p, m, ops),
        open_for_code(state(ops)),
        node_shape(shapes(vars), &n) is Some,
        extends(read_node_code(vars, ops, n).0, p.ops),
    ensures
        gets(p, m, b, ops, read_node_code(vars, ops, n).0),
        b.mem == c.eval(m.mem, n).0,
        p.look(b, read_node_code(vars, ops, n).1) == c.get(b.mem, c.eval(m.mem, n).1),
        steady(p, read_node_code(vars, ops, n).1, next_value(read_node_code(vars, ops, n).0)),
    decreases n, 2nat,
{
    let (x, place) = node_code(vars, ops, n);
    let code = read_code(x, place).0;
    law_expression_self_contained(vars, ops, n);
    lemma_read(x, place);
    lemma_extends(x, code, p.ops);
    lemma_more_values(ops, x);
    let a = law_expressions_are_evaluated(p, m, c, vars, ops, n);
    let b = lemma_read_runs(p, a, c, vars, x, place, c.eval(m.mem, n).1);
    lemma_gets(p, m, a, b, ops, x, code);
    b
}

spec fn read_node_code(vars: Seq<Place>, ops: Seq<Op>, n: Node) -> (Seq<Op>, nat) {
    let (ops, place) = node_code(vars, ops, n);
    read_code(ops, place)
}

proof fn lemma_read_node(vars: Seq<Place>, ops: Seq<Op>, n: Node)
    requires
        open_for_code(state(ops)),
    ensures
        goes_on(ops, read_node_code(vars, ops, n).0),
{
    let (x, place) = node_code(vars, ops, n);
    law_expression_self_contained(vars, ops, n);
    lemma_read(x, place);
    lemma_goes_on(ops, x, read_code(x, place).0);
}

#[verifier::rlimit(30)]
proof fn lemma_ternary_runs(
    p: Program,
    m: Machine,
    c: Call,
    vars: Seq<Place>,
    ops: Seq<Op>,
    n: Node,
) -> (b: Machine)
    requires
        n.kind is Ternary,
        runnable(p),
        serves(p, m, vars, c),
        stands(p, m, ops),
        open_for_code(state(ops)),
        node_shape(shapes(vars), &n) is Some,
        extends(node_code(vars, ops, n).0, p.ops),
    ensures
        gets(p, m, b, ops, node_code(vars, ops, n).0),
        b.mem == c.eval(m.mem, n).0,
        holds(p, b, node_code(vars, ops, n).1, c.eval(m.mem, n).1),
        lasting(p, node_code(vars, ops, n).1, next_value(node_code(vars, ops, n).0)),
        proper(c, c.eval(m.mem, n).1),
    decreases n, 0nat,
{
    let (cond, yes, no) = (n.kind->Ternary_0, n.kind->Ternary_1, n.kind->Ternary_2);
    let (before, v) = read_node_code(vars, ops, *cond);
    lemma_read_node(vars, ops, *cond);
    let k = state(before).blocks;
    let first = first_arm(before, v);
    lemma_first_arm(before, v);
    let (one, x) = read_node_code(vars, first, *yes);
    lemma_read_node(vars, first, *yes);
    let second = end_arm(one, k, k + 1);
    lemma_second_arm(before, v, one);
    let (two, y) = read_node_code(vars, second, *no);
    lemma_read_node(vars, second, *no);
    let done = end_arm(two, k, k + 2);
    lemma_branch(before, v, one, two);
    let op = Op::Select { c: v, x, y };
    let code = done.push(op);
    assert(code == node_code(vars, ops, n).0);
    lemma_emit(done, op);
    let out = one.push(Op::Jump { block: k + 2 });
    let over = two.push(Op::Jump { block: k + 2 });
    assert(extends(first, one) && extends(one, out) && extends(out, second));
    assert(extends(second, two) && extends(two, over) && extends(over, done));
    lemma_extends(done, code, p.ops);
    lemma_extends(over, done, p.ops);
    lemma_extends(two, over, p.ops);
    lemma_extends(second, two, p.ops);
    lemma_extends(out, second, p.ops);
    lemma_extends(one, out, p.ops);
    lemma_extends(first, one, p.ops);
    let made = three_blocks(before);
    let branched = branch_code(made, v, k, k + 1);
    assert(extends(before, made) && extends(made, branched) && extends(branched, first));
    lemma_extends(branched, first, p.ops);
    lemma_extends(made, branched, p.ops);
    lemma_extends(before, made, p.ops);
    lemma_more_values(ops, before);
    lemma_more_values(before, done);
    lemma_more_values(first, one);
    lemma_more_values(second, two);
    assert(next_value(before) <= next_value(first) && next_value(one) <= next_value(second)
        && next_value(two) <= next_value(done));

    let a = lemma_read_node_runs(p, m, c, vars, ops, *cond);
    let a1 = lemma_three(p, a, before);
    let a2 = lemma_branches(p, a1, made, v, branched, k, out, k + 1);
    assert(p.look(a1, v) == p.look(a, v));
    lemma_leads(p, a, a1, a2);
    let (a3, at) = if (p.target.is_zero)(p.look(a, v)) {
        (lemma_read_node_runs(p, a2, c, vars, second, *no), two)
    } else {
        (lemma_read_node_runs(p, a2, c, vars, first, *yes), one)
    };
    lemma_leads(p, a, a2, a3);
    assert(stable(p, a, a2, next_value(before)));
    lemma_stable(p, a, a2, a3, next_value(before), next_value(first));
    let a4 = lemma_jump(p, a3, at, over, k + 2);
    lemma_leads(p, a, a3, a4);
    assert(stable(p, a, a4, next_value(before))) by {
        assert(stable(p, a3, a4, next_value(before)));
        lemma_stable(p, a, a3, a4, next_value(before), next_value(before));
    }
    assert(gets(p, a, a4, before, done));
    lemma_gets(p, m, a, a4, ops, before, done);
    assert(p.look(a4, v) == p.look(a, v));
    let b = lemma_yield(p, a4, done, op);
    lemma_gets(p, m, a4, b, ops, done, code);
    b
}

/// The machine gets from `a`, after `before`, to `b`, where a statement ends that is in `scopes`
/// and comes to `code`.
pub open spec fn ends(
    p: Program,
    a: Machine,
    b: Machine,
    scopes: Seq<Targets>,
    before: Seq<Op>,
    code: Seq<Op>,
    outcome: Outcome,
) -> bool {
    &&& p.leads(a, b)
    &&& stable(p, a, b, next_value(before))
    &&& match outcome {
        Outcome::Normal => stands(p, b, code),
        Outcome::Break => b.result is None && b.at == entry(p.ops, break_target(scopes)->0),
        Outcome::Continue => b.result is None && b.at == entry(p.ops, continue_target(scopes)->0),
        Outcome::Return(v) => b.result == Some(v),
    }
}

proof fn lemma_ends(
    p: Program,
    a: Machine,
    b: Machine,
    c: Machine,
    scopes: Seq<Targets>,
    x: Seq<Op>,
    y: Seq<Op>,
    z: Seq<Op>,
    outcome: Outcome,
)
    requires
        p.leads(a, b),
        stable(p, a, b, next_value(x)),
        ends(p, b, c, scopes, y, z, outcome),
        next_value(x) <= next_value(y),
    ensures
        ends(p, a, c, scopes, x, z, outcome),
{
    lemma_leads(p, a, b, c);
    lemma_stable(p, a, b, c, next_value(x), next_value(y));
}

proof fn lemma_cond_runs(
    p: Program,
    m: Machine,
    c: Call,
    vars: Seq<Place>,
    ops: Seq<Op>,
    cond: ExprOrDef,
) -> (b: Machine)
    requires
        runnable(p),
        serves(p, m, vars, c),
        stands(p, m, ops),
        open_for_code(state(ops)),
        cond_ok(shapes(vars), cond),
        extends(cond_code(vars, ops, cond).0, p.ops),
    ensures
        gets(p, m, b, ops, cond_code(vars, ops, cond).0),
        b.mem == c.test(m.mem, cond).0,
        p.look(b, cond_code(vars, ops, cond).1) == c.test(m.mem, cond).1,
        steady(p, cond_code(vars, ops, cond).1, next_value(cond_code(vars, ops, cond).0)),
{
    let n = cond->Expr_0;
    assert(cond_code(vars, ops, cond) == read_node_code(vars, ops, n));
    lemma_read_node_runs(p, m, c, vars, ops, n)
}

/// The code of some definitions gives each of the variables its value, in order.
pub proof fn law_definitions_are_performed(
    p: Program,
    m: Machine,
    c: Call,
    vars: Seq<Place>,
    ops: Seq<Op>,
    defs: Seq<VariableDefinition>,
    k: nat,
) -> (b: Machine)
    requires
        runnable(p),
        serves(p, m, vars, c),
        stands(p, m, ops),
        open_for_code(state(ops)),
        k <= defs.len(),
        forall|i: int| 0 <= i < defs.len() ==> def_ok(shapes(vars), #[trigger] defs[i]),
        extends(defs_code(vars, ops, defs, k), p.ops),
    ensures
        gets(p, m, b, ops, defs_code(vars, ops, defs, k)),
        b.mem == c.define(m.mem, defs, k),
    decreases k,
{
    if k == 0 {
        lemma_leads_self(p, m);
        m
    } else {
        let x = defs_code(vars, ops, defs, (k - 1) as nat);
        let code = defs_code(vars, ops, defs, k);
        let def = defs[k - 1];
        lemma_defs(vars, ops, defs, (k - 1) as nat);
        lemma_def(vars, x, def);
        lemma_extends(x, code, p.ops);
        lemma_more_values(ops, x);
        let a = law_definitions_are_performed(p, m, c, vars, ops, defs, (k - 1) as nat);
        match def.value {
            Initialiser::Value(n) => {
                let (y, from) = node_code(vars, x, n);
                let idx = def.index->0 as int;
                let to = vars[idx];
                law_places_as_foretold(vars, x, n);
                law_expression_self_contained(vars, x, n);
                lemma_assign(y, to, from);
                lemma_extends(y, code, p.ops);
                lemma_more_values(x, y);
                let b = law_expressions_are_evaluated(p, a, c, vars, x, n);
                lemma_gets(p, m, a, b, ops, x, y);
                assert(shapes(vars)[idx] == to.shape());
                assert(holds(p, b, to, c.vars[idx]));
                let e = lemma_assign_runs(
                    p,
                    b,
                    c,
                    vars,
                    y,
                    to,
                    c.vars[idx],
                    from,
                    c.eval(a.mem, n).1,
                );
                lemma_gets(p, m, b, e, ops, y, code);
                e
            },
            _ => a,
        }
    }
}

/// The code of a statement does what the statement means: wherever a machine stands before the
/// code, and if the statement ends, the machine gets to where the statement ends, with the memory
/// that the statement leaves; all other values hold what they held.
pub proof fn law_statements_are_executed(
    p: Program,
    m: Machine,
    c: Call,
    vars: Seq<Place>,
    scopes: Seq<Targets>,
    ops: Seq<Op>,
    stmt: Statement,
    fuel: nat,
) -> (b: Machine)
    requires
        runnable(p),
        serves(p, m, vars, c),
        stands(p, m, ops),
        open_for_code(state(ops)),
        stmt_ok(
            shapes(vars),
            break_target(scopes) is Some,
            continue_target(scopes) is Some,
            stmt,
        ),
        extends(stmt_code(vars, scopes, ops, stmt), p.ops),
        c.exec(fuel, m.mem, stmt) is Some,
    ensures
        ends(
            p,
            m,
            b,
            scopes,
            ops,
            stmt_code(vars, scopes, ops, stmt),
            (c.exec(fuel, m.mem, stmt)->0).1,
        ),
        b.mem == (c.exec(fuel, m.mem, stmt)->0).0,
    decreases fuel, stmt, 2nat,
{
    lemma_leads_self(p, m);
    let code = stmt_code(vars, scopes, ops, stmt);
    match stmt {
        Statement::VarDef(defs) => {
            law_definitions_are_performed(p, m, c, vars, ops, defs@, defs@.len())
        },
        Statement::Expr(n) => law_expressions_are_evaluated(p, m, c, vars, ops, n),
        Statement::Block(stmts) => {
            law_blocks_hide_no_loop(scopes);
            lemma_statements_run(
                p,
                m,
                c,
                vars,
                scopes.push(Targets::unset()),
                ops,
                stmts@,
                stmts@.len(),
                fuel,
            )
        },
        Statement::IfStatement { .. } => lemma_if_runs(p, m, c, vars, scopes, ops, stmt, fuel),
        Statement::WhileLoop { cond, body } => {
            let top = state(ops).blocks;
            let made = three_blocks(ops);
            let jump = made.push(Op::Jump { block: top });
            let head = loop_head(ops);
            lemma_loop_parts(vars, scopes, ops, stmt);
            assert(extends(made, jump) && extends(jump, head));
            lemma_extends(head, code, p.ops);
            lemma_extends(jump, head, p.ops);
            lemma_extends(made, jump, p.ops);
            let a = lemma_three(p, m, ops);
            lemma_next(p, made, Op::Jump { block: top });
            lemma_leads_step(p, a);
            let b = p.step(a);
            lemma_leads(p, m, a, b);
            assert(stable(p, m, b, next_value(ops)));
            let e = lemma_loop_runs(p, b, c, vars, scopes, ops, stmt, fuel);
            lemma_ends(p, m, b, e, scopes, ops, ops, code, (c.exec(fuel, m.mem, stmt)->0).1);
            e
        },
        Statement::Continue => {
            let jump = ops.push(Op::Jump { block: continue_target(scopes)->0 });
            assert(extends(jump, code));
            lemma_extends(jump, code, p.ops);
            lemma_next(p, ops, jump.last());
            lemma_leads_step(p, m);
            p.step(m)
        },
        Statement::Break => {
            let jump = ops.push(Op::Jump { block: break_target(scopes)->0 });
            assert(extends(jump, code));
            lemma_extends(jump, code, p.ops);
            lemma_next(p, ops, jump.last());
            lemma_leads_step(p, m);
            p.step(m)
        },
        Statement::Return(Some(n)) => {
            let (x, v) = read_node_code(vars, ops, n);
            let out = x.push(Op::Return { values: seq![v] });
            assert(extends(x, out) && extends(out, code));
            lemma_extends(out, code, p.ops);
            lemma_extends(x, out, p.ops);
            let a = lemma_read_node_runs(p, m, c, vars, ops, n);
            lemma_next(p, x, out.last());
            lemma_leads_step(p, a);
            let b = p.step(a);
            lemma_leads(p, m, a, b);
            lemma_stable(p, m, a, b, next_value(ops), next_value(ops));
            assert(seq![v].map_values(|n: nat| p.look(a, n)) =~= seq![p.look(a, v)]);
            b
        },
        Statement::Return(None) => {
            let out = ops.push(Op::Return { values: Seq::empty() });
            assert(extends(out, code));
            lemma_extends(out, code, p.ops);
            lemma_next(p, ops, out.last());
            lemma_leads_step(p, m);
            assert(Seq::<nat>::empty().map_values(|n: nat| p.look(m, n)) =~= Seq::<int>::empty());
            p.step(m)
        },
        _ => m,
    }
}

proof fn lemma_statements_run(
    p: Program,
    m: Machine,
    c: Call,
    vars: Seq<Place>,
    scopes: Seq<Targets>,
    ops: Seq<Op>,
    stmts: Seq<Statement>,
    k: nat,
    fuel: nat,
) -> (b: Machine)
    requires
        runnable(p),
        serves(p, m, vars, c),
        stands(p, m, ops),
        open_for_code(state(ops)),
        stmts_ok(
            shapes(vars),
            break_target(scopes) is Some,
            continue_target(scopes) is Some,
            stmts,
            k,
        ),
        extends(stmts_code(vars, scopes, ops, stmts, k), p.ops),
        c.exec_all(fuel, m.mem, stmts, k) is Some,
    ensures
        ends(
            p,
            m,
            b,
            scopes,
            ops,
            stmts_code(vars, scopes, ops, stmts, k),
            (c.exec_all(fuel, m.mem, stmts, k)->0).1,
        ),
        b.mem == (c.exec_all(fuel, m.mem, stmts, k)->0).0,
    decreases fuel, stmts, k,
{
    if k == 0 {
        lemma_leads_self(p, m);
        m
    } else {
        let x = stmts_code(vars, scopes, ops, stmts, (k - 1) as nat);
        let code = stmts_code(vars, scopes, ops, stmts, k);
        law_statements_self_contained(vars, scopes, ops, stmts, (k - 1) as nat);
        law_statement_self_contained(vars, scopes, x, stmts[k - 1]);
        lemma_extends(x, code, p.ops);
        lemma_more_values(ops, x);
        let a = lemma_statements_run(
            p,
            m,
            c,
            vars,
            scopes,
            ops,
            stmts,
            (k - 1) as nat,
            fuel,
        );
        let (mem, outcome) = c.exec_all(fuel, m.mem, stmts, (k - 1) as nat)->0;
        if outcome is Normal {
            let b = law_statements_are_executed(
                p,
                a,
                c,
                vars,
                scopes,
                x,
                stmts[k - 1],
                fuel,
            );
            lemma_ends(
                p,
                m,
                a,
                b,
                scopes,
                ops,
                x,
                code,
                (c.exec(fuel, mem, stmts[k - 1])->0).1,
            );
            b
        } else {
            a
        }
    }
}

/// Some statements in a block, which are in a scope of their own.
proof fn lemma_block_runs(
    p: Program,
    m: Machine,
    c: Call,
    vars: Seq<Place>,
    scopes: Seq<Targets>,
    ops: Seq<Op>,
    stmts: Seq<Statement>,
    fuel: nat,
) -> (b: Machine)
    requires
        runnable(p),
        serves(p, m, vars, c),
        stands(p, m, ops),
        open_for_code(state(ops)),
        stmts_ok(
            shapes(vars),
            break_target(scopes) is Some,
            continue_target(scopes) is Some,
            stmts,
            stmts.len(),
        ),
        extends(stmts_code(vars, scopes.push(Targets::unset()), ops, stmts, stmts.len()), p.ops),
        c.exec_all(fuel, m.mem, stmts, stmts.len()) is Some,
    ensures
        ends(
            p,
            m,
            b,
            scopes,
            ops,
            stmts_code(vars, scopes.push(Targets::unset()), ops, stmts, stmts.len()),
            (c.exec_all(fuel, m.mem, stmts, stmts.len())->0).1,
        ),
        b.mem == (c.exec_all(fuel, m.mem, stmts, stmts.len())->0).0,
    decreases fuel, stmts, stmts.len() + 1,
{
    law_blocks_hide_no_loop(scopes);
    let inner = scopes.push(Targets::unset());
    lemma_statements_run(p, m, c, vars, inner, ops, stmts, stmts.len(), fuel)
}

proof fn lemma_if_runs(
    p: Program,
    m: Machine,
    c: Call,
    vars: Seq<Place>,
    scopes: Seq<Targets>,
    ops: Seq<Op>,
    stmt: Statement,
    fuel: nat,
) -> (b: Machine)
    requires
        stmt is IfStatement,
        runnable(p),
        serves(p, m, vars, c),
        stands(p, m, ops),
        open_for_code(state(ops)),
        stmt_ok(
            shapes(vars),
            break_target(scopes) is Some,
            continue_target(scopes) is Some,
            stmt,
        ),
        extends(stmt_code(vars, scopes, ops, stmt), p.ops),
        c.exec(fuel, m.mem, stmt) is Some,
    ensures
        ends(
            p,
            m,
            b,
            scopes,
            ops,
            stmt_code(vars, scopes, ops, stmt),
            (c.exec(fuel, m.mem, stmt)->0).1,
        ),
        b.mem == (c.exec(fuel, m.mem, stmt)->0).0,
    decreases fuel, stmt, 1nat,
{
    let cond = stmt->IfStatement_cond;
    let true_arm = stmt->true_arm;
    let else_arm = stmt->else_arm;
    let outcome = (c.exec(fuel, m.mem, stmt)->0).1;
    let inner = scopes.push(Targets::unset());
    let (before, v) = cond_code(vars, ops, cond);
    lemma_cond(vars, ops, cond);
    let k = state(before).blocks;
    let first = first_arm(before, v);
    lemma_first_arm(before, v);
    let one = stmts_code(vars, inner, first, true_arm@, true_arm@.len());
    law_statements_self_contained(vars, inner, first, true_arm@, true_arm@.len());
    let second = end_arm(one, k, k + 1);
    lemma_second_arm(before, v, one);
    lemma_goes_nowhere(second);
    let two = match else_arm {
        Some(stmts) => stmts_code(vars, inner, second, stmts@, stmts@.len()),
        None => second,
    };
    if let Some(stmts) = else_arm {
        law_statements_self_contained(vars, inner, second, stmts@, stmts@.len());
    }
    let done = end_arm(two, k, k + 2);
    assert(done == stmt_code(vars, scopes, ops, stmt));
    let out = one.push(Op::Jump { block: k + 2 });
    let over = two.push(Op::Jump { block: k + 2 });
    assert(extends(first, one) && extends(one, out) && extends(out, second));
    assert(extends(second, two) && extends(two, over) && extends(over, done));
    lemma_extends(over, done, p.ops);
    lemma_extends(two, over, p.ops);
    lemma_extends(second, two, p.ops);
    lemma_extends(out, second, p.ops);
    lemma_extends(one, out, p.ops);
    lemma_extends(first, one, p.ops);
    let made = three_blocks(before);
    let branched = branch_code(made, v, k, k + 1);
    assert(extends(before, made) && extends(made, branched) && extends(branched, first));
    lemma_extends(branched, first, p.ops);
    lemma_extends(made, branched, p.ops);
    lemma_extends(before, made, p.ops);
    lemma_more_values(ops, before);
    lemma_more_values(first, one);
    assert(next_value(before) <= next_value(first) && next_value(one) <= next_value(second));

    let a = lemma_cond_runs(p, m, c, vars, ops, cond);
    let a1 = lemma_three(p, a, before);
    let a2 = lemma_branches(p, a1, made, v, branched, k, out, k + 1);
    assert(p.look(a1, v) == p.look(a, v));
    lemma_leads(p, a, a1, a2);
    lemma_leads(p, m, a, a2);
    assert(stable(p, a, a2, next_value(ops)));
    lemma_stable(p, m, a, a2, next_value(ops), next_value(ops));
    if (p.target.is_zero)(p.look(a, v)) {
        match else_arm {
            Some(stmts) => {
                let b = lemma_block_runs(p, a2, c, vars, scopes, second, stmts@, fuel);
                lemma_ends(p, m, a2, b, scopes, ops, second, two, outcome);
                lemma_arm_ends(p, m, b, scopes, ops, two, over, k + 2, outcome)
            },
            None => {
                lemma_leads_self(p, a2);
                lemma_ends(p, m, a2, a2, scopes, ops, second, two, outcome);
                lemma_arm_ends(p, m, a2, scopes, ops, two, over, k + 2, outcome)
            },
        }
    } else {
        let b = lemma_block_runs(p, a2, c, vars, scopes, first, true_arm@, fuel);
        lemma_ends(p, m, a2, b, scopes, ops, first, one, outcome);
        lemma_arm_ends(p, m, b, scopes, ops, one, over, k + 2, outcome)
    }
}

/// Where an arm of a branch ends normally, the machine jumps to what comes after the branch.
proof fn lemma_arm_ends(
    p: Program,
    m: Machine,
    b: Machine,
    scopes: Seq<Targets>,
    ops: Seq<Op>,
    arm: Seq<Op>,
    x: Seq<Op>,
    block: nat,
    outcome: Outcome,
) -> (e: Machine)
    requires
        runnable(p),
        ends(p, m, b, scopes, ops, arm, outcome),
        extends(arm.push(Op::Jump { block }), p.ops),
        extends(enter_code(x, block), p.ops),
    ensures
        ends(p, m, e, scopes, ops, enter_code(x, block), outcome),
        e.mem == b.mem,
{
    if outcome is Normal {
        let e = lemma_jump(p, b, arm, x, block);
        lemma_leads(p, m, b, e);
        assert(stable(p, b, e, next_value(ops)));
        lemma_stable(p, m, b, e, next_value(ops), next_value(ops));
        e
    } else {
        b
    }
}

/// The parts of the code of a loop, each of which goes on after the one before.
proof fn lemma_loop_parts(vars: Seq<Place>, scopes: Seq<Targets>, ops: Seq<Op>, stmt: Statement)
    requires
        open_for_code(state(ops)),
        stmt is WhileLoop,
    ensures
        ({
            let (cond, body) = (stmt->WhileLoop_cond, stmt->WhileLoop_body);
            let first = state(ops).blocks;
            let inner = scopes.push(
                Targets { on_break: Some(first), on_continue: Some(first + 2) },
            ).push(Targets::unset());
            let head = loop_head(ops);
            let (tested, v) = cond_code(vars, head, cond);
            let start = loop_body(tested, first, v);
            let end = stmts_code(vars, inner, start, body@, body@.len());
            let code = stmt_code(vars, scopes, ops, stmt);
            &&& open_for_code(state(head))
            &&& goes_on(head, tested)
            &&& open_for_code(state(start))
            &&& goes_on(start, end)
            &&& code == loop_end(end, first)
            &&& extends(head, code)
            &&& extends(tested, code)
            &&& extends(start, code)
            &&& extends(end, code)
            &&& next_value(ops) == next_value(head)
            &&& next_value(head) <= next_value(tested)
            &&& next_value(tested) <= next_value(start)
        }),
{
    let (cond, body) = (stmt->WhileLoop_cond, stmt->WhileLoop_body);
    let first = state(ops).blocks;
    let inner = scopes.push(
        Targets { on_break: Some(first), on_continue: Some(first + 2) },
    ).push(Targets::unset());
    let head = loop_head(ops);
    lemma_loop_head(ops);
    let (tested, v) = cond_code(vars, head, cond);
    lemma_cond(vars, head, cond);
    let start = loop_body(tested, first, v);
    lemma_loop_body(ops, tested, v);
    let end = stmts_code(vars, inner, start, body@, body@.len());
    law_statements_self_contained(vars, inner, start, body@, body@.len());
    let code = stmt_code(vars, scopes, ops, stmt);
    assert(code == loop_end(end, first));
    assert(extends(end, code) && extends(tested, start));
    lemma_extends(start, end, code);
    lemma_extends(tested, start, code);
    lemma_extends(head, tested, code);
    lemma_more_values(head, tested);
}

/// A loop, from its head on.
proof fn lemma_loop_runs(
    p: Program,
    m: Machine,
    c: Call,
    vars: Seq<Place>,
    scopes: Seq<Targets>,
    ops: Seq<Op>,
    stmt: Statement,
    fuel: nat,
) -> (b: Machine)
    requires
        stmt is WhileLoop,
        runnable(p),
        serves(p, m, vars, c),
        m.at == entry(p.ops, state(ops).blocks),
        m.result is None,
        open_for_code(state(ops)),
        stmt_ok(
            shapes(vars),
            break_target(scopes) is Some,
            continue_target(scopes) is Some,
            stmt,
        ),
        extends(stmt_code(vars, scopes, ops, stmt), p.ops),
        c.exec(fuel, m.mem, stmt) is Some,
    ensures
        ends(
            p,
            m,
            b,
            scopes,
            ops,
            stmt_code(vars, scopes, ops, stmt),
            (c.exec(fuel, m.mem, stmt)->0).1,
        ),
        b.mem == (c.exec(fuel, m.mem, stmt)->0).0,
    decreases fuel, stmt, 1nat,
{
    let (cond, body) = (stmt->WhileLoop_cond, stmt->WhileLoop_body);
    let first = state(ops).blocks;
    let outer = scopes.push(Targets { on_break: Some(first), on_continue: Some(first + 2) });
    let inner = outer.push(Targets::unset());
    let head = loop_head(ops);
    let (tested, v) = cond_code(vars, head, cond);
    let start = loop_body(tested, first, v);
    let end = stmts_code(vars, inner, start, body@, body@.len());
    let code = stmt_code(vars, scopes, ops, stmt);
    lemma_loop_parts(vars, scopes, ops, stmt);
    lemma_extends(head, code, p.ops);
    lemma_extends(tested, code, p.ops);
    lemma_extends(start, code, p.ops);
    lemma_extends(end, code, p.ops);
    let branched = branch_code(tested, v, first + 1, first + 2);
    let back = end.push(Op::Jump { block: first });
    let closed = back.push(Op::Seal { block: first });
    assert(extends(branched, start) && extends(back, closed) && extends(closed, code));
    lemma_extends(branched, start, p.ops);
    lemma_extends(closed, code, p.ops);
    lemma_extends(back, closed, p.ops);
    law_loops_hide_loops(scopes, first, first + 2);
    let jump = three_blocks(ops).push(Op::Jump { block: first });
    lemma_entry(p, jump, first);
    lemma_next(p, jump, head.last());
    let a = lemma_idle(p, m, jump, head.last());
    let b = lemma_cond_runs(p, a, c, vars, head, cond);
    lemma_leads(p, m, a, b);
    assert(stable(p, m, a, next_value(ops)));
    lemma_stable(p, m, a, b, next_value(ops), next_value(head));
    let d = lemma_branches(p, b, tested, v, branched, first + 1, closed, first + 2);
    lemma_leads(p, m, b, d);
    assert(stable(p, b, d, next_value(ops)));
    lemma_stable(p, m, b, d, next_value(ops), next_value(ops));
    if (p.target.is_zero)(p.look(b, v)) {
        d
    } else {
        let e = lemma_block_runs(p, d, c, vars, outer, start, body@, fuel);
        let (mem, outcome) = c.exec_all(fuel, d.mem, body@, body@.len())->0;
        lemma_ends(p, m, d, e, outer, ops, start, end, outcome);
        match outcome {
            Outcome::Return(_) => e,
            Outcome::Continue => {
                let f = lemma_enter(p, e, closed, first + 2);
                lemma_leads(p, m, e, f);
                assert(stable(p, e, f, next_value(ops)));
                lemma_stable(p, m, e, f, next_value(ops), next_value(ops));
                f
            },
            _ => {
                let f = if outcome is Break {
                    e
                } else {
                    p.step(e)
                };
                if outcome is Normal {
                    lemma_next(p, end, Op::Jump { block: first });
                    lemma_leads_step(p, e);
                    lemma_leads(p, m, e, f);
                    assert(stable(p, e, f, next_value(ops)));
                    lemma_stable(p, m, e, f, next_value(ops), next_value(ops));
                }
                let g = lemma_loop_runs(p, f, c, vars, scopes, ops, stmt, (fuel - 1) as nat);
                lemma_ends(
                    p,
                    m,
                    f,
                    g,
                    scopes,
                    ops,
                    ops,
                    code,
                    (c.exec(fuel, m.mem, stmt)->0).1,
                );
                g
            },
        }
    }
}

/// An operation that occurs at two places occurs more than once.
proof fn lemma_two_times(ops: Seq<Op>, i: int, j: int)
    requires
        0 <= i < j < ops.len(),
        ops[i] == ops[j],
    ensures
        times(ops, ops[i]) >= 2,
    decreases ops.len(),
{
    let front = ops.drop_last();
    let op = ops[i];
    assert(times(ops, op) == times(front, op) + (if ops.last() == op {
        1nat
    } else {
        0nat
    }));
    if j == ops.len() - 1 {
        lemma_one_time(front, i);
    } else {
        lemma_two_times(front, i, j);
    }
}

proof fn lemma_one_time(ops: Seq<Op>, i: int)
    requires
        0 <= i < ops.len(),
    ensures
        times(ops, ops[i]) >= 1,
    decreases ops.len(),
{
    if i < ops.len() - 1 {
        lemma_one_time(ops.drop_last(), i);
    }
}

proof fn lemma_slots_no_entry(ops: Seq<Op>, body: FunctionBody, from: nat, to: nat, block: nat)
    ensures
        times(slots_code(ops, body, from, to), Op::SwitchTo { block }) == times(
            ops,
            Op::SwitchTo { block },
        ),
    decreases to,
{
    if to > from {
        lemma_slots_no_entry(ops, body, from, (to - 1) as nat, block);
    }
}

proof fn lemma_args_no_entry(ops: Seq<Op>, k: nat, block: nat)
    ensures
        times(args_code(ops, k), Op::SwitchTo { block }) == times(ops, Op::SwitchTo { block }),
    decreases k,
{
    if k > 0 {
        lemma_args_no_entry(ops, (k - 1) as nat, block);
    }
}

/// The parts of what comes before the statements of a function.
spec fn signature_part(ty: FunctionType) -> Seq<Op> {
    seq![
        Op::Function {
            namespace: 0,
            index: 0,
            conv: CallConv::SystemV,
            params: param_types(ty),
            returns: return_types(ty),
        },
    ]
}

spec fn slots_part(ty: FunctionType, body: FunctionBody) -> Seq<Op> {
    slots_code(signature_part(ty), body, ty.args@.len(), body.var_table@.len())
}

spec fn params_part(ty: FunctionType, body: FunctionBody) -> Seq<Op> {
    slots_part(ty, body).push(Op::CreateBlock).push(Op::FunctionParams { block: 0 })
}

spec fn statements_part(ty: FunctionType, body: FunctionBody) -> Seq<Op> {
    stmts_code(
        var_places(ty, body),
        seq![Targets::unset(), Targets::unset()],
        prologue_code(ty, body),
        body.code@,
        body.code@.len(),
    )
}

/// Every block of a function is entered at one place only.
pub proof fn law_functions_enter_blocks_once(ty: FunctionType, body: FunctionBody)
    ensures
        entered_once(function_code(ty, body)),
{
    let code = function_code(ty, body);
    let start = prologue_code(ty, body);
    let end = statements_part(ty, body);
    law_prologue(ty, body);
    law_statements_self_contained(
        var_places(ty, body),
        seq![Targets::unset(), Targets::unset()],
        start,
        body.code@,
        body.code@.len(),
    );
    assert forall|i: int, j: int|
        0 <= i < code.len() && 0 <= j < code.len() && #[trigger] code[i] is SwitchTo && code[i]
            == #[trigger] code[j] implies i == j by {
        let block = code[i]->SwitchTo_block;
        let op = Op::SwitchTo { block };
        let sig = signature_part(ty);
        assert(sig =~= Seq::<Op>::empty().push(sig[0]));
        assert(times(Seq::<Op>::empty(), op) == 0);
        assert(times(sig, op) == 0);
        lemma_slots_no_entry(sig, body, ty.args@.len(), body.var_table@.len(), block);
        lemma_args_no_entry(enter_code(params_part(ty, body), 0), ty.args@.len(), block);
        assert(times(start, op) == if block == 0 {
            1nat
        } else {
            0nat
        });
        assert(new_once(start, end, block)) by {
            reveal(once_each);
        }
        assert(times(code, op) <= 1);
        if i < j {
            lemma_two_times(code, i, j);
        } else if j < i {
            lemma_two_times(code, j, i);
        }
    }
}

proof fn lemma_bind(env: Map<nat, int>, args: Seq<int>, k: nat)
    requires
        k <= args.len(),
    ensures
        forall|i: nat| i < k ==> #[trigger] bind(env, 0, args, k)[i] == args[i as int],
    decreases k,
{
    if k > 0 {
        lemma_bind(env, args, (k - 1) as nat);
        let front = bind(env, 0, args, (k - 1) as nat);
        let last = (0 + k - 1) as nat;
        let all = bind(env, 0, args, k);
        assert forall|i: nat| i < k implies #[trigger] all[i] == args[i as int] by {
            if i < k - 1 {
                assert(front.insert(last, args[k - 1])[i] == front[i]);
            } else {
                assert(i == last);
            }
        }
    }
}

proof fn lemma_slots_extend(ops: Seq<Op>, body: FunctionBody, from: nat, to: nat)
    ensures
        extends(ops, slots_code(ops, body, from, to)),
    decreases to,
{
    if to > from {
        lemma_slots_extend(ops, body, from, (to - 1) as nat);
    }
}

proof fn lemma_slots_run(
    p: Program,
    m: Machine,
    ops: Seq<Op>,
    body: FunctionBody,
    from: nat,
    to: nat,
) -> (b: Machine)
    requires
        stands(p, m, ops),
        extends(slots_code(ops, body, from, to), p.ops),
    ensures
        p.leads(m, b),
        stands(p, b, slots_code(ops, body, from, to)),
        b == (Machine { at: b.at, ..m }),
    decreases to,
{
    if to <= from {
        lemma_leads_self(p, m);
        m
    } else {
        let x = slots_code(ops, body, from, (to - 1) as nat);
        let code = slots_code(ops, body, from, to);
        assert(extends(x, code));
        lemma_extends(x, code, p.ops);
        let a = lemma_slots_run(p, m, ops, body, from, (to - 1) as nat);
        let b = lemma_idle(p, a, x, code.last());
        lemma_leads(p, m, a, b);
        b
    }
}

proof fn lemma_args_extend(ops: Seq<Op>, k: nat)
    ensures
        extends(ops, args_code(ops, k)),
    decreases k,
{
    if k > 0 {
        lemma_args_extend(ops, (k - 1) as nat);
    }
}

proof fn lemma_args_run(p: Program, m: Machine, ops: Seq<Op>, k: nat) -> (b: Machine)
    requires
        stands(p, m, ops),
        extends(args_code(ops, k), p.ops),
        k <= p.args.len(),
        forall|i: nat| i < p.args.len() ==> #[trigger] m.env[i] == p.args[i as int],
    ensures
        p.leads(m, b),
        stands(p, b, args_code(ops, k)),
        b == (Machine { at: b.at, vars: b.vars, ..m }),
        forall|i: nat| i < k ==> #[trigger] b.vars[i] == p.args[i as int],
    decreases k,
{
    if k == 0 {
        lemma_leads_self(p, m);
        m
    } else {
        let i = (k - 1) as nat;
        let x = args_code(ops, i);
        let code = args_code(ops, k);
        let declared = x.push(Op::DeclareVar { var: i, ty: IrType::I32 });
        let define = Op::DefVar { var: i, value: i };
        assert(code == declared.push(define));
        lemma_next(p, declared, define);
        lemma_next(p, x, declared.last());
        let a = lemma_args_run(p, m, ops, i);
        let b = lemma_idle(p, a, x, declared.last());
        lemma_leads(p, m, a, b);
        lemma_leads_step(p, b);
        let e = p.step(b);
        lemma_leads(p, m, b, e);
        assert(m.env[i] == p.args[i as int]);
        e
    }
}

/// What comes before the statements of a function puts its arguments where they belong.
proof fn lemma_prologue_runs(
    p: Program,
    m: Machine,
    ty: FunctionType,
    body: FunctionBody,
) -> (b: Machine)
    requires
        runnable(p),
        m.at == 0,
        m.result is None,
        extends(prologue_code(ty, body), p.ops),
        p.args.len() == ty.args@.len(),
    ensures
        p.leads(m, b),
        stands(p, b, prologue_code(ty, body)),
        b.mem == m.mem,
        forall|i: nat| i < p.args.len() ==> #[trigger] b.vars[i] == p.args[i as int],
{
    let n = ty.args@.len();
    let none = Seq::<Op>::empty();
    let sig = signature_part(ty);
    let slots = slots_part(ty, body);
    let made = slots.push(Op::CreateBlock);
    let params = params_part(ty, body);
    let entered = enter_code(params, 0);
    let code = prologue_code(ty, body);
    assert(code == args_code(entered, n));
    lemma_slots_extend(sig, body, n, body.var_table@.len());
    lemma_args_extend(entered, n);
    assert(sig =~= none.push(sig[0]));
    assert(extends(none, sig) && extends(slots, made) && extends(made, params) && extends(
        params,
        entered,
    ));
    lemma_extends(entered, code, p.ops);
    lemma_extends(params, entered, p.ops);
    lemma_extends(made, params, p.ops);
    lemma_extends(slots, made, p.ops);
    lemma_extends(sig, slots, p.ops);
    lemma_extends(none, sig, p.ops);
    lemma_start(param_types(ty), return_types(ty));
    lemma_slots(sig, param_types(ty), body, n, body.var_table@.len());
    let a = lemma_idle(p, m, none, sig[0]);
    let b = lemma_slots_run(p, a, sig, body, n, body.var_table@.len());
    lemma_leads(p, m, a, b);
    let d = lemma_idle(p, b, slots, Op::CreateBlock);
    lemma_leads(p, m, b, d);
    lemma_next(p, made, params.last());
    lemma_leads_step(p, d);
    let e = p.step(d);
    lemma_leads(p, m, d, e);
    assert(p.fresh(d) == 0);
    lemma_bind(d.env, p.args, n);
    let switch = params.push(Op::SwitchTo { block: 0 });
    assert(extends(switch, entered));
    lemma_extends(switch, entered, p.ops);
    let f = lemma_idle(p, e, params, Op::SwitchTo { block: 0 });
    lemma_leads(p, m, e, f);
    let g = lemma_idle(p, f, switch, Op::Seal { block: 0 });
    lemma_leads(p, m, f, g);
    let h = lemma_args_run(p, g, entered, n);
    lemma_leads(p, m, g, h);
    h
}

/// The code of a function computes what the function means: run with some arguments on any target,
/// it returns what a call with these arguments returns, and leaves the memory that the call leaves,
/// if the call ends.
pub proof fn law_functions_compute_their_results(
    ty: FunctionType,
    body: FunctionBody,
    target: Target,
    args: Seq<int>,
    m: Machine,
    fuel: nat,
) -> (b: Machine)
    requires
        lowerable(ty, body),
        args.len() == ty.args@.len(),
        apart(function_code(ty, body)),
        m.at == 0,
        m.result is None,
        call_result(call_of(ty, body, target, args), body, fuel, m.mem) is Some,
    ensures
        ({
            let p = Program { ops: function_code(ty, body), target, args };
            let (mem, value) = call_result(
                call_of(ty, body, target, args),
                body,
                fuel,
                m.mem,
            )->0;
            &&& p.leads(m, b)
            &&& b.result == Some(value)
            &&& b.mem == mem
        }),
{
    let code = function_code(ty, body);
    let p = Program { ops: code, target, args };
    let c = call_of(ty, body, target, args);
    let vars = var_places(ty, body);
    let scopes = seq![Targets::unset(), Targets::unset()];
    let start = prologue_code(ty, body);
    let end = statements_part(ty, body);
    law_functions_enter_blocks_once(ty, body);
    law_prologue(ty, body);
    law_function_returns(ty, body);
    law_statements_self_contained(vars, scopes, start, body.code@, body.code@.len());
    assert(code == end.push(Op::Return { values: Seq::empty() }));
    assert(extends(end, code));
    lemma_extends(start, end, code);
    assert(shapes(vars) =~= var_shapes(ty, body));
    let none = Seq::<Targets>::empty();
    law_blocks_hide_no_loop(none);
    law_blocks_hide_no_loop(none.push(Targets::unset()));
    assert(scopes =~= none.push(Targets::unset()).push(Targets::unset()));
    assert(break_target(scopes) is None && continue_target(scopes) is None);
    let a = lemma_prologue_runs(p, m, ty, body);
    assert(serves(p, a, vars, c));
    let b = lemma_statements_run(
        p,
        a,
        c,
        vars,
        scopes,
        start,
        body.code@,
        body.code@.len(),
        fuel,
    );
    lemma_leads(p, m, a, b);
    let (mem, outcome) = c.exec_all(fuel, m.mem, body.code@, body.code@.len())->0;
    lemma_no_jumps_out(c, shapes(vars), m.mem, body.code@, body.code@.len(), fuel);
    if outcome is Normal {
        lemma_next(p, end, code.last());
        lemma_leads_step(p, b);
        let e = p.step(b);
        lemma_leads(p, m, b, e);
        assert(Seq::<nat>::empty().map_values(|n: nat| p.look(b, n)) =~= Seq::<int>::empty());
        e
    } else {
        b
    }
}

/// Statements that can be lowered outside of all loops end neither in a `break` nor in a
/// `continue`.
proof fn lemma_no_jumps_out(
    c: Call,
    vars: Seq<Shape>,
    mem: int,
    stmts: Seq<Statement>,
    k: nat,
    fuel: nat,
)
    requires
        stmts_ok(vars, false, false, stmts, k),
        c.exec_all(fuel, mem, stmts, k) is Some,
    ensures
        !((c.exec_all(fuel, mem, stmts, k)->0).1 is Break),
        !((c.exec_all(fuel, mem, stmts, k)->0).1 is Continue),
    decreases fuel, stmts, k,
{
    if k > 0 {
        lemma_no_jumps_out(c, vars, mem, stmts, (k - 1) as nat, fuel);
        let (after, outcome) = c.exec_all(fuel, mem, stmts, (k - 1) as nat)->0;
        if outcome is Normal {
            lemma_no_jump_out(c, vars, after, stmts[k - 1], fuel);
        }
    }
}

proof fn lemma_no_jump_out(c: Call, vars: Seq<Shape>, mem: int, stmt: Statement, fuel: nat)
    requires
        stmt_ok(vars, false, false, stmt),
        c.exec(fuel, mem, stmt) is Some,
    ensures
        !((c.exec(fuel, mem, stmt)->0).1 is Break),
        !((c.exec(fuel, mem, stmt)->0).1 is Continue),
    decreases fuel, stmt, 0nat,
{
    match stmt {
        Statement::Block(stmts) => {
            lemma_no_jumps_out(c, vars, mem, stmts@, stmts@.len(), fuel);
        },
        Statement::IfStatement { cond, true_arm, else_arm } => {
            let (after, v) = c.test(mem, cond);
            if !(c.target.is_zero)(v) {
                lemma_no_jumps_out(c, vars, after, true_arm@, true_arm@.len(), fuel);
            } else if let Some(stmts) = else_arm {
                lemma_no_jumps_out(c, vars, after, stmts@, stmts@.len(), fuel);
            }
        },
        Statement::WhileLoop { cond, body } => {
            let (after, v) = c.test(mem, cond);
            if !(c.target.is_zero)(v) {
                let (last, outcome) = c.exec_all(fuel, after, body@, body@.len())->0;
                if (outcome is Normal || outcome is Break) && fuel > 0 {
                    lemma_no_jump_out(c, vars, last, stmt, (fuel - 1) as nat);
                }
            }
        },
        _ => {},
    }
}

/// From `a` to `b`, which goes on after it, no variable is used.
#[verifier::opaque]
spec fn unused(a: Seq<Op>, b: Seq<Op>) -> bool {
    &&& extends(a, b)
    &&& forall|i: int| a.len() <= i < b.len() ==> !(#[trigger] b[i] is UseVar)
}

proof fn lemma_unused(a: Seq<Op>, b: Seq<Op>, c: Seq<Op>)
    requires
        unused(a, b),
        unused(b, c),
    ensures
        unused(a, c),
{
    reveal(unused);
    lemma_extends(a, b, c);
    assert forall|i: int| a.len() <= i < c.len() implies !(#[trigger] c[i] is UseVar) by {
        if i < b.len() {
            assert(c[i] == b[i]);
        }
    }
}

proof fn lemma_unused_self(a: Seq<Op>)
    ensures
        unused(a, a),
{
    reveal(unused);
}

/// None of these is a variable that is kept in SSA values.
spec fn all_in_slots(vars: Seq<Place>) -> bool {
    forall|i: int| 0 <= i < vars.len() ==> #[trigger] vars[i] is StackSlot
}

proof fn lemma_read_unused(ops: Seq<Op>, p: Place)
    requires
        !(p is Variable),
    ensures
        unused(ops, read_code(ops, p).0),
{
    reveal(unused);
}

proof fn lemma_assign_unused(ops: Seq<Op>, to: Place, from: Place)
    requires
        !(from is Variable),
    ensures
        unused(ops, assign_code(ops, to, from)),
{
    reveal(unused);
}

proof fn lemma_cast_unused(ops: Seq<Op>, dst: TypeRef, p: Place, src: TypeRef)
    requires
        !(p is Variable),
    ensures
        unused(ops, cast_code(ops, dst, p, src).0),
{
    reveal(unused);
}

proof fn lemma_operation_unused(ops: Seq<Op>, left: Place, right: Place, op: BinOp, ty: TypeRef)
    requires
        !(left is Variable),
        !(right is Variable),
    ensures
        unused(ops, operation_code(ops, left, right, op, ty).0),
{
    reveal(unused);
}

proof fn lemma_uniop_unused(ops: Seq<Op>, op: UniOp, p: Place, ty: TypeRef)
    requires
        !(p is Variable),
    ensures
        unused(ops, uniop_code(ops, op, p, ty).0),
        !(uniop_code(ops, op, p, ty).1 is Variable),
{
    reveal(unused);
}

proof fn lemma_first_arm_unused(ops: Seq<Op>, c: nat)
    ensures
        unused(ops, first_arm(ops, c)),
{
    reveal(unused);
}

proof fn lemma_end_arm_unused(ops: Seq<Op>, first: nat, next: nat)
    ensures
        unused(ops, end_arm(ops, first, next)),
{
    reveal(unused);
}

proof fn lemma_push_unused(ops: Seq<Op>, op: Op)
    requires
        !(op is UseVar),
    ensures
        unused(ops, ops.push(op)),
{
    reveal(unused);
}

#[verifier::rlimit(30)]
proof fn lemma_node_unused(vars: Seq<Place>, ops: Seq<Op>, n: Node)
    requires
        all_in_slots(vars),
        node_shape(shapes(vars), &n) is Some,
    ensures
        unused(ops, node_code(vars, ops, n).0),
        !(node_code(vars, ops, n).1 is Variable),
    decreases n, 1nat,
{
    lemma_unused_self(ops);
    let code = node_code(vars, ops, n).0;
    match n.kind {
        NodeKind::StmtList(nodes) => {
            lemma_nodes_unused(vars, ops, nodes@, nodes@.len());
        },
        NodeKind::Identifier(_, Some(IdentRef::Local(idx))) => {
            assert(shapes(vars).len() == vars.len());
            assert(vars[idx as int] is StackSlot);
        },
        NodeKind::Integer(_, _) => {
            lemma_push_unused(ops, code.last());
        },
        NodeKind::Assign(slot, val) => {
            let (a, to) = node_code(vars, ops, *slot);
            let (b, from) = node_code(vars, a, *val);
            lemma_node_unused(vars, ops, *slot);
            lemma_node_unused(vars, a, *val);
            lemma_assign_unused(b, to, from);
            lemma_unused(ops, a, b);
            lemma_unused(ops, b, code);
        },
        NodeKind::AssignOp(op, slot, val) => {
            let (a, to) = node_code(vars, ops, *slot);
            let (b, from) = node_code(vars, a, *val);
            let (c, r) = operation_code(b, to, from, op, type_of(*val)->0);
            lemma_node_unused(vars, ops, *slot);
            lemma_node_unused(vars, a, *val);
            lemma_operation_unused(b, to, from, op, type_of(*val)->0);
            lemma_assign_unused(c, to, Place::Temporary(r));
            lemma_unused(ops, a, b);
            lemma_unused(ops, b, c);
            lemma_unused(ops, c, code);
        },
        NodeKind::Cast(ty, val) => {
            let (a, p) = node_code(vars, ops, *val);
            lemma_node_unused(vars, ops, *val);
            lemma_cast_unused(a, ty, p, type_of(*val)->0);
            lemma_unused(ops, a, code);
        },
        NodeKind::ImplicitCast(ty, val) => {
            let (a, p) = node_code(vars, ops, *val);
            lemma_node_unused(vars, ops, *val);
            lemma_cast_unused(a, ty, p, type_of(*val)->0);
            lemma_unused(ops, a, code);
        },
        NodeKind::Ternary(_, _, _) => {
            lemma_ternary_unused(vars, ops, n);
        },
        NodeKind::UniOp(op, val) => {
            let (a, p) = node_code(vars, ops, *val);
            lemma_node_unused(vars, ops, *val);
            lemma_uniop_unused(a, op, p, type_of(*val)->0);
            lemma_unused(ops, a, code);
        },
        NodeKind::BinOp(op, left, right) => {
            let (a, p) = node_code(vars, ops, *left);
            let (b, q) = node_code(vars, a, *right);
            lemma_node_unused(vars, ops, *left);
            lemma_node_unused(vars, a, *right);
            lemma_operation_unused(b, p, q, op, type_of(*left)->0);
            lemma_unused(ops, a, b);
            lemma_unused(ops, b, code);
        },
        NodeKind::Member(val, _) => {
            lemma_node_unused(vars, ops, *val);
        },
        _ => {},
    }
}

proof fn lemma_ternary_unused(vars: Seq<Place>, ops: Seq<Op>, n: Node)
    requires
        n.kind is Ternary,
        all_in_slots(vars),
        node_shape(shapes(vars), &n) is Some,
    ensures
        unused(ops, node_code(vars, ops, n).0),
    decreases n, 0nat,
{
    let (cond, yes, no) = (n.kind->Ternary_0, n.kind->Ternary_1, n.kind->Ternary_2);
    let code = node_code(vars, ops, n).0;
    let (before, v) = read_node_code(vars, ops, *cond);
    let k = state(before).blocks;
    let first = first_arm(before, v);
    let (one, x) = read_node_code(vars, first, *yes);
    let second = end_arm(one, k, k + 1);
    let (two, y) = read_node_code(vars, second, *no);
    let done = end_arm(two, k, k + 2);
    let (a, p) = node_code(vars, ops, *cond);
    lemma_node_unused(vars, ops, *cond);
    lemma_read_unused(a, p);
    lemma_unused(ops, a, before);
    lemma_first_arm_unused(before, v);
    lemma_unused(ops, before, first);
    let (b, p) = node_code(vars, first, *yes);
    lemma_node_unused(vars, first, *yes);
    lemma_read_unused(b, p);
    lemma_unused(ops, first, b);
    lemma_unused(ops, b, one);
    lemma_end_arm_unused(one, k, k + 1);
    lemma_unused(ops, one, second);
    let (c, p) = node_code(vars, second, *no);
    lemma_node_unused(vars, second, *no);
    lemma_read_unused(c, p);
    lemma_unused(ops, second, c);
    lemma_unused(ops, c, two);
    lemma_end_arm_unused(two, k, k + 2);
    lemma_unused(ops, two, done);
    lemma_push_unused(done, Op::Select { c: v, x, y });
    lemma_unused(ops, done, code);
}

proof fn lemma_nodes_unused(vars: Seq<Place>, ops: Seq<Op>, nodes: Seq<Node>, k: nat)
    requires
        all_in_slots(vars),
        nodes_shape(shapes(vars), nodes, k) is Some,
    ensures
        unused(ops, nodes_code(vars, ops, nodes, k).0),
        !(nodes_code(vars, ops, nodes, k).1 is Variable),
    decreases nodes, k,
{
    let a = nodes_code(vars, ops, nodes, (k - 1) as nat).0;
    lemma_unused_self(ops);
    if k > 1 {
        lemma_nodes_unused(vars, ops, nodes, (k - 1) as nat);
    }
    lemma_node_unused(vars, a, nodes[k - 1]);
    lemma_unused(ops, a, nodes_code(vars, ops, nodes, k).0);
}

proof fn lemma_cond_unused(vars: Seq<Place>, ops: Seq<Op>, cond: ExprOrDef)
    requires
        all_in_slots(vars),
        cond_ok(shapes(vars), cond),
    ensures
        unused(ops, cond_code(vars, ops, cond).0),
{
    let (a, p) = node_code(vars, ops, cond->Expr_0);
    lemma_node_unused(vars, ops, cond->Expr_0);
    lemma_read_unused(a, p);
    lemma_unused(ops, a, read_code(a, p).0);
}

proof fn lemma_defs_unused(
    vars: Seq<Place>,
    ops: Seq<Op>,
    defs: Seq<VariableDefinition>,
    k: nat,
)
    requires
        all_in_slots(vars),
        k <= defs.len(),
        forall|i: int| 0 <= i < defs.len() ==> def_ok(shapes(vars), #[trigger] defs[i]),
    ensures
        unused(ops, defs_code(vars, ops, defs, k)),
    decreases k,
{
    lemma_unused_self(ops);
    if k > 0 {
        let a = defs_code(vars, ops, defs, (k - 1) as nat);
        lemma_defs_unused(vars, ops, defs, (k - 1) as nat);
        if let Initialiser::Value(n) = defs[k - 1].value {
            let (b, p) = node_code(vars, a, n);
            lemma_node_unused(vars, a, n);
            lemma_assign_unused(b, vars[defs[k - 1].index->0 as int], p);
            lemma_unused(ops, a, b);
            lemma_unused(ops, b, defs_code(vars, ops, defs, k));
        }
    }
}

proof fn lemma_orphan_unused(ops: Seq<Op>, op: Op)
    requires
        !(op is UseVar),
    ensures
        unused(ops, orphan_code(ops.push(op))),
{
    reveal(unused);
}

proof fn lemma_stmt_unused(
    vars: Seq<Place>,
    scopes: Seq<Targets>,
    ops: Seq<Op>,
    stmt: Statement,
    breaks: bool,
    continues: bool,
)
    requires
        all_in_slots(vars),
        stmt_ok(shapes(vars), breaks, continues, stmt),
    ensures
        unused(ops, stmt_code(vars, scopes, ops, stmt)),
    decreases stmt, 0nat,
{
    lemma_unused_self(ops);
    let code = stmt_code(vars, scopes, ops, stmt);
    let inner = scopes.push(Targets::unset());
    match stmt {
        Statement::VarDef(defs) => {
            lemma_defs_unused(vars, ops, defs@, defs@.len());
        },
        Statement::Expr(n) => {
            lemma_node_unused(vars, ops, n);
        },
        Statement::Block(stmts) => {
            lemma_stmts_unused(vars, inner, ops, stmts@, stmts@.len(), breaks, continues);
        },
        Statement::IfStatement { cond, true_arm, else_arm } => {
            let (before, v) = cond_code(vars, ops, cond);
            let k = state(before).blocks;
            let first = first_arm(before, v);
            let one = stmts_code(vars, inner, first, true_arm@, true_arm@.len());
            let second = end_arm(one, k, k + 1);
            lemma_cond_unused(vars, ops, cond);
            lemma_first_arm_unused(before, v);
            lemma_unused(ops, before, first);
            lemma_stmts_unused(
                vars,
                inner,
                first,
                true_arm@,
                true_arm@.len(),
                breaks,
                continues,
            );
            lemma_unused(ops, first, one);
            lemma_end_arm_unused(one, k, k + 1);
            lemma_unused(ops, one, second);
            let two = match else_arm {
                Some(stmts) => stmts_code(vars, inner, second, stmts@, stmts@.len()),
                None => second,
            };
            if let Some(stmts) = else_arm {
                lemma_stmts_unused(
                    vars,
                    inner,
                    second,
                    stmts@,
                    stmts@.len(),
                    breaks,
                    continues,
                );
                lemma_unused(ops, second, two);
            }
            lemma_end_arm_unused(two, k, k + 2);
            lemma_unused(ops, two, code);
        },
        Statement::WhileLoop { cond, body } => {
            let first = state(ops).blocks;
            let outer = scopes.push(
                Targets { on_break: Some(first), on_continue: Some(first + 2) },
            );
            let deep = outer.push(Targets::unset());
            let head = loop_head(ops);
            let (tested, v) = cond_code(vars, head, cond);
            let start = loop_body(tested, first, v);
            let end = stmts_code(vars, deep, start, body@, body@.len());
            assert(code == loop_end(end, first));
            assert(unused(ops, head) && unused(tested, start) && unused(end, code)) by {
                reveal(unused);
            }
            lemma_cond_unused(vars, head, cond);
            lemma_unused(ops, head, tested);
            lemma_unused(ops, tested, start);
            lemma_stmts_unused(vars, deep, start, body@, body@.len(), true, true);
            lemma_unused(ops, start, end);
            lemma_unused(ops, end, code);
        },
        Statement::Continue => {
            lemma_orphan_unused(ops, Op::Jump { block: continue_target(scopes)->0 });
        },
        Statement::Break => {
            lemma_orphan_unused(ops, Op::Jump { block: break_target(scopes)->0 });
        },
        Statement::Return(Some(n)) => {
            let (a, p) = node_code(vars, ops, n);
            let (b, v) = read_code(a, p);
            lemma_node_unused(vars, ops, n);
            lemma_read_unused(a, p);
            lemma_unused(ops, a, b);
            lemma_orphan_unused(b, Op::Return { values: seq![v] });
            lemma_unused(ops, b, code);
        },
        Statement::Return(None) => {
            lemma_orphan_unused(ops, Op::Return { values: Seq::empty() });
        },
        _ => {},
    }
}

proof fn lemma_stmts_unused(
    vars: Seq<Place>,
    scopes: Seq<Targets>,
    ops: Seq<Op>,
    stmts: Seq<Statement>,
    k: nat,
    breaks: bool,
    continues: bool,
)
    requires
        all_in_slots(vars),
        stmts_ok(shapes(vars), breaks, continues, stmts, k),
    ensures
        unused(ops, stmts_code(vars, scopes, ops, stmts, k)),
    decreases stmts, k,
{
    lemma_unused_self(ops);
    if k > 0 {
        let a = stmts_code(vars, scopes, ops, stmts, (k - 1) as nat);
        lemma_stmts_unused(vars, scopes, ops, stmts, (k - 1) as nat, breaks, continues);
        lemma_stmt_unused(vars, scopes, a, stmts[k - 1], breaks, continues);
        lemma_unused(ops, a, stmts_code(vars, scopes, ops, stmts, k));
    }
}

proof fn lemma_slots_unused(ops: Seq<Op>, body: FunctionBody, from: nat, to: nat)
    ensures
        unused(ops, slots_code(ops, body, from, to)),
    decreases to,
{
    lemma_unused_self(ops);
    if to > from {
        let a = slots_code(ops, body, from, (to - 1) as nat);
        lemma_slots_unused(ops, body, from, (to - 1) as nat);
        lemma_push_unused(a, slots_code(ops, body, from, to).last());
        lemma_unused(ops, a, slots_code(ops, body, from, to));
    }
}

/// A function without arguments uses no variable that is kept in SSA values, so there are none to
/// be kept apart.
pub proof fn law_functions_without_arguments_are_apart(ty: FunctionType, body: FunctionBody)
    requires
        lowerable(ty, body),
        ty.args@.len() == 0,
    ensures
        apart(function_code(ty, body)),
{
    let none = Seq::<Op>::empty();
    let sig = signature_part(ty);
    let slots = slots_part(ty, body);
    let start = prologue_code(ty, body);
    let end = statements_part(ty, body);
    let code = function_code(ty, body);
    let vars = var_places(ty, body);
    assert(all_in_slots(vars));
    assert(shapes(vars) =~= var_shapes(ty, body));
    lemma_slots_unused(sig, body, 0, body.var_table@.len());
    assert(unused(none, sig) && unused(slots, start) && unused(end, code)) by {
        reveal(unused);
        assert(start == enter_code(params_part(ty, body), 0));
    }
    lemma_unused(none, sig, slots);
    lemma_unused(none, slots, start);
    lemma_stmts_unused(
        vars,
        seq![Targets::unset(), Targets::unset()],
        start,
        body.code@,
        body.code@.len(),
        false,
        false,
    );
    lemma_unused(none, start, end);
    lemma_unused(none, end, code);
    reveal(unused);
}

/// The first operation gives a function its signature: the System V convention, the type of each
/// argument, and that of what it returns.
pub proof fn law_signatures_fit(ty: FunctionType, body: FunctionBody)
    ensures
        ({
            let first = function_code(ty, body)[0];
            &&& first matches Op::Function { namespace, index, conv, params, returns: rets } && {
                &&& namespace == 0 && index == 0
                &&& conv == CallConv::SystemV
                &&& params.len() == ty.args@.len()
                &&& forall|i: int|
                    0 <= i < params.len() ==> #[trigger] params[i] == ir_type(ty.args@[i].0)->0
                &&& rets == if ty.ret.basetype is Void {
                    Seq::empty()
                } else {
                    seq![ir_type(ty.ret)->0]
                }
            }
        }),
{
    lemma_function_parts(ty, body);
}

/// Every variable that is no argument has a stack slot of its size: the slots come right after the
/// signature, in the order of the variables.
pub proof fn law_slots_fit(ty: FunctionType, body: FunctionBody, i: int)
    requires
        ty.args@.len() <= i < body.var_table@.len(),
    ensures
        function_code(ty, body)[1 + i - ty.args@.len()] == (Op::ExplicitSlot {
            size: body.var_table@[i].ty.size->0,
        }),
{
    lemma_function_parts(ty, body);
    let n = ty.args@.len();
    lemma_slot_at(signature_part(ty), body, n, body.var_table@.len(), i);
    assert(slots_part(ty, body)[1 + i - n] == (Op::ExplicitSlot {
        size: body.var_table@[i].ty.size->0,
    }));
}

proof fn lemma_slot_at(ops: Seq<Op>, body: FunctionBody, from: nat, to: nat, i: int)
    requires
        from <= i < to,
    ensures
        ({
            let code = slots_code(ops, body, from, to);
            &&& code.len() == ops.len() + to - from
            &&& code[ops.len() + i - from] == (Op::ExplicitSlot {
                size: body.var_table@[i].ty.size->0,
            })
        }),
    decreases to,
{
    if to - 1 > from {
        if i < to - 1 {
            lemma_slot_at(ops, body, from, (to - 1) as nat, i);
        } else {
            lemma_slot_at(ops, body, from, (to - 1) as nat, from as int);
        }
    } else {
        assert(slots_code(ops, body, from, from) == ops);
    }
}

proof fn lemma_function_parts(ty: FunctionType, body: FunctionBody)
    ensures
        extends(signature_part(ty), function_code(ty, body)),
        extends(slots_part(ty, body), function_code(ty, body)),
{
    let n = ty.args@.len();
    let sig = signature_part(ty);
    let slots = slots_part(ty, body);
    let entered = enter_code(params_part(ty, body), 0);
    let start = prologue_code(ty, body);
    let end = statements_part(ty, body);
    let code = function_code(ty, body);
    lemma_slots_extend(sig, body, n, body.var_table@.len());
    lemma_args_extend(entered, n);
    law_prologue(ty, body);
    law_statements_self_contained(
        var_places(ty, body),
        seq![Targets::unset(), Targets::unset()],
        start,
        body.code@,
        body.code@.len(),
    );
    assert(extends(slots, entered));
    assert(extends(end, code));
    lemma_extends(start, end, code);
    lemma_extends(entered, start, code);
    lemma_extends(slots, entered, code);
    lemma_extends(sig, slots, code);
}

} // verus!
