//! What holds of the code of every function that can be lowered.
use vstd::prelude::*;
use crate::ast::{
    BinOp, ExprOrDef, FunctionBody, IdentRef, Initialiser, Node, NodeKind, Statement,
    StatementList, UniOp, VariableDefinition,
};
use crate::code::{
    args_code, assign_code, binop_code, branch_code, break_target, cast_code, cond_code,
    continue_target, def_code, defs_code, enter_code, function_code, next_value, node_code,
    nodes_code, orphan_code, param_types, prologue_code, read_code, return_types, shapes,
    slots_code, step_code, stmt_code, stmts_code, three_blocks, uniop_code, var_places, Place,
    Targets,
};
use crate::ir::{
    lemma_state_push, lemma_times_push, sound_throughout, state, times, BinInst, CallConv, FloatCC,
    FnState, IntCC, IrType, Op,
};
use crate::shape::{
    binop_inst, cast_inst, castable, cond_ok, def_ok, int_bits, ir_type, lowerable, node_shape,
    nodes_shape, stmt_ok, stmts_ok, type_of, var_shapes, CastInst, Shape,
};
use crate::types::{BaseType, FunctionType, IntClass, Signedness, TypeRef};

verus! {

broadcast use {lemma_state_push, lemma_times_push};

/// Code can be added: the current block takes any instruction, and the blocks that are filled,
/// sealed or entered are blocks of the function.
pub open spec fn open_for_code(s: FnState) -> bool {
    &&& s.ready()
    &&& s.entered.contains(s.cur->0)
    &&& forall|b: nat| #[trigger] s.entered.contains(b) ==> b < s.blocks
    &&& forall|b: nat| #[trigger] s.filled.contains(b) ==> b < s.blocks
    &&& forall|b: nat| #[trigger] s.sealed.contains(b) ==> b < s.blocks
}

/// `t` comes of `s` by self-contained code: what it found it leaves as it was, except that it may
/// fill the block it began in; of its own blocks, all are entered and sealed, and all but the one
/// that it ends in are filled.
#[verifier::opaque]
pub open spec fn follows(s: FnState, t: FnState) -> bool {
    &&& t.params == s.params
    &&& t.slots == s.slots
    &&& t.vars == s.vars
    &&& t.defs == s.defs
    &&& t.params_of == s.params_of
    &&& s.values.len() <= t.values.len()
    &&& forall|v: int| 0 <= v < s.values.len() ==> #[trigger] t.values[v] == s.values[v]
    &&& s.blocks <= t.blocks
    &&& t.cur == s.cur || t.cur->0 >= s.blocks
    &&& t.cur != s.cur ==> t.filled.contains(s.cur->0)
    &&& forall|b: nat|
        b < s.blocks ==> (#[trigger] t.sealed.contains(b) <==> s.sealed.contains(b))
    &&& forall|b: nat|
        b < s.blocks && b != s.cur->0 ==> (#[trigger] t.filled.contains(b) <==> s.filled.contains(
            b,
        ))
    &&& forall|b: nat|
        b < s.blocks ==> (#[trigger] t.entered.contains(b) <==> s.entered.contains(b))
    &&& forall|b: nat| #[trigger] s.led_to.contains(b) ==> t.led_to.contains(b)
    &&& forall|b: nat| s.blocks <= b < t.blocks ==> #[trigger] t.entered.contains(b)
    &&& forall|b: nat| s.blocks <= b < t.blocks ==> #[trigger] t.sealed.contains(b)
    &&& forall|b: nat|
        s.blocks <= b < t.blocks && b != t.cur->0 ==> #[trigger] t.filled.contains(b)
}

/// `b` is `a` with more operations after it.
pub open spec fn extends(a: Seq<Op>, b: Seq<Op>) -> bool {
    &&& a.len() <= b.len()
    &&& forall|i: int| 0 <= i < a.len() ==> #[trigger] b[i] == a[i]
}

/// From `a` to `b`, which goes on after it, `block` is entered once and sealed once if it is new,
/// and not at all else.
pub open spec fn new_once(a: Seq<Op>, b: Seq<Op>, block: nat) -> bool {
    let new = if state(a).blocks <= block < state(b).blocks {
        1nat
    } else {
        0nat
    };
    &&& times(b, Op::SwitchTo { block }) == times(a, Op::SwitchTo { block }) + new
    &&& times(b, Op::Seal { block }) == times(a, Op::Seal { block }) + new
}

/// From `a` to `b`, which goes on after it, each new block is entered once and sealed once, and no
/// other block is entered or sealed.
#[verifier::opaque]
pub open spec fn once_each(a: Seq<Op>, b: Seq<Op>) -> bool {
    forall|block: nat| #[trigger] new_once(a, b, block)
}

/// `b` is `a` with self-contained code after it.
pub open spec fn goes_on(a: Seq<Op>, b: Seq<Op>) -> bool {
    &&& extends(a, b)
    &&& open_for_code(state(b))
    &&& follows(state(a), state(b))
    &&& once_each(a, b)
}

/// What goes on without a change of blocks.
proof fn lemma_same_blocks(a: Seq<Op>, b: Seq<Op>)
    requires
        extends(a, b),
        open_for_code(state(b)),
        follows(state(a), state(b)),
        state(a).blocks == state(b).blocks,
        forall|i: int|
            a.len() <= i < b.len() ==> !(#[trigger] b[i] is SwitchTo) && !(b[i] is Seal),
    ensures
        goes_on(a, b),
{
    reveal(once_each);
    assert forall|block: nat| #[trigger] new_once(a, b, block) by {
        lemma_times_same(a, b, Op::SwitchTo { block });
        lemma_times_same(a, b, Op::Seal { block });
    }
}

proof fn lemma_times_same(a: Seq<Op>, b: Seq<Op>, op: Op)
    requires
        extends(a, b),
        forall|i: int| a.len() <= i < b.len() ==> #[trigger] b[i] != op,
    ensures
        times(b, op) == times(a, op),
    decreases b.len(),
{
    if a.len() == b.len() {
        assert(a =~= b);
    } else {
        lemma_times_same(a, b.drop_last(), op);
        assert(b =~= b.drop_last().push(b.last()));
    }
}

pub(crate) proof fn lemma_goes_on(a: Seq<Op>, b: Seq<Op>, c: Seq<Op>)
    requires
        goes_on(a, b),
        goes_on(b, c),
    ensures
        goes_on(a, c),
{
    reveal(follows);
    assert forall|i: int| 0 <= i < a.len() implies #[trigger] c[i] == a[i] by {
        assert(b[i] == a[i]);
    }
    let s = state(a);
    let t = state(b);
    let u = state(c);
    assert(once_each(a, c)) by {
        reveal(once_each);
        assert forall|block: nat| #[trigger] new_once(a, c, block) by {
            assert(new_once(a, b, block) && new_once(b, c, block));
        }
    }
    assert forall|x: nat| x < s.blocks implies (#[trigger] u.entered.contains(x)
        <==> s.entered.contains(x)) by {
        assert(t.entered.contains(x) <==> s.entered.contains(x));
    }
    assert forall|x: nat| #[trigger] s.led_to.contains(x) implies u.led_to.contains(x) by {
        assert(t.led_to.contains(x));
    }
    assert forall|x: nat| s.blocks <= x < u.blocks implies #[trigger] u.entered.contains(x) by {
        if x < t.blocks {
            assert(t.entered.contains(x));
        }
    }
    assert forall|v: int| 0 <= v < s.values.len() implies #[trigger] u.values[v] == s.values[v] by {
        assert(t.values[v] == s.values[v]);
    }
    assert forall|x: nat| x < s.blocks implies (#[trigger] u.sealed.contains(x)
        <==> s.sealed.contains(x)) by {
        assert(t.sealed.contains(x) <==> s.sealed.contains(x));
    }
    assert forall|x: nat| x < s.blocks && x != s.cur->0 implies (#[trigger] u.filled.contains(x)
        <==> s.filled.contains(x)) by {
        assert(t.filled.contains(x) <==> s.filled.contains(x));
    }
    assert forall|x: nat| s.blocks <= x < u.blocks implies #[trigger] u.sealed.contains(x) by {
        if x < t.blocks {
            assert(t.sealed.contains(x));
        }
    }
    assert forall|x: nat| s.blocks <= x < u.blocks && x
        != u.cur->0 implies #[trigger] u.filled.contains(x) by {
        if x < t.blocks && x != t.cur->0 {
            assert(t.filled.contains(x));
        }
    }
}

/// Nothing at all.
pub(crate) proof fn lemma_goes_nowhere(ops: Seq<Op>)
    requires
        open_for_code(state(ops)),
    ensures
        goes_on(ops, ops),
{
    reveal(follows);
    lemma_same_blocks(ops, ops);
}

/// An instruction that yields a value.
pub(crate) proof fn lemma_emit(ops: Seq<Op>, op: Op)
    requires
        open_for_code(state(ops)),
        state(ops).result_type(op) is Some,
    ensures
        goes_on(ops, ops.push(op)),
{
    reveal(follows);
    lemma_same_blocks(ops, ops.push(op));
}

pub(crate) proof fn lemma_read(ops: Seq<Op>, p: Place)
    requires
        open_for_code(state(ops)),
    ensures
        goes_on(ops, read_code(ops, p).0),
{
    reveal(follows);
    lemma_same_blocks(ops, read_code(ops, p).0);
}

pub(crate) proof fn lemma_assign(ops: Seq<Op>, to: Place, from: Place)
    requires
        open_for_code(state(ops)),
    ensures
        goes_on(ops, assign_code(ops, to, from)),
{
    reveal(follows);
    lemma_same_blocks(ops, assign_code(ops, to, from));
}

pub(crate) proof fn lemma_cast(ops: Seq<Op>, dst: TypeRef, p: Place, src: TypeRef)
    requires
        open_for_code(state(ops)),
    ensures
        goes_on(ops, cast_code(ops, dst, p, src).0),
{
    reveal(follows);
    lemma_same_blocks(ops, cast_code(ops, dst, p, src).0);
}

pub(crate) proof fn lemma_uniop(ops: Seq<Op>, op: UniOp, p: Place, ty: TypeRef)
    requires
        open_for_code(state(ops)),
    ensures
        goes_on(ops, uniop_code(ops, op, p, ty).0),
{
    let (read, x) = read_code(ops, p);
    lemma_read(ops, p);
    let up = read.push(Op::IaddImm { x, imm: 1i64 });
    lemma_emit(read, Op::IaddImm { x, imm: 1i64 });
    lemma_assign(up, p, Place::Temporary(next_value(read)));
    let down = read.push(Op::IaddImm { x, imm: -1i64 });
    lemma_emit(read, Op::IaddImm { x, imm: -1i64 });
    lemma_assign(down, p, Place::Temporary(next_value(read)));
    lemma_goes_on(ops, read, up);
    lemma_goes_on(ops, read, down);
    lemma_goes_on(ops, up, step_code(read, p, x, 1i64).0);
    lemma_goes_on(ops, down, step_code(read, p, x, -1i64).0);
    match op {
        UniOp::BitNot => {
            lemma_emit(read, Op::Bnot { x });
            lemma_goes_on(ops, read, read.push(Op::Bnot { x }));
        },
        UniOp::LogicNot => {
            let not = Op::IntCompareImm { cond: IntCC::Equal, x, imm: 0 };
            lemma_emit(read, not);
            lemma_goes_on(ops, read, read.push(not));
        },
        _ => {},
    }
}

/// The code of a branch, up to the first of its two arms.
pub open spec fn first_arm(ops: Seq<Op>, c: nat) -> Seq<Op> {
    let first = state(ops).blocks;
    enter_code(branch_code(three_blocks(ops), c, first, first + 1), first)
}

/// The code that leads from the end of one arm of a branch into the block `next`; the branch
/// began with `first` blocks.
pub open spec fn end_arm(ops: Seq<Op>, first: nat, next: nat) -> Seq<Op> {
    enter_code(ops.push(Op::Jump { block: first + 2 }), next)
}

pub(crate) proof fn lemma_first_arm(ops: Seq<Op>, c: nat)
    requires
        open_for_code(state(ops)),
    ensures
        extends(ops, first_arm(ops, c)),
        open_for_code(state(first_arm(ops, c))),
{
}

pub(crate) proof fn lemma_second_arm(ops: Seq<Op>, c: nat, yes: Seq<Op>)
    requires
        open_for_code(state(ops)),
        goes_on(first_arm(ops, c), yes),
    ensures
        open_for_code(state(end_arm(yes, state(ops).blocks, state(ops).blocks + 1))),
{
    reveal(follows);
    lemma_first_arm(ops, c);
}

pub(crate) proof fn lemma_branch(ops: Seq<Op>, c: nat, yes: Seq<Op>, no: Seq<Op>)
    requires
        open_for_code(state(ops)),
        goes_on(first_arm(ops, c), yes),
        goes_on(end_arm(yes, state(ops).blocks, state(ops).blocks + 1), no),
    ensures
        goes_on(ops, end_arm(no, state(ops).blocks, state(ops).blocks + 2)),
{
    lemma_first_arm(ops, c);
    lemma_second_arm(ops, c, yes);
    let first = first_arm(ops, c);
    let second = end_arm(yes, state(ops).blocks, state(ops).blocks + 1);
    let end = end_arm(no, state(ops).blocks, state(ops).blocks + 2);
    assert(extends(ops, end) && open_for_code(state(end)) && follows(state(ops), state(end))) by {
        reveal(follows);
        assert forall|x: nat| #[trigger] state(ops).led_to.contains(x) implies state(
            end,
        ).led_to.contains(x) by {
            assert(state(first).led_to.contains(x));
            assert(state(yes).led_to.contains(x));
            assert(state(second).led_to.contains(x));
            assert(state(no).led_to.contains(x));
        }
    }
    assert(once_each(ops, end)) by {
        reveal(follows);
        reveal(once_each);
        assert forall|block: nat| #[trigger] new_once(ops, end, block) by {
            assert(new_once(first, yes, block));
            assert(new_once(second, no, block));
        }
    }
}

/// The code of an expression is self-contained: it goes on after what was there before, and leaves
/// the blocks that it found as they were.
#[verifier::rlimit(30)]
pub proof fn law_expression_self_contained(vars: Seq<Place>, ops: Seq<Op>, n: Node)
    requires
        open_for_code(state(ops)),
    ensures
        goes_on(ops, node_code(vars, ops, n).0),
    decreases n, 0nat,
{
    lemma_goes_nowhere(ops);
    match n.kind {
        NodeKind::Integer(val, _) => {
            lemma_emit(ops, Op::Iconst { ty: IrType::I32, imm: val as i64 });
        },
        NodeKind::StmtList(nodes) => {
            lemma_nodes(vars, ops, nodes@, nodes@.len());
        },
        NodeKind::Assign(slot, val) => {
            let (a, to) = node_code(vars, ops, *slot);
            let (b, from) = node_code(vars, a, *val);
            law_expression_self_contained(vars, ops, *slot);
            law_expression_self_contained(vars, a, *val);
            lemma_assign(b, to, from);
            lemma_goes_on(ops, a, b);
            lemma_goes_on(ops, b, assign_code(b, to, from));
        },
        NodeKind::AssignOp(op, slot, val) => {
            let (a, to) = node_code(vars, ops, *slot);
            let (b, from) = node_code(vars, a, *val);
            let (c, x) = read_code(b, to);
            let (d, y) = read_code(c, from);
            let (e, r) = binop_code(d, op, type_of(*val)->0, x, y);
            law_expression_self_contained(vars, ops, *slot);
            law_expression_self_contained(vars, a, *val);
            lemma_read(b, to);
            lemma_read(c, from);
            lemma_emit(d, e.last());
            lemma_assign(e, to, Place::Temporary(r));
            lemma_goes_on(ops, a, b);
            lemma_goes_on(ops, b, c);
            lemma_goes_on(ops, c, d);
            lemma_goes_on(ops, d, e);
            lemma_goes_on(ops, e, assign_code(e, to, Place::Temporary(r)));
        },
        NodeKind::Cast(ty, val) => {
            let (a, p) = node_code(vars, ops, *val);
            law_expression_self_contained(vars, ops, *val);
            lemma_cast(a, ty, p, type_of(*val)->0);
            lemma_goes_on(ops, a, cast_code(a, ty, p, type_of(*val)->0).0);
        },
        NodeKind::ImplicitCast(ty, val) => {
            let (a, p) = node_code(vars, ops, *val);
            law_expression_self_contained(vars, ops, *val);
            lemma_cast(a, ty, p, type_of(*val)->0);
            lemma_goes_on(ops, a, cast_code(a, ty, p, type_of(*val)->0).0);
        },
        NodeKind::Ternary(cond, yes, no) => {
            let (a, p) = node_code(vars, ops, *cond);
            law_expression_self_contained(vars, ops, *cond);
            let (b, c) = read_code(a, p);
            lemma_read(a, p);
            lemma_goes_on(ops, a, b);
            let first = state(b).blocks;
            let d = first_arm(b, c);
            lemma_first_arm(b, c);
            let (e, q) = node_code(vars, d, *yes);
            law_expression_self_contained(vars, d, *yes);
            let (f, x) = read_code(e, q);
            lemma_read(e, q);
            lemma_goes_on(d, e, f);
            let g = end_arm(f, first, first + 1);
            lemma_second_arm(b, c, f);
            let (h, q) = node_code(vars, g, *no);
            law_expression_self_contained(vars, g, *no);
            let (i, y) = read_code(h, q);
            lemma_read(h, q);
            lemma_goes_on(g, h, i);
            let j = end_arm(i, first, first + 2);
            lemma_branch(b, c, f, i);
            lemma_goes_on(ops, b, j);
            let k = j.push(Op::Select { c, x, y });
            lemma_emit(j, k.last());
            lemma_goes_on(ops, j, k);
        },
        NodeKind::UniOp(op, val) => {
            let (a, p) = node_code(vars, ops, *val);
            law_expression_self_contained(vars, ops, *val);
            lemma_uniop(a, op, p, type_of(*val)->0);
            lemma_goes_on(ops, a, uniop_code(a, op, p, type_of(*val)->0).0);
        },
        NodeKind::BinOp(op, left, right) => {
            let (a, p) = node_code(vars, ops, *left);
            let (b, q) = node_code(vars, a, *right);
            let (c, x) = read_code(b, p);
            let (d, y) = read_code(c, q);
            let (e, r) = binop_code(d, op, type_of(*left)->0, x, y);
            law_expression_self_contained(vars, ops, *left);
            law_expression_self_contained(vars, a, *right);
            lemma_read(b, p);
            lemma_read(c, q);
            lemma_emit(d, e.last());
            lemma_goes_on(ops, a, b);
            lemma_goes_on(ops, b, c);
            lemma_goes_on(ops, c, d);
            lemma_goes_on(ops, d, e);
        },
        NodeKind::Member(val, name) => {
            law_expression_self_contained(vars, ops, *val);
        },
        _ => {},
    }
}

pub(crate) proof fn lemma_nodes(vars: Seq<Place>, ops: Seq<Op>, nodes: Seq<Node>, k: nat)
    requires
        open_for_code(state(ops)),
    ensures
        goes_on(ops, nodes_code(vars, ops, nodes, k).0),
    decreases nodes, k,
{
    lemma_goes_nowhere(ops);
    if k > 0 && k <= nodes.len() {
        let (a, _) = nodes_code(vars, ops, nodes, (k - 1) as nat);
        lemma_nodes(vars, ops, nodes, (k - 1) as nat);
        law_expression_self_contained(vars, a, nodes[k - 1]);
        lemma_goes_on(ops, a, node_code(vars, a, nodes[k - 1]).0);
    }
}

/// The value of an expression is found in the kind of place that was foretold for it.
pub proof fn law_places_as_foretold(vars: Seq<Place>, ops: Seq<Op>, n: Node)
    requires
        node_shape(shapes(vars), &n) is Some,
    ensures
        node_shape(shapes(vars), &n) == Some(node_code(vars, ops, n).1.shape()),
    decreases n, 0nat,
{
    match n.kind {
        NodeKind::StmtList(nodes) => {
            lemma_nodes_place(vars, ops, nodes@, nodes@.len());
        },
        NodeKind::Assign(slot, val) => {
            law_places_as_foretold(vars, ops, *slot);
        },
        NodeKind::AssignOp(op, slot, val) => {
            law_places_as_foretold(vars, ops, *slot);
        },
        NodeKind::UniOp(op, val) => {
            law_places_as_foretold(vars, ops, *val);
        },
        NodeKind::Member(val, name) => {
            law_places_as_foretold(vars, ops, *val);
        },
        _ => {},
    }
}

proof fn lemma_nodes_place(vars: Seq<Place>, ops: Seq<Op>, nodes: Seq<Node>, k: nat)
    requires
        nodes_shape(shapes(vars), nodes, k) is Some,
    ensures
        nodes_shape(shapes(vars), nodes, k) == Some(nodes_code(vars, ops, nodes, k).1.shape()),
    decreases nodes, k,
{
    let (a, _) = nodes_code(vars, ops, nodes, (k - 1) as nat);
    law_places_as_foretold(vars, a, nodes[k - 1]);
}

pub(crate) proof fn lemma_cond(vars: Seq<Place>, ops: Seq<Op>, cond: ExprOrDef)
    requires
        open_for_code(state(ops)),
    ensures
        goes_on(ops, cond_code(vars, ops, cond).0),
{
    lemma_goes_nowhere(ops);
    match cond {
        ExprOrDef::Expr(n) => {
            let (a, p) = node_code(vars, ops, n);
            law_expression_self_contained(vars, ops, n);
            lemma_read(a, p);
            lemma_goes_on(ops, a, read_code(a, p).0);
        },
        ExprOrDef::Definition(_) => {},
    }
}

pub(crate) proof fn lemma_def(vars: Seq<Place>, ops: Seq<Op>, def: VariableDefinition)
    requires
        open_for_code(state(ops)),
    ensures
        goes_on(ops, def_code(vars, ops, def)),
{
    lemma_goes_nowhere(ops);
    match def.value {
        Initialiser::Value(n) => {
            let (a, p) = node_code(vars, ops, n);
            law_expression_self_contained(vars, ops, n);
            lemma_assign(a, vars[def.index->0 as int], p);
            lemma_goes_on(ops, a, def_code(vars, ops, def));
        },
        _ => {},
    }
}

pub(crate) proof fn lemma_defs(
    vars: Seq<Place>,
    ops: Seq<Op>,
    defs: Seq<VariableDefinition>,
    k: nat,
)
    requires
        open_for_code(state(ops)),
    ensures
        goes_on(ops, defs_code(vars, ops, defs, k)),
    decreases k,
{
    lemma_goes_nowhere(ops);
    if k > 0 {
        let a = defs_code(vars, ops, defs, (k - 1) as nat);
        lemma_defs(vars, ops, defs, (k - 1) as nat);
        lemma_def(vars, a, defs[k - 1]);
        lemma_goes_on(ops, a, def_code(vars, a, defs[k - 1]));
    }
}

/// The code up to the condition of a loop.
pub open spec fn loop_head(ops: Seq<Op>) -> Seq<Op> {
    let top = state(ops).blocks;
    three_blocks(ops).push(Op::Jump { block: top }).push(Op::SwitchTo { block: top })
}

/// The code from the condition `c` of a loop to its body; the loop began with `first` blocks.
pub open spec fn loop_body(ops: Seq<Op>, first: nat, c: nat) -> Seq<Op> {
    enter_code(branch_code(ops, c, first + 1, first + 2), first + 1)
}

/// The code that ends a loop that began with `first` blocks.
pub open spec fn loop_end(ops: Seq<Op>, first: nat) -> Seq<Op> {
    enter_code(ops.push(Op::Jump { block: first }).push(Op::Seal { block: first }), first + 2)
}

pub(crate) proof fn lemma_loop_head(ops: Seq<Op>)
    requires
        open_for_code(state(ops)),
    ensures
        extends(ops, loop_head(ops)),
        open_for_code(state(loop_head(ops))),
{
}

pub(crate) proof fn lemma_loop_body(ops: Seq<Op>, cond: Seq<Op>, c: nat)
    requires
        open_for_code(state(ops)),
        goes_on(loop_head(ops), cond),
    ensures
        open_for_code(state(loop_body(cond, state(ops).blocks, c))),
{
    reveal(follows);
    lemma_loop_head(ops);
}

pub(crate) proof fn lemma_loop(ops: Seq<Op>, cond: Seq<Op>, c: nat, body: Seq<Op>)
    requires
        open_for_code(state(ops)),
        goes_on(loop_head(ops), cond),
        goes_on(loop_body(cond, state(ops).blocks, c), body),
    ensures
        goes_on(ops, loop_end(body, state(ops).blocks)),
{
    lemma_loop_head(ops);
    lemma_loop_body(ops, cond, c);
    let head = loop_head(ops);
    let inner = loop_body(cond, state(ops).blocks, c);
    let end = loop_end(body, state(ops).blocks);
    assert(extends(ops, end) && open_for_code(state(end)) && follows(state(ops), state(end))) by {
        reveal(follows);
        assert forall|x: nat| #[trigger] state(ops).led_to.contains(x) implies state(
            end,
        ).led_to.contains(x) by {
            assert(state(head).led_to.contains(x));
            assert(state(cond).led_to.contains(x));
            assert(state(inner).led_to.contains(x));
            assert(state(body).led_to.contains(x));
        }
    }
    assert(once_each(ops, end)) by {
        reveal(follows);
        reveal(once_each);
        assert forall|block: nat| #[trigger] new_once(ops, end, block) by {
            assert(new_once(head, cond, block));
            assert(new_once(inner, body, block));
        }
    }
}

proof fn lemma_orphan(ops: Seq<Op>, op: Op)
    requires
        open_for_code(state(ops)),
        op is Jump || op is Return,
    ensures
        goes_on(ops, orphan_code(ops.push(op))),
{
    reveal(follows);
    reveal(once_each);
}

/// The code of a statement is self-contained: it goes on after what was there before, leaves the
/// blocks that it found as they were, and ends in a block that takes more code.
pub proof fn law_statement_self_contained(
    vars: Seq<Place>,
    scopes: Seq<Targets>,
    ops: Seq<Op>,
    stmt: Statement,
)
    requires
        open_for_code(state(ops)),
    ensures
        goes_on(ops, stmt_code(vars, scopes, ops, stmt)),
    decreases stmt, 0nat,
{
    match stmt {
        Statement::VarDef(defs) => {
            lemma_defs(vars, ops, defs@, defs@.len());
        },
        Statement::Expr(n) => {
            law_expression_self_contained(vars, ops, n);
        },
        Statement::Block(stmts) => {
            law_statements_self_contained(
                vars,
                scopes.push(Targets::unset()),
                ops,
                stmts@,
                stmts@.len(),
            );
        },
        Statement::IfStatement { cond, true_arm, else_arm } => {
            let (a, c) = cond_code(vars, ops, cond);
            lemma_cond(vars, ops, cond);
            let first = state(a).blocks;
            let inner = scopes.push(Targets::unset());
            let b = first_arm(a, c);
            lemma_first_arm(a, c);
            let d = stmts_code(vars, inner, b, true_arm@, true_arm@.len());
            law_statements_self_contained(vars, inner, b, true_arm@, true_arm@.len());
            let e = end_arm(d, first, first + 1);
            lemma_second_arm(a, c, d);
            let f = match else_arm {
                Some(stmts) => stmts_code(vars, inner, e, stmts@, stmts@.len()),
                None => e,
            };
            lemma_goes_nowhere(e);
            if let Some(stmts) = else_arm {
                law_statements_self_contained(vars, inner, e, stmts@, stmts@.len());
            }
            lemma_branch(a, c, d, f);
            lemma_goes_on(ops, a, end_arm(f, first, first + 2));
        },
        Statement::WhileLoop { cond, body } => {
            let first = state(ops).blocks;
            let outer = scopes.push(
                Targets { on_break: Some(first), on_continue: Some(first + 2) },
            );
            let inner = outer.push(Targets::unset());
            let a = loop_head(ops);
            lemma_loop_head(ops);
            let (b, c) = cond_code(vars, a, cond);
            lemma_cond(vars, a, cond);
            let d = loop_body(b, first, c);
            lemma_loop_body(ops, b, c);
            let e = stmts_code(vars, inner, d, body@, body@.len());
            law_statements_self_contained(vars, inner, d, body@, body@.len());
            lemma_loop(ops, b, c, e);
        },
        Statement::Return(Some(n)) => {
            let (a, p) = node_code(vars, ops, n);
            let (b, v) = read_code(a, p);
            let op = Op::Return { values: seq![v] };
            let c = orphan_code(b.push(op));
            law_expression_self_contained(vars, ops, n);
            lemma_read(a, p);
            lemma_goes_on(ops, a, b);
            lemma_orphan(b, op);
            lemma_goes_on(ops, b, c);
        },
        Statement::Return(None) => {
            lemma_orphan(ops, Op::Return { values: Seq::empty() });
        },
        Statement::Break => {
            lemma_orphan(ops, Op::Jump { block: break_target(scopes)->0 });
        },
        Statement::Continue => {
            lemma_orphan(ops, Op::Jump { block: continue_target(scopes)->0 });
        },
        _ => {
            lemma_goes_nowhere(ops);
        },
    }
}

/// The same of the first `k` of several statements.
pub proof fn law_statements_self_contained(
    vars: Seq<Place>,
    scopes: Seq<Targets>,
    ops: Seq<Op>,
    stmts: Seq<Statement>,
    k: nat,
)
    requires
        open_for_code(state(ops)),
    ensures
        goes_on(ops, stmts_code(vars, scopes, ops, stmts, k)),
    decreases stmts, k,
{
    lemma_goes_nowhere(ops);
    if k > 0 && k <= stmts.len() {
        let a = stmts_code(vars, scopes, ops, stmts, (k - 1) as nat);
        law_statements_self_contained(vars, scopes, ops, stmts, (k - 1) as nat);
        law_statement_self_contained(vars, scopes, a, stmts[k - 1]);
        lemma_goes_on(ops, a, stmt_code(vars, scopes, a, stmts[k - 1]));
    }
}

/// What is there before the block of the arguments: stack slots, and nothing else.
pub open spec fn only_slots(s: FnState, params: Seq<IrType>, slots: nat) -> bool {
    s == (FnState { params, slots, ..FnState::empty() })
}

/// A function that has nothing but its signature.
pub(crate) proof fn lemma_start(params: Seq<IrType>, rets: Seq<IrType>)
    ensures
        only_slots(
            state(
                seq![
                    Op::Function {
                        namespace: 0,
                        index: 0,
                        conv: CallConv::SystemV,
                        params,
                        returns: rets,
                    },
                ],
            ),
            params,
            0,
        ),
{
    let first = Op::Function {
        namespace: 0,
        index: 0,
        conv: CallConv::SystemV,
        params,
        returns: rets,
    };
    assert(seq![first] =~= Seq::<Op>::empty().push(first));
}

pub(crate) proof fn lemma_slots(
    ops: Seq<Op>,
    params: Seq<IrType>,
    body: FunctionBody,
    from: nat,
    to: nat,
)
    requires
        only_slots(state(ops), params, 0),
    ensures
        only_slots(
            state(slots_code(ops, body, from, to)),
            params,
            if to <= from {
                0
            } else {
                (to - from) as nat
            },
        ),
    decreases to,
{
    if to > from {
        lemma_slots(ops, params, body, from, (to - 1) as nat);
    }
}

pub(crate) proof fn lemma_args(ops: Seq<Op>, k: nat)
    requires
        open_for_code(state(ops)),
        state(ops).vars == Map::<nat, IrType>::empty(),
    ensures
        ({
            let s = state(args_code(ops, k));
            &&& s == (FnState { vars: s.vars, defs: s.defs, ..state(ops) })
            &&& forall|i: nat| i < k ==> #[trigger] s.def_here(i) == Some(i)
            &&& forall|i: nat| #[trigger] s.vars.contains_key(i) <==> i < k
            &&& forall|i: nat| i < k ==> #[trigger] s.vars[i] == IrType::I32
        }),
    decreases k,
{
    if k > 0 {
        lemma_args(ops, (k - 1) as nat);
        let before = state(args_code(ops, (k - 1) as nat));
        assert forall|i: nat| i < k implies #[trigger] state(args_code(ops, k)).def_here(i)
            == Some(i) by {
            if i < k - 1 {
                assert(before.def_here(i) == Some(i));
            }
        }
    }
}

/// The state of a function before its first statement.
pub open spec fn after_prologue(ty: FunctionType, body: FunctionBody) -> FnState {
    state(prologue_code(ty, body))
}

/// Before its first statement, a function has one block, which is open and sealed; all its
/// arguments are in variables, each of which has a parameter for its value; and there is a stack
/// slot for every other variable.
pub proof fn law_prologue(ty: FunctionType, body: FunctionBody)
    ensures
        ({
            let s = after_prologue(ty, body);
            let args = ty.args@.len();
            &&& open_for_code(s)
            &&& s.blocks == 1
            &&& s.cur == Some(0nat)
            &&& s.sealed.contains(0)
            &&& args + s.slots == var_places(ty, body).len()
            &&& forall|i: nat| #[trigger] s.vars.contains_key(i) <==> i < args
            &&& forall|i: nat| i < args ==> #[trigger] s.vars[i] == IrType::I32
            &&& forall|i: nat| i < args ==> #[trigger] s.def_here(i) == Some(i)
            &&& forall|i: nat| i < args ==> #[trigger] s.has_var(i)
            &&& forall|i: int|
                0 <= i < args ==> i < s.values.len() && #[trigger] s.values[i] == param_types(ty)[i]
        }),
{
    let args = ty.args@.len();
    let start = seq![
        Op::Function {
            namespace: 0,
            index: 0,
            conv: CallConv::SystemV,
            params: param_types(ty),
            returns: return_types(ty),
        },
    ];
    lemma_start(param_types(ty), return_types(ty));
    lemma_slots(start, param_types(ty), body, args, body.var_table@.len());
    let a = slots_code(start, body, args, body.var_table@.len());
    let b = a.push(Op::CreateBlock);
    let c = b.push(Op::FunctionParams { block: 0 });
    let d = enter_code(c, 0);
    assert(state(d).vars =~= Map::<nat, IrType>::empty());
    lemma_args(d, args);
    let s = after_prologue(ty, body);
    assert forall|i: nat| i < args implies #[trigger] s.has_var(i) by {
        assert(s.def_here(i) == Some(i));
    }
}

/// In the end every block of a function is filled and sealed: it ends in a jump or return, and all
/// branches to it are known.
pub proof fn law_function_complete(ty: FunctionType, body: FunctionBody)
    ensures
        state(function_code(ty, body)).complete(),
{
    reveal(follows);
    let a = prologue_code(ty, body);
    law_prologue(ty, body);
    let vars = var_places(ty, body);
    let scopes = seq![Targets::unset(), Targets::unset()];
    law_statements_self_contained(vars, scopes, a, body.code@, body.code@.len());
}

/// A function ends with a return, which comes after the code of all its statements.
pub proof fn law_function_returns(ty: FunctionType, body: FunctionBody)
    ensures
        function_code(ty, body).len() > 0,
        function_code(ty, body).last() == (Op::Return { values: Seq::empty() }),
{
    let a = prologue_code(ty, body);
    law_prologue(ty, body);
    let vars = var_places(ty, body);
    let scopes = seq![Targets::unset(), Targets::unset()];
    law_statements_self_contained(vars, scopes, a, body.code@, body.code@.len());
}

/// A scope that is no loop hides none of the loops around it.
pub proof fn law_blocks_hide_no_loop(scopes: Seq<Targets>)
    ensures
        break_target(scopes.push(Targets::unset())) == break_target(scopes),
        continue_target(scopes.push(Targets::unset())) == continue_target(scopes),
{
    assert(scopes.push(Targets::unset()).drop_last() =~= scopes);
}

/// A loop hides all the loops around it.
pub proof fn law_loops_hide_loops(scopes: Seq<Targets>, on_break: nat, on_continue: nat)
    ensures
        ({
            let inner = scopes.push(
                Targets { on_break: Some(on_break), on_continue: Some(on_continue) },
            );
            &&& break_target(inner) == Some(on_break)
            &&& continue_target(inner) == Some(on_continue)
        }),
{
}

/// The code of a statement enters each of its new blocks once and seals it once.
pub proof fn law_new_blocks_are_entered_and_sealed_once(
    vars: Seq<Place>,
    scopes: Seq<Targets>,
    ops: Seq<Op>,
    stmt: Statement,
    block: nat,
)
    requires
        open_for_code(state(ops)),
        state(ops).blocks <= block < state(stmt_code(vars, scopes, ops, stmt)).blocks,
    ensures
        ({
            let after = stmt_code(vars, scopes, ops, stmt);
            let enter = Op::SwitchTo { block };
            let seal = Op::Seal { block };
            &&& times(after, enter) == times(ops, enter) + 1
            &&& times(after, seal) == times(ops, seal) + 1
        }),
{
    law_statement_self_contained(vars, scopes, ops, stmt);
    reveal(once_each);
    assert(new_once(ops, stmt_code(vars, scopes, ops, stmt), block));
}

/// An expression is a conditional or has one in it.
pub open spec fn has_conditional(n: Node) -> bool
    decreases n, 0nat,
{
    match n.kind {
        NodeKind::StmtList(nodes) => have_conditional(nodes@, nodes@.len()),
        NodeKind::FunctionCall(f, args) => has_conditional(*f) || have_conditional(
            args@,
            args@.len(),
        ),
        NodeKind::Assign(slot, val) => has_conditional(*slot) || has_conditional(*val),
        NodeKind::AssignOp(_, slot, val) => has_conditional(*slot) || has_conditional(*val),
        NodeKind::Cast(_, val) => has_conditional(*val),
        NodeKind::ImplicitCast(_, val) => has_conditional(*val),
        NodeKind::Ternary(_, _, _) => true,
        NodeKind::UniOp(_, val) => has_conditional(*val),
        NodeKind::BinOp(_, left, right) => has_conditional(*left) || has_conditional(*right),
        NodeKind::Index(val, at) => has_conditional(*val) || has_conditional(*at),
        NodeKind::DerefMember(val, _) => has_conditional(*val),
        NodeKind::Member(val, _) => has_conditional(*val),
        _ => false,
    }
}

/// One of the first `k` of `nodes` is a conditional or has one in it.
pub open spec fn have_conditional(nodes: Seq<Node>, k: nat) -> bool
    decreases nodes, k,
{
    if k == 0 || k > nodes.len() {
        false
    } else {
        have_conditional(nodes, (k - 1) as nat) || has_conditional(nodes[k - 1])
    }
}

/// From `a` to `b` there is no new block, and the current one stays the same.
#[verifier::opaque]
spec fn stays(a: Seq<Op>, b: Seq<Op>) -> bool {
    state(b).cur == state(a).cur && state(b).blocks == state(a).blocks
}

proof fn lemma_stays(a: Seq<Op>, b: Seq<Op>, c: Seq<Op>)
    requires
        stays(a, b),
        stays(b, c),
    ensures
        stays(a, c),
{
    reveal(stays);
}

proof fn lemma_read_stays(ops: Seq<Op>, p: Place)
    ensures
        stays(ops, ops),
        stays(ops, read_code(ops, p).0),
{
    reveal(stays);
}

proof fn lemma_assign_stays(ops: Seq<Op>, to: Place, from: Place)
    ensures
        stays(ops, assign_code(ops, to, from)),
{
    reveal(stays);
}

proof fn lemma_cast_stays(ops: Seq<Op>, dst: TypeRef, p: Place, src: TypeRef)
    ensures
        stays(ops, cast_code(ops, dst, p, src).0),
{
    reveal(stays);
}

proof fn lemma_binop_stays(ops: Seq<Op>, p: Place, q: Place, op: BinOp, ty: TypeRef)
    ensures
        ({
            let (a, x) = read_code(ops, p);
            let (b, y) = read_code(a, q);
            stays(ops, binop_code(b, op, ty, x, y).0)
        }),
{
    reveal(stays);
}

proof fn lemma_uniop_stays(ops: Seq<Op>, op: UniOp, p: Place, ty: TypeRef)
    ensures
        stays(ops, uniop_code(ops, op, p, ty).0),
{
    reveal(stays);
}

/// An expression without a conditional adds no block, and its code stays in the current one.
pub proof fn law_only_conditionals_leave_the_block(vars: Seq<Place>, ops: Seq<Op>, n: Node)
    requires
        !has_conditional(n),
    ensures
        state(node_code(vars, ops, n).0).cur == state(ops).cur,
        state(node_code(vars, ops, n).0).blocks == state(ops).blocks,
{
    lemma_node_stays(vars, ops, n);
    reveal(stays);
}

proof fn lemma_node_stays(vars: Seq<Place>, ops: Seq<Op>, n: Node)
    requires
        !has_conditional(n),
    ensures
        stays(ops, node_code(vars, ops, n).0),
    decreases n, 0nat,
{
    lemma_read_stays(ops, Place::Temporary(0));
    match n.kind {
        NodeKind::StmtList(nodes) => {
            lemma_nodes_stay(vars, ops, nodes@, nodes@.len());
        },
        NodeKind::Integer(val, _) => {
            reveal(stays);
        },
        NodeKind::Assign(slot, val) => {
            let (a, to) = node_code(vars, ops, *slot);
            let (b, from) = node_code(vars, a, *val);
            lemma_node_stays(vars, ops, *slot);
            lemma_node_stays(vars, a, *val);
            lemma_assign_stays(b, to, from);
            lemma_stays(ops, a, b);
            lemma_stays(ops, b, assign_code(b, to, from));
        },
        NodeKind::AssignOp(op, slot, val) => {
            let (a, to) = node_code(vars, ops, *slot);
            let (b, from) = node_code(vars, a, *val);
            lemma_node_stays(vars, ops, *slot);
            lemma_node_stays(vars, a, *val);
            let (c, x) = read_code(b, to);
            let (d, y) = read_code(c, from);
            let (e, r) = binop_code(d, op, type_of(*val)->0, x, y);
            lemma_binop_stays(b, to, from, op, type_of(*val)->0);
            lemma_assign_stays(e, to, Place::Temporary(r));
            lemma_stays(ops, a, b);
            lemma_stays(ops, b, e);
            lemma_stays(ops, e, assign_code(e, to, Place::Temporary(r)));
        },
        NodeKind::Cast(ty, val) => {
            let (a, p) = node_code(vars, ops, *val);
            lemma_node_stays(vars, ops, *val);
            lemma_cast_stays(a, ty, p, type_of(*val)->0);
            lemma_stays(ops, a, cast_code(a, ty, p, type_of(*val)->0).0);
        },
        NodeKind::ImplicitCast(ty, val) => {
            let (a, p) = node_code(vars, ops, *val);
            lemma_node_stays(vars, ops, *val);
            lemma_cast_stays(a, ty, p, type_of(*val)->0);
            lemma_stays(ops, a, cast_code(a, ty, p, type_of(*val)->0).0);
        },
        NodeKind::UniOp(op, val) => {
            let (a, p) = node_code(vars, ops, *val);
            lemma_node_stays(vars, ops, *val);
            lemma_uniop_stays(a, op, p, type_of(*val)->0);
            lemma_stays(ops, a, uniop_code(a, op, p, type_of(*val)->0).0);
        },
        NodeKind::BinOp(op, left, right) => {
            let (a, p) = node_code(vars, ops, *left);
            let (b, q) = node_code(vars, a, *right);
            lemma_node_stays(vars, ops, *left);
            lemma_node_stays(vars, a, *right);
            lemma_binop_stays(b, p, q, op, type_of(*left)->0);
            lemma_stays(ops, a, b);
            lemma_stays(ops, b, node_code(vars, ops, n).0);
        },
        NodeKind::Member(val, _) => {
            lemma_node_stays(vars, ops, *val);
        },
        _ => {},
    }
}

proof fn lemma_nodes_stay(vars: Seq<Place>, ops: Seq<Op>, nodes: Seq<Node>, k: nat)
    requires
        !have_conditional(nodes, k),
    ensures
        stays(ops, nodes_code(vars, ops, nodes, k).0),
    decreases nodes, k,
{
    lemma_read_stays(ops, Place::Temporary(0));
    if k > 0 && k <= nodes.len() {
        let (a, _) = nodes_code(vars, ops, nodes, (k - 1) as nat);
        lemma_nodes_stay(vars, ops, nodes, (k - 1) as nat);
        lemma_node_stays(vars, a, nodes[k - 1]);
        lemma_stays(ops, a, node_code(vars, a, nodes[k - 1]).0);
    }
}

/// An `if` without an else arm comes to the code of one with an empty else arm, and can be lowered
/// where that one can.
pub proof fn law_missing_else_is_empty_else(
    vars: Seq<Place>,
    scopes: Seq<Targets>,
    ops: Seq<Op>,
    cond: ExprOrDef,
    true_arm: StatementList,
    empty: StatementList,
)
    requires
        empty@.len() == 0,
    ensures
        ({
            let without = Statement::IfStatement { cond, true_arm, else_arm: None };
            let with = Statement::IfStatement { cond, true_arm, else_arm: Some(empty) };
            &&& stmt_code(vars, scopes, ops, without) == stmt_code(vars, scopes, ops, with)
            &&& forall|breaks: bool, continues: bool| #[trigger]
                stmt_ok(shapes(vars), breaks, continues, without) == stmt_ok(
                    shapes(vars),
                    breaks,
                    continues,
                    with,
                )
        }),
{
}

/// A binary operation comes to one instruction, on its operands in order; its value is what the
/// instruction yields, and the code stays in the current block.
pub proof fn law_binary_operations_are_one_instruction(
    ops: Seq<Op>,
    op: BinOp,
    ty: TypeRef,
    x: nat,
    y: nat,
)
    requires
        binop_inst(op, ty) is Some,
    ensures
        ({
            let (after, r) = binop_code(ops, op, ty, x, y);
            &&& after == ops.push(Op::Binary { inst: binop_inst(op, ty)->0, x, y })
            &&& r == state(ops).values.len()
            &&& state(after).values.len() == r + 1
            &&& state(after).cur == state(ops).cur
            &&& state(after).blocks == state(ops).blocks
        }),
{
}

/// Going on in a block that no variable has been looked for in adds no value; `all` of the code
/// holds it as a part.
pub proof fn law_entering_adds_no_value(ops: Seq<Op>, all: Seq<Op>, block: nat)
    requires
        sound_throughout(all),
        extends(enter_code(ops, block), all),
        !state(ops).searched.contains(block),
    ensures
        state(enter_code(ops, block)).values == state(ops).values,
{
    reveal(sound_throughout);
    let entered = ops.push(Op::SwitchTo { block });
    let after = enter_code(ops, block);
    let k = entered.len() as int;
    assert(all.take(k) =~= entered) by {
        assert forall|j: int| 0 <= j < k implies all[j] == entered[j] by {
            assert(all[j] == after[j]);
        }
    }
    assert(all[k] == after[k]);
    assert(state(after).values =~= state(ops).values);
}

/// Some statements after others come to the code of all of them at once.
pub proof fn law_statements_in_sequence(
    vars: Seq<Place>,
    scopes: Seq<Targets>,
    ops: Seq<Op>,
    front: Seq<Statement>,
    back: Seq<Statement>,
)
    ensures
        stmts_code(vars, scopes, ops, front + back, front.len() + back.len()) == stmts_code(
            vars,
            scopes,
            stmts_code(vars, scopes, ops, front, front.len()),
            back,
            back.len(),
        ),
{
    lemma_front(vars, scopes, ops, front, back, front.len());
    lemma_back(vars, scopes, ops, front, back, back.len());
}

proof fn lemma_front(
    vars: Seq<Place>,
    scopes: Seq<Targets>,
    ops: Seq<Op>,
    front: Seq<Statement>,
    back: Seq<Statement>,
    k: nat,
)
    requires
        k <= front.len(),
    ensures
        stmts_code(vars, scopes, ops, front + back, k) == stmts_code(vars, scopes, ops, front, k),
    decreases k,
{
    if k > 0 {
        lemma_front(vars, scopes, ops, front, back, (k - 1) as nat);
    }
}

proof fn lemma_back(
    vars: Seq<Place>,
    scopes: Seq<Targets>,
    ops: Seq<Op>,
    front: Seq<Statement>,
    back: Seq<Statement>,
    k: nat,
)
    requires
        k <= back.len(),
        stmts_code(vars, scopes, ops, front + back, front.len()) == stmts_code(
            vars,
            scopes,
            ops,
            front,
            front.len(),
        ),
    ensures
        stmts_code(vars, scopes, ops, front + back, front.len() + k) == stmts_code(
            vars,
            scopes,
            stmts_code(vars, scopes, ops, front, front.len()),
            back,
            k,
        ),
    decreases k,
{
    if k > 0 {
        lemma_back(vars, scopes, ops, front, back, (k - 1) as nat);
        assert((front + back)[front.len() + k - 1] == back[k - 1]);
    }
}

/// What comes after a `break`, `continue` or `return` goes into a block that is there for nothing
/// else, and that no branch can ever go to.
pub proof fn law_code_after_a_jump_is_unreached(
    vars: Seq<Place>,
    scopes: Seq<Targets>,
    ops: Seq<Op>,
    stmt: Statement,
)
    requires
        open_for_code(state(ops)),
        stmt is Break || stmt is Continue || stmt is Return,
    ensures
        ({
            let s = state(stmt_code(vars, scopes, ops, stmt));
            &&& s.cur == Some((s.blocks - 1) as nat)
            &&& s.blocks > state(ops).blocks
            &&& s.filled.contains(state(ops).cur->0)
            &&& !s.can_target(s.cur->0)
        }),
{
    reveal(follows);
    law_statement_self_contained(vars, scopes, ops, stmt);
    if let Statement::Return(Some(n)) = stmt {
        let (a, p) = node_code(vars, ops, n);
        law_expression_self_contained(vars, ops, n);
        lemma_read(a, p);
        lemma_goes_on(ops, a, read_code(a, p).0);
    }
}

/// Once a block is sealed, no branch to it follows.
pub proof fn law_sealed_blocks_get_no_branch(ops: Seq<Op>, block: nat, i: int, j: int)
    requires
        sound_throughout(ops),
        0 < i < j < ops.len(),
        ops[i] == (Op::Seal { block }),
    ensures
        ops[j] != (Op::Jump { block }),
        ops[j] matches Op::Brz { block: to, .. } ==> to != block,
{
    reveal(sound_throughout);
    lemma_stays_sealed(ops, block, i, j);
    assert(state(ops.take(j)).legal(ops[j]));
}

proof fn lemma_stays_sealed(ops: Seq<Op>, block: nat, i: int, j: int)
    requires
        sound_throughout(ops),
        0 < i < j <= ops.len(),
        ops[i] == (Op::Seal { block }),
    ensures
        state(ops.take(j)).sealed.contains(block),
    decreases j,
{
    reveal(sound_throughout);
    assert(ops.take(j) =~= ops.take(j - 1).push(ops[j - 1]));
    if j - 1 > i {
        lemma_stays_sealed(ops, block, i, j - 1);
        assert(state(ops.take(j - 1)).legal(ops[j - 1]));
    }
}

/// An implicit cast comes to the code of the same cast written out.
pub proof fn law_implicit_casts_are_casts(
    vars: Seq<Place>,
    ops: Seq<Op>,
    implicit: Node,
    explicit: Node,
    ty: TypeRef,
    val: Box<Node>,
)
    requires
        implicit.kind == NodeKind::ImplicitCast(ty, val),
        explicit.kind == NodeKind::Cast(ty, val),
    ensures
        node_code(vars, ops, implicit) == node_code(vars, ops, explicit),
        node_shape(shapes(vars), &implicit) == node_shape(shapes(vars), &explicit),
{
}

/// A cast to a type that is held in the same SSA values adds nothing to reading the value.
pub proof fn law_casts_to_the_same_type_add_nothing(
    ops: Seq<Op>,
    dst: TypeRef,
    p: Place,
    src: TypeRef,
)
    requires
        ir_type(src) is Some,
        ir_type(src) == ir_type(dst),
        p.shape().readable(),
    ensures
        castable(p.shape(), src, dst),
        cast_code(ops, dst, p, src) == read_code(ops, p),
{
}

/// Casting a value once more to the type that it was cast to adds nothing and yields the same.
pub proof fn law_casts_are_idempotent(ops: Seq<Op>, dst: TypeRef, p: Place, src: TypeRef)
    requires
        castable(p.shape(), src, dst),
    ensures
        ({
            let (after, r) = cast_code(ops, dst, p, src);
            &&& castable(Shape::Temporary, dst, dst)
            &&& cast_code(after, dst, Place::Temporary(r), dst) == (after, r)
        }),
{
}

/// A value that has the type it is cast from has the type it is cast to afterwards.
pub proof fn law_casts_yield_the_type(ops: Seq<Op>, dst: TypeRef, v: nat, src: TypeRef)
    requires
        state(ops).has_value(v),
        ir_type(src) == Some(state(ops).values[v as int]),
        castable(Shape::Temporary, src, dst),
    ensures
        ({
            let (after, r) = cast_code(ops, dst, Place::Temporary(v), src);
            &&& state(after).has_value(r)
            &&& ir_type(dst) == Some(state(after).values[r as int])
        }),
{
}

/// No cast gives an integer more bits.
pub proof fn law_casts_never_widen_integers(src: IrType, dst: IrType)
    requires
        int_bits(src) is Some,
        int_bits(dst) is Some,
    ensures
        cast_inst(src, dst) is Some <==> int_bits(src)->0 >= int_bits(dst)->0,
{
}

/// Stepping a value before or after it is used comes to the same code; what differs is which of
/// the two values is used.
pub proof fn law_steps_differ_in_their_value(ops: Seq<Op>, p: Place, ty: TypeRef)
    ensures
        uniop_code(ops, UniOp::PreInc, p, ty).0 == uniop_code(ops, UniOp::PostInc, p, ty).0,
        uniop_code(ops, UniOp::PreDec, p, ty).0 == uniop_code(ops, UniOp::PostDec, p, ty).0,
        uniop_code(ops, UniOp::PostInc, p, ty).1 == Place::Temporary(read_code(ops, p).1),
        uniop_code(ops, UniOp::PostDec, p, ty).1 == Place::Temporary(read_code(ops, p).1),
        uniop_code(ops, UniOp::PreInc, p, ty).1 == Place::Temporary(
            next_value(read_code(ops, p).0),
        ),
        uniop_code(ops, UniOp::PreDec, p, ty).1 == Place::Temporary(
            next_value(read_code(ops, p).0),
        ),
{
}

/// What is read from a place in memory is read from where an assignment puts it, as a value of the
/// place's type.
pub proof fn law_places_are_read_where_they_are_written(ops: Seq<Op>, to: Place, v: nat)
    requires
        to.shape().in_memory(),
        to.shape().readable(),
    ensures
        ({
            let written = assign_code(ops, to, Place::Temporary(v));
            let (read, r) = read_code(written, to);
            &&& match (to, written.last(), read.last()) {
                (
                    Place::StackSlot(_, _, place_ty),
                    Op::StackStore { x, slot, offset },
                    Op::StackLoad { ty, slot: from, offset: at },
                ) => x == v && slot == from && offset == at && Some(ty) == ir_type(place_ty),
                (
                    Place::Pointer(_, _, place_ty),
                    Op::Store { x, p, offset },
                    Op::Load { ty, p: from, offset: at },
                ) => x == v && p == from && offset == at && Some(ty) == ir_type(place_ty),
                _ => false,
            }
            &&& state(read).has_value(r)
            &&& match to {
                Place::StackSlot(_, _, place_ty) => ir_type(place_ty),
                Place::Pointer(_, _, place_ty) => ir_type(place_ty),
                _ => None,
            } == Some(state(read).values[r as int])
        }),
{
}

/// The value of an assignment is found where it was put.
pub proof fn law_assignments_yield_their_target(
    vars: Seq<Place>,
    ops: Seq<Op>,
    n: Node,
    slot: Box<Node>,
    val: Box<Node>,
)
    requires
        n.kind == NodeKind::Assign(slot, val),
    ensures
        node_code(vars, ops, n).1 == node_code(vars, ops, *slot).1,
{
}

/// In the first block of a function, an argument is read as the parameter that it is: after the
/// code that `ops` hold so far, and as a part of `all` of the code, reading the argument `i` adds
/// no value and yields the parameter.
pub proof fn law_arguments_are_read_as_parameters(
    ty: FunctionType,
    body: FunctionBody,
    ops: Seq<Op>,
    all: Seq<Op>,
    i: nat,
)
    requires
        sound_throughout(all),
        goes_on(prologue_code(ty, body), ops),
        state(ops).cur == Some(0nat),
        extends(read_code(ops, Place::Variable(i)).0, all),
        i < ty.args@.len(),
    ensures
        ({
            let (after, value) = read_code(ops, Place::Variable(i));
            &&& value == i
            &&& state(after).values == state(ops).values
        }),
{
    law_prologue(ty, body);
    reveal(follows);
    reveal(sound_throughout);
    let k = ops.len() as int;
    assert(prologue_code(ty, body).len() > 0) by {
        reveal(state);
    }
    let after = ops.push(Op::UseVar { var: i });
    assert(all.take(k) =~= ops) by {
        assert forall|j: int| 0 <= j < k implies all[j] == ops[j] by {
            assert(all[j] == after[j]);
        }
    }
    assert(all[k] == after[k]);
    assert(after_prologue(ty, body).def_here(i) == Some(i));
    assert(state(ops).def_here(i) == Some(i));
}

/// A loop tests the value of its condition itself: at its head the code of the condition comes,
/// and right after it a branch to the exit when the value read is zero, and a jump to the body.
pub proof fn law_loops_test_their_condition(
    vars: Seq<Place>,
    scopes: Seq<Targets>,
    ops: Seq<Op>,
    n: Node,
    body: StatementList,
)
    requires
        open_for_code(state(ops)),
    ensures
        ({
            let stmt = Statement::WhileLoop { cond: ExprOrDef::Expr(n), body };
            let code = stmt_code(vars, scopes, ops, stmt);
            let head = ops.len() as int + 5;
            let top = state(ops).blocks;
            let (computed, place) = node_code(vars, code.take(head), n);
            let (tested, v) = read_code(computed, place);
            let at = tested.len() as int;
            &&& code.len() > at + 2
            &&& code.take(at) == tested
            &&& code[head - 1] == (Op::SwitchTo { block: top })
            &&& code[at] == (Op::Brz { c: v, block: top + 2 })
            &&& code[at + 1] == (Op::Jump { block: top + 1 })
            &&& code[at + 2] == (Op::SwitchTo { block: top + 1 })
            &&& code[code.len() - 2] == (Op::SwitchTo { block: top + 2 })
        }),
{
    let stmt = Statement::WhileLoop { cond: ExprOrDef::Expr(n), body };
    let first = state(ops).blocks;
    let inner = scopes.push(
        Targets { on_break: Some(first), on_continue: Some(first + 2) },
    ).push(Targets::unset());
    let head = loop_head(ops);
    lemma_loop_head(ops);
    let (tested, v) = cond_code(vars, head, ExprOrDef::Expr(n));
    lemma_cond(vars, head, ExprOrDef::Expr(n));
    let start = loop_body(tested, first, v);
    lemma_loop_body(ops, tested, v);
    let end = stmts_code(vars, inner, start, body@, body@.len());
    law_statements_self_contained(vars, inner, start, body@, body@.len());
    let code = stmt_code(vars, scopes, ops, stmt);
    assert(code == loop_end(end, first));
    assert forall|i: int| 0 <= i < start.len() implies #[trigger] code[i] == start[i] by {
        assert(end[i] == start[i]);
    }
    assert forall|i: int| 0 <= i < tested.len() implies #[trigger] code[i] == tested[i] by {
        assert(start[i] == tested[i]);
    }
    assert forall|i: int| 0 <= i < head.len() implies #[trigger] code[i] == head[i] by {
        assert(tested[i] == head[i]);
    }
    assert(code.take(head.len() as int) =~= head);
    assert(code.take(tested.len() as int) =~= tested);
    let at = tested.len() as int;
    assert(code[at] == start[at] && code[at + 1] == start[at + 1] && code[at + 2] == start[at + 2]);
}

/// The value of a conditional expression is a choice by the value of its condition: first comes
/// what was read in the arm for a condition that is not zero, then what was read in the other.
pub proof fn law_conditionals_choose_by_their_condition(
    vars: Seq<Place>,
    ops: Seq<Op>,
    n: Node,
    cond: Box<Node>,
    yes: Box<Node>,
    no: Box<Node>,
)
    requires
        open_for_code(state(ops)),
        n.kind == NodeKind::Ternary(cond, yes, no),
    ensures
        ({
            let (code, place) = node_code(vars, ops, n);
            let (computed, at) = node_code(vars, ops, *cond);
            let (tested, c) = read_code(computed, at);
            let first = tested.len() as int;
            let block = state(tested).blocks;
            let (one, left) = node_code(vars, code.take(first + 7), *yes);
            let (read_one, x) = read_code(one, left);
            let second = read_one.len() as int;
            let (two, right) = node_code(vars, code.take(second + 3), *no);
            let (read_two, y) = read_code(two, right);
            &&& code.len() > second + 3
            &&& code[first + 3] == (Op::Brz { c, block: block + 1 })
            &&& code[first + 4] == (Op::Jump { block })
            &&& code[first + 5] == (Op::SwitchTo { block })
            &&& code[second + 1] == (Op::SwitchTo { block: block + 1 })
            &&& code.last() == (Op::Select { c, x, y })
            &&& place == Place::Temporary(next_value(code.drop_last()))
        }),
{
    let (computed, at) = node_code(vars, ops, *cond);
    law_expression_self_contained(vars, ops, *cond);
    let (tested, c) = read_code(computed, at);
    lemma_read(computed, at);
    lemma_goes_on(ops, computed, tested);
    let block = state(tested).blocks;
    let first = first_arm(tested, c);
    lemma_first_arm(tested, c);
    let (one, left) = node_code(vars, first, *yes);
    law_expression_self_contained(vars, first, *yes);
    let (read_one, x) = read_code(one, left);
    lemma_read(one, left);
    lemma_goes_on(first, one, read_one);
    let second = end_arm(read_one, block, block + 1);
    lemma_second_arm(tested, c, read_one);
    let (two, right) = node_code(vars, second, *no);
    law_expression_self_contained(vars, second, *no);
    let (read_two, y) = read_code(two, right);
    lemma_read(two, right);
    lemma_goes_on(second, two, read_two);
    let done = end_arm(read_two, block, block + 2);
    let (code, place) = node_code(vars, ops, n);
    assert(code == done.push(Op::Select { c, x, y }));
    assert(code.drop_last() =~= done);
    assert forall|i: int| 0 <= i < second.len() implies #[trigger] code[i] == second[i] by {
        assert(read_two[i] == second[i]);
    }
    assert forall|i: int| 0 <= i < first.len() implies #[trigger] code[i] == first[i] by {
        assert(read_one[i] == first[i]);
        assert(second[i] == read_one[i]);
    }
    assert(code.take(first.len() as int) =~= first);
    assert(code.take(second.len() as int) =~= second);
    let k = tested.len() as int;
    assert(code[k + 3] == first[k + 3] && code[k + 4] == first[k + 4] && code[k + 5] == first[k
        + 5]);
    let l = read_one.len() as int;
    assert(code[l + 1] == second[l + 1]);
}

/// A compound assignment ends with the operation on what was read from its two operands, and a
/// store of the result to the very place that the left one was read from.
pub proof fn law_compound_assignments_write_where_they_read(
    vars: Seq<Place>,
    ops: Seq<Op>,
    n: Node,
    op: BinOp,
    slot: Box<Node>,
    val: Box<Node>,
)
    requires
        n.kind == NodeKind::AssignOp(op, slot, val),
        node_shape(shapes(vars), &n) is Some,
    ensures
        ({
            let (code, place) = node_code(vars, ops, n);
            let (a, to) = node_code(vars, ops, *slot);
            let (b, from) = node_code(vars, a, *val);
            let (read_left, x) = read_code(b, to);
            let (read_right, y) = read_code(read_left, from);
            let result = next_value(read_right);
            let inst = binop_inst(op, type_of(*val)->0)->0;
            &&& place == to
            &&& code.len() == read_right.len() + 2
            &&& code.drop_last().drop_last() == read_right
            &&& code[code.len() - 2] == (Op::Binary { inst, x, y })
            &&& match to {
                Place::StackSlot(base, ofs, _) => code.last() == (Op::StackStore {
                    x: result,
                    slot: base,
                    offset: ofs as i32,
                }),
                Place::Pointer(base, ofs, _) => code.last() == (Op::Store {
                    x: result,
                    p: base,
                    offset: ofs as i32,
                }),
                _ => false,
            }
            &&& match (to, read_left.last()) {
                (Place::StackSlot(base, ofs, _), Op::StackLoad { slot: of, offset, .. }) => of
                    == base && offset == ofs as i32,
                (Place::Pointer(base, ofs, _), Op::Load { p, offset, .. }) => p == base && offset
                    == ofs as i32,
                _ => false,
            }
        }),
{
    law_places_as_foretold(vars, ops, *slot);
    let (a, to) = node_code(vars, ops, *slot);
    let (b, from) = node_code(vars, a, *val);
    let (read_left, x) = read_code(b, to);
    let (read_right, y) = read_code(read_left, from);
    let code = node_code(vars, ops, n).0;
    assert(code.drop_last().drop_last() =~= read_right);
}

/// A member is found with its struct: in the same stack slot, or behind the same pointer, as much
/// further as the type of the struct says; and no code is needed to find it.
pub proof fn law_members_are_within_their_structs(
    vars: Seq<Place>,
    ops: Seq<Op>,
    n: Node,
    val: Box<Node>,
    name: String,
)
    requires
        n.kind == NodeKind::Member(val, name),
        node_shape(shapes(vars), &n) is Some,
    ensures
        ({
            let (code, place) = node_code(vars, ops, n);
            let (of_struct, whole) = node_code(vars, ops, *val);
            let ty = type_of(*val)->0;
            let (ofs, field_ty) = ty.field(name@)->0;
            &&& type_of(*val) is Some
            &&& ty.field(name@) is Some
            &&& code == of_struct
            &&& match (whole, place) {
                (Place::StackSlot(slot, base, _), Place::StackSlot(same, at, what)) => same == slot
                    && at == base + ofs && what == field_ty,
                (Place::Pointer(p, base, _), Place::Pointer(same, at, what)) => same == p && at
                    == base + ofs && what == field_ty,
                _ => false,
            }
        }),
{
    law_places_as_foretold(vars, ops, *val);
}

/// Some definitions after others come to the code of all of them at once.
pub proof fn law_definitions_in_sequence(
    vars: Seq<Place>,
    ops: Seq<Op>,
    front: Seq<VariableDefinition>,
    back: Seq<VariableDefinition>,
    k: nat,
)
    requires
        k <= back.len(),
    ensures
        defs_code(vars, ops, front + back, front.len() + k) == defs_code(
            vars,
            defs_code(vars, ops, front, front.len()),
            back,
            k,
        ),
    decreases k,
{
    if k == 0 {
        lemma_front_defs(vars, ops, front, back, front.len());
    } else {
        law_definitions_in_sequence(vars, ops, front, back, (k - 1) as nat);
        assert((front + back)[front.len() + k - 1] == back[k - 1]);
    }
}

proof fn lemma_front_defs(
    vars: Seq<Place>,
    ops: Seq<Op>,
    front: Seq<VariableDefinition>,
    back: Seq<VariableDefinition>,
    k: nat,
)
    requires
        k <= front.len(),
    ensures
        defs_code(vars, ops, front + back, k) == defs_code(vars, ops, front, k),
    decreases k,
{
    if k > 0 {
        lemma_front_defs(vars, ops, front, back, (k - 1) as nat);
    }
}

/// The code of a list of definitions ends with that of the last of them; where this one gives its
/// variable a value, with a store of the value to where the variable is.
pub proof fn law_definitions_store_their_values(
    vars: Seq<Place>,
    ops: Seq<Op>,
    defs: Seq<VariableDefinition>,
    k: nat,
    n: Node,
)
    requires
        0 < k <= defs.len(),
        def_ok(shapes(vars), defs[k - 1]),
        defs[k - 1].value == Initialiser::Value(n),
    ensures
        ({
            let before = defs_code(vars, ops, defs, (k - 1) as nat);
            let code = defs_code(vars, ops, defs, k);
            let (computed, place) = node_code(vars, before, n);
            let (read, v) = read_code(computed, place);
            &&& code.len() == read.len() + 1
            &&& code.drop_last() == read
            &&& match vars[defs[k - 1].index->0 as int] {
                Place::StackSlot(slot, ofs, _) => code.last() == (Op::StackStore {
                    x: v,
                    slot,
                    offset: ofs as i32,
                }),
                Place::Pointer(p, ofs, _) => code.last() == (Op::Store {
                    x: v,
                    p,
                    offset: ofs as i32,
                }),
                _ => false,
            }
        }),
{
    let before = defs_code(vars, ops, defs, (k - 1) as nat);
    let (computed, place) = node_code(vars, before, n);
    let read = read_code(computed, place).0;
    let idx = defs[k - 1].index->0 as int;
    assert(shapes(vars)[idx] == vars[idx].shape());
    assert(defs_code(vars, ops, defs, k).drop_last() =~= read);
}

/// A value is read by what its place says, and by nothing else.
pub proof fn law_places_say_how_they_are_read(
    ops: Seq<Op>,
    slot: nat,
    v: nat,
    ofs: u32,
    ty: TypeRef,
)
    requires
        ir_type(ty) is Some,
    ensures
        read_code(ops, Place::Temporary(v)) == (ops, v),
        read_code(ops, Place::StackSlot(slot, ofs, ty)) == (
            ops.push(Op::StackLoad { ty: ir_type(ty)->0, slot, offset: ofs as i32 }),
            next_value(ops),
        ),
        read_code(ops, Place::Pointer(v, ofs, ty)) == (
            ops.push(Op::Load { ty: ir_type(ty)->0, p: v, offset: ofs as i32 }),
            next_value(ops),
        ),
{
}

/// Signed integers, of any size and class: they are compared by their signs, divided and shifted.
pub proof fn law_signed_operations(ty: TypeRef, class: IntClass)
    requires
        ty.basetype == BaseType::Integer(class),
        class.sign() is Signed,
    ensures
        forall|op: BinOp| #[trigger]
            binop_inst(op, ty) == match op {
                BinOp::CmpLt => Some(BinInst::IntCompare(IntCC::SignedLessThan)),
                BinOp::CmpGt => Some(BinInst::IntCompare(IntCC::SignedGreaterThan)),
                BinOp::CmpEqu => Some(BinInst::IntCompare(IntCC::Equal)),
                BinOp::CmpNEqu => Some(BinInst::IntCompare(IntCC::NotEqual)),
                BinOp::Div => Some(BinInst::Sdiv),
                BinOp::Mod => Some(BinInst::Srem),
                BinOp::ShiftLeft => Some(BinInst::Ishl),
                _ => None,
            },
{
}

/// Unsigned integers, of any size and class, and pointers: they are compared without signs, added,
/// and combined bit by bit.
pub proof fn law_unsigned_operations(ty: TypeRef)
    requires
        ty.basetype is Pointer || (ty.basetype matches BaseType::Integer(class) && class.sign()
            is Unsigned),
    ensures
        forall|op: BinOp| #[trigger]
            binop_inst(op, ty) == match op {
                BinOp::CmpLt => Some(BinInst::IntCompare(IntCC::UnsignedLessThan)),
                BinOp::CmpGt => Some(BinInst::IntCompare(IntCC::UnsignedGreaterThan)),
                BinOp::Add => Some(BinInst::Iadd),
                BinOp::BitAnd => Some(BinInst::Band),
                BinOp::BitOr => Some(BinInst::Bor),
                _ => None,
            },
{
}

/// Floating-point numbers are compared, truth values combined, and on nothing else there are binary
/// operations.
pub proof fn law_other_operations(ty: TypeRef)
    requires
        !(ty.basetype is Pointer),
        !(ty.basetype is Integer),
    ensures
        forall|op: BinOp| #[trigger]
            binop_inst(op, ty) == match (op, ty.basetype) {
                (BinOp::CmpLt, BaseType::Float(_)) => Some(
                    BinInst::FloatCompare(FloatCC::LessThan),
                ),
                (BinOp::CmpGt, BaseType::Float(_)) => Some(
                    BinInst::FloatCompare(FloatCC::GreaterThan),
                ),
                (BinOp::LogicOr, BaseType::Bool) => Some(BinInst::Bor),
                _ => None,
            },
{
}

/// The sign of an integer is that of its class.
pub proof fn law_signs(sign: Signedness, bits: u8)
    ensures
        IntClass::Bits(sign, bits).sign() == sign,
        IntClass::Char(sign).sign() == sign,
        IntClass::Short(sign).sign() == sign,
        IntClass::Int(sign).sign() == sign,
        IntClass::Long(sign).sign() == sign,
        IntClass::LongLong(sign).sign() == sign,
{
}

/// An integer is held in an SSA value of its size, where there are such values; a pointer in one
/// of 32 bits, and a truth value in one of eight. Nothing else is held in SSA values.
pub proof fn law_types_of_values(ty: TypeRef)
    ensures
        ty.basetype is Pointer ==> ir_type(ty) == Some(IrType::I32),
        ty.basetype is Bool ==> ir_type(ty) == Some(IrType::B8),
        ty.basetype is Integer ==> {
            &&& ir_type(ty) is Some <==> ty.size == Some(2u32) || ty.size == Some(4u32) || ty.size
                == Some(8u32)
            &&& ir_type(ty) is Some ==> int_bits(ir_type(ty)->0) == Some(8 * ty.size->0 as int)
        },
        !(ty.basetype is Pointer || ty.basetype is Bool || ty.basetype is Integer) ==> ir_type(
            ty,
        ) is None,
{
}

/// Which instruction a cast takes follows from the widths: none if nothing changes, one that cuts
/// off for a narrower integer, and one that extends for a truth value.
pub proof fn law_casts_go_by_width(src: IrType, dst: IrType)
    ensures
        src == dst && src != IrType::B1 ==> cast_inst(src, dst) == Some(CastInst::Keep),
        src == IrType::B8 && int_bits(dst) is Some && dst != IrType::I8 ==> cast_inst(src, dst)
            == Some(CastInst::Uextend),
        int_bits(src) is Some && int_bits(dst) is Some && int_bits(src)->0 > int_bits(dst)->0
            ==> cast_inst(src, dst) == Some(CastInst::Ireduce),
        cast_inst(src, dst) is Some ==> src != IrType::B1 && dst != IrType::B1,
{
}

/// A place can be read if its value can be held in an SSA value, and be written if it is in memory.
pub proof fn law_places_that_can_be_read_and_written(ofs: u32, ty: TypeRef)
    ensures
        Shape::Temporary.readable() && !Shape::Temporary.in_memory(),
        Shape::Variable.readable() && !Shape::Variable.in_memory(),
        Shape::StackSlot(ofs, &ty).readable() <==> ir_type(ty) is Some,
        Shape::Pointer(ofs, &ty).readable() <==> ir_type(ty) is Some,
        Shape::StackSlot(ofs, &ty).in_memory() && Shape::Pointer(ofs, &ty).in_memory(),
{
}

/// Which assignments can be lowered: what is in memory is assigned what is not.
pub proof fn law_assignments_that_can_be_lowered(
    vars: Seq<Shape>,
    n: Node,
    slot: Box<Node>,
    val: Box<Node>,
)
    requires
        n.kind == NodeKind::Assign(slot, val),
    ensures
        node_shape(vars, &n) is Some <==> {
            &&& node_shape(vars, &*slot) matches Some(to) && to.in_memory()
            &&& node_shape(vars, &*val) matches Some(from) && !from.in_memory()
        },
        node_shape(vars, &n) is Some ==> node_shape(vars, &n) == node_shape(vars, &*slot),
{
}

/// Which compound assignments can be lowered: those on a value in memory, both operands of which
/// can be read, and for which there is an instruction.
pub proof fn law_compound_assignments_that_can_be_lowered(
    vars: Seq<Shape>,
    n: Node,
    op: BinOp,
    slot: Box<Node>,
    val: Box<Node>,
)
    requires
        n.kind == NodeKind::AssignOp(op, slot, val),
    ensures
        node_shape(vars, &n) is Some <==> {
            &&& node_shape(vars, &*slot) matches Some(to) && to.in_memory() && to.readable()
            &&& node_shape(vars, &*val) matches Some(from) && from.readable()
            &&& type_of(*val) matches Some(ty) && binop_inst(op, ty) is Some
        },
        node_shape(vars, &n) is Some ==> node_shape(vars, &n) == node_shape(vars, &*slot),
{
}

/// Which binary operations can be lowered: those whose operands can be read, and for which there is
/// an instruction.
pub proof fn law_operations_that_can_be_lowered(
    vars: Seq<Shape>,
    n: Node,
    op: BinOp,
    left: Box<Node>,
    right: Box<Node>,
)
    requires
        n.kind == NodeKind::BinOp(op, left, right),
    ensures
        node_shape(vars, &n) is Some <==> {
            &&& node_shape(vars, &*left) matches Some(x) && x.readable()
            &&& node_shape(vars, &*right) matches Some(y) && y.readable()
            &&& type_of(*left) matches Some(ty) && binop_inst(op, ty) is Some
        },
        node_shape(vars, &n) is Some ==> node_shape(vars, &n) == Some(Shape::Temporary),
{
}

/// Which conditional expressions can be lowered: those of values that can be read.
pub proof fn law_conditionals_that_can_be_lowered(
    vars: Seq<Shape>,
    n: Node,
    cond: Box<Node>,
    yes: Box<Node>,
    no: Box<Node>,
)
    requires
        n.kind == NodeKind::Ternary(cond, yes, no),
    ensures
        node_shape(vars, &n) is Some <==> {
            &&& node_shape(vars, &*cond) matches Some(c) && c.readable()
            &&& node_shape(vars, &*yes) matches Some(x) && x.readable()
            &&& node_shape(vars, &*no) matches Some(y) && y.readable()
            &&& n.meta matches Some(meta) && !meta.is_lvalue
        },
        node_shape(vars, &n) is Some ==> node_shape(vars, &n) == Some(Shape::Temporary),
{
}

/// Which members can be found: those that the type has, of structs in memory, unless they are too
/// far behind.
pub proof fn law_members_that_can_be_found(
    vars: Seq<Shape>,
    n: Node,
    val: Box<Node>,
    name: String,
)
    requires
        n.kind == NodeKind::Member(val, name),
    ensures
        node_shape(vars, &n) is Some <==> match (node_shape(vars, &*val), type_of(*val)) {
            (Some(shape), Some(ty)) => match (shape, ty.field(name@)) {
                (Shape::StackSlot(base, _), Some((ofs, _))) => base + ofs <= u32::MAX,
                (Shape::Pointer(base, _), Some((ofs, _))) => base + ofs <= u32::MAX,
                _ => false,
            },
            _ => false,
        },
{
}

/// Which casts can be lowered, written out or implicit: those of an array in memory to a pointer,
/// and those of a value that can be read to a type that it can be converted to.
pub proof fn law_casts_that_can_be_lowered(vars: Seq<Shape>, n: Node, ty: TypeRef, val: Box<Node>)
    requires
        n.kind == NodeKind::Cast(ty, val) || n.kind == NodeKind::ImplicitCast(ty, val),
    ensures
        node_shape(vars, &n) is Some <==> match (node_shape(vars, &*val), type_of(*val)) {
            (Some(shape), Some(src)) => if src.basetype is Array {
                ty.basetype is Pointer && shape.in_memory()
            } else {
                &&& shape.readable()
                &&& ir_type(src) is Some
                &&& ir_type(ty) is Some
                &&& cast_inst(ir_type(src)->0, ir_type(ty)->0) is Some
            },
            _ => false,
        },
        node_shape(vars, &n) is Some ==> node_shape(vars, &n) == Some(Shape::Temporary),
{
}

/// Which unary operations can be lowered: on a value that can be read, steps if it is in memory,
/// following a pointer, the complement of an integer, and the negation of a number or pointer.
pub proof fn law_unary_operations_that_can_be_lowered(
    vars: Seq<Shape>,
    n: Node,
    op: UniOp,
    val: Box<Node>,
)
    requires
        n.kind == NodeKind::UniOp(op, val),
    ensures
        node_shape(vars, &n) is Some <==> match (node_shape(vars, &*val), type_of(*val)) {
            (Some(shape), Some(ty)) => shape.readable() && match op {
                UniOp::PostInc | UniOp::PostDec | UniOp::PreInc | UniOp::PreDec => {
                    shape.in_memory()
                },
                UniOp::Deref => ty.basetype is Pointer,
                UniOp::BitNot => ty.basetype is Integer,
                UniOp::LogicNot => ty.basetype is Integer || ty.basetype is Bool || ty.basetype
                    is Pointer,
                _ => false,
            },
            _ => false,
        },
{
}

/// Constants can be lowered, and so can the variables that there are; a list of expressions, if it
/// is not empty and each of them can.
pub proof fn law_other_expressions_that_can_be_lowered(vars: Seq<Shape>, n: Node)
    ensures
        n.kind is Integer ==> node_shape(vars, &n) == Some(Shape::Temporary),
        n.kind matches NodeKind::Identifier(_, binding) ==> node_shape(vars, &n) == match binding {
            Some(IdentRef::Local(idx)) => if idx < vars.len() {
                Some(vars[idx as int])
            } else {
                None
            },
            _ => None,
        },
        n.kind matches NodeKind::StmtList(nodes) ==> (node_shape(vars, &n) is Some <==> {
            &&& nodes@.len() > 0
            &&& forall|i: int|
                0 <= i < nodes@.len() ==> node_shape(vars, #[trigger] &nodes@[i]) is Some
        }),
{
    if let NodeKind::StmtList(nodes) = n.kind {
        lemma_lists_that_can_be_lowered(vars, nodes@, nodes@.len());
    }
}

proof fn lemma_lists_that_can_be_lowered(vars: Seq<Shape>, nodes: Seq<Node>, k: nat)
    requires
        k <= nodes.len(),
    ensures
        nodes_shape(vars, nodes, k) is Some <==> {
            &&& k > 0
            &&& forall|i: int| 0 <= i < k ==> node_shape(vars, #[trigger] &nodes[i]) is Some
        },
    decreases k,
{
    if k > 1 {
        lemma_lists_that_can_be_lowered(vars, nodes, (k - 1) as nat);
        if nodes_shape(vars, nodes, k) is Some {
            assert(node_shape(vars, &nodes[k - 1]) is Some);
        }
        if forall|i: int| 0 <= i < k ==> node_shape(vars, #[trigger] &nodes[i]) is Some {
            assert(node_shape(vars, &nodes[k - 1]) is Some);
        }
    } else if k == 1 {
        if nodes_shape(vars, nodes, k) is Some {
            assert(node_shape(vars, &nodes[0]) is Some);
        }
        if forall|i: int| 0 <= i < k ==> node_shape(vars, #[trigger] &nodes[i]) is Some {
            assert(node_shape(vars, &nodes[0]) is Some);
        }
    }
}

/// Which statements can be lowered. `break` and `continue` need a loop around them, and there is
/// one in the body of every loop.
pub proof fn law_statements_that_can_be_lowered(
    vars: Seq<Shape>,
    breaks: bool,
    continues: bool,
    stmt: Statement,
)
    ensures
        stmt is Empty ==> stmt_ok(vars, breaks, continues, stmt),
        stmt is Break ==> stmt_ok(vars, breaks, continues, stmt) == breaks,
        stmt is Continue ==> stmt_ok(vars, breaks, continues, stmt) == continues,
        stmt matches Statement::Expr(n) ==> (stmt_ok(vars, breaks, continues, stmt) <==> node_shape(
            vars,
            &n,
        ) is Some),
        stmt matches Statement::Return(Some(n)) ==> (stmt_ok(vars, breaks, continues, stmt) <==> (
        node_shape(vars, &n) matches Some(shape) && shape.readable())),
        stmt matches Statement::Return(None) ==> stmt_ok(vars, breaks, continues, stmt),
        stmt matches Statement::Block(stmts) ==> (stmt_ok(vars, breaks, continues, stmt)
            <==> forall|i: int|
            0 <= i < stmts@.len() ==> stmt_ok(vars, breaks, continues, #[trigger] stmts@[i])),
        stmt matches Statement::WhileLoop { cond, body } ==> (stmt_ok(
            vars,
            breaks,
            continues,
            stmt,
        ) <==> cond_ok(vars, cond) && forall|i: int|
            0 <= i < body@.len() ==> stmt_ok(vars, true, true, #[trigger] body@[i])),
        stmt matches Statement::IfStatement { cond, true_arm, else_arm } ==> (stmt_ok(
            vars,
            breaks,
            continues,
            stmt,
        ) <==> {
            &&& cond_ok(vars, cond)
            &&& forall|i: int|
                0 <= i < true_arm@.len() ==> stmt_ok(
                    vars,
                    breaks,
                    continues,
                    #[trigger] true_arm@[i],
                )
            &&& match else_arm {
                Some(stmts) => forall|i: int|
                    0 <= i < stmts@.len() ==> stmt_ok(
                        vars,
                        breaks,
                        continues,
                        #[trigger] stmts@[i],
                    ),
                None => true,
            }
        }),
        stmt matches Statement::VarDef(defs) ==> (stmt_ok(vars, breaks, continues, stmt)
            <==> forall|i: int| 0 <= i < defs@.len() ==> def_ok(vars, #[trigger] defs@[i])),
{
    match stmt {
        Statement::Block(stmts) => {
            lemma_statements_that_can_be_lowered(vars, breaks, continues, stmts@, stmts@.len());
        },
        Statement::IfStatement { cond, true_arm, else_arm } => {
            lemma_statements_that_can_be_lowered(
                vars,
                breaks,
                continues,
                true_arm@,
                true_arm@.len(),
            );
            if let Some(stmts) = else_arm {
                lemma_statements_that_can_be_lowered(vars, breaks, continues, stmts@, stmts@.len());
            }
        },
        Statement::WhileLoop { cond, body } => {
            lemma_statements_that_can_be_lowered(vars, true, true, body@, body@.len());
        },
        _ => {},
    }
}

proof fn lemma_statements_that_can_be_lowered(
    vars: Seq<Shape>,
    breaks: bool,
    continues: bool,
    stmts: Seq<Statement>,
    k: nat,
)
    requires
        k <= stmts.len(),
    ensures
        stmts_ok(vars, breaks, continues, stmts, k) <==> forall|i: int|
            0 <= i < k ==> stmt_ok(vars, breaks, continues, #[trigger] stmts[i]),
    decreases k,
{
    if k > 0 {
        lemma_statements_that_can_be_lowered(vars, breaks, continues, stmts, (k - 1) as nat);
    }
}

/// A definition can be lowered if there is such a variable, and its value, if it has one, can be
/// assigned to it; a condition, if it is an expression that can be read.
pub proof fn law_definitions_and_conditions_that_can_be_lowered(
    vars: Seq<Shape>,
    def: VariableDefinition,
    idx: usize,
    n: Node,
)
    requires
        def.index == Some(idx),
        idx < vars.len(),
    ensures
        def.value is Uninitialised ==> def_ok(vars, def),
        def.value == Initialiser::Value(n) ==> (def_ok(vars, def) <==> {
            &&& vars[idx as int].in_memory()
            &&& node_shape(vars, &n) matches Some(from) && !from.in_memory()
        }),
        cond_ok(vars, ExprOrDef::Expr(n)) <==> (node_shape(vars, &n) matches Some(shape)
            && shape.readable()),
{
}

/// A function can be lowered if its types can be held where they belong and each of its statements
/// can be lowered outside of all loops.
pub proof fn law_functions_that_can_be_lowered(ty: FunctionType, body: FunctionBody)
    requires
        ty.ret.basetype is Void || ir_type(ty.ret) is Some,
        ty.args@.len() <= 0x1_0000,
        forall|i: int|
            0 <= i < ty.args@.len() ==> ir_type((#[trigger] ty.args@[i]).0) == Some(IrType::I32),
        forall|i: int|
            ty.args@.len() <= i < body.var_table@.len() ==> (#[trigger] body.var_table@[i]).ty.size
                is Some,
        forall|i: int|
            0 <= i < body.code@.len() ==> stmt_ok(
                shapes(var_places(ty, body)),
                false,
                false,
                #[trigger] body.code@[i],
            ),
    ensures
        lowerable(ty, body),
{
    let vars = var_shapes(ty, body);
    assert(shapes(var_places(ty, body)) =~= vars);
    lemma_statements_that_can_be_lowered(vars, false, false, body.code@, body.code@.len());
}

} // verus!
