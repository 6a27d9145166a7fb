//! The code generator.
use vstd::pervasive::unreached;
use vstd::prelude::*;
use cranelift_frontend::FunctionBuilder;
use crate::ast::{
    BinOp, ExprOrDef, FunctionBody, IdentRef, Initialiser, Node, NodeKind, Statement,
    StatementList, UniOp, VariableDefinition,
};
use crate::backend::{
    append_function_params, band, block_param, bnot, bor, brz, convention_of, create_block,
    create_explicit_slot, declare_var, def_var, display, finalize, float_compare, function_ops,
    function_text, iadd, iadd_imm, iconst, int_compare, int_compare_imm, ireduce, is_filled,
    is_plain, ishl, jump, load, new_builder, new_context, new_function, new_signature, ops_of,
    params_of, push_param, push_return, return_, returns_of, sdiv, seal_block, select, srem,
    stack_addr, stack_load, stack_store, store, switch_to_block, uextend, use_var,
};
use crate::code::{
    args_code, assign_code, binop_code, break_target, cast_code, continue_target, def_code,
    defs_code, enter_code, function_code, node_code, nodes_code, orphan_code, param_types,
    prologue_code, read_code, return_types, shapes, slots_code, stmt_code, stmts_code, uniop_code,
    var_places, Place, Targets,
};
use crate::ir::{
    ids, lemma_sound_push, lemma_sound_start, lemma_state_push, sound_throughout, state, BinInst,
    Block, CallConv, FnState, IntCC, IrType, Op, StackSlot, Value, Variable,
};
use crate::laws::{
    end_arm, first_arm, follows, goes_on, law_blocks_hide_no_loop, law_expression_self_contained,
    law_function_complete, law_loops_hide_loops, law_places_as_foretold, law_prologue,
    law_statements_self_contained, lemma_args, lemma_assign, lemma_branch, lemma_emit,
    lemma_first_arm, lemma_goes_nowhere, lemma_goes_on, lemma_loop, lemma_loop_body,
    lemma_loop_head, lemma_read, lemma_second_arm, lemma_slots, lemma_start, loop_body, loop_end,
    loop_head, only_slots, open_for_code,
};
use crate::shape::{
    binop_inst, castable, def_ok, ir_type, ir_type_of, lowerable, node_shape, nodes_shape,
    select_binop, select_cast, stmt_ok, stmts_ok, uniop_shape, var_shapes, CastInst, Shape,
};
use crate::types::{BaseType, FunctionType, TypeRef};

verus! {

broadcast use {lemma_sound_push, lemma_state_push};

/// Lowers functions to Cranelift's intermediate language.
pub struct Context {}

/// Reference to a value
#[derive(Clone, Copy)]
enum ValueRef<'t> {
    Temporary(Value),
    /// A primitive value (ties together SSA values under one name)
    Variable(Variable),
    /// A larger value on the stack: an offset in its slot, and its type
    StackSlot(StackSlot, u32, &'t TypeRef),
    /// Pointer, offset, type
    Pointer(Value, u32, &'t TypeRef),
}

struct Builder<'a, 't> {
    builder: FunctionBuilder<'a>,
    stack: Vec<Scope>,
    vars: Vec<ValueRef<'t>>,
}

struct Scope {
    blk_break: Option<Block>,
    blk_continue: Option<Block>,
}

impl<'t> ValueRef<'t> {
    spec fn place(self) -> Place {
        match self {
            ValueRef::Temporary(v) => Place::Temporary(v.id()),
            ValueRef::Variable(v) => Place::Variable(v.id()),
            ValueRef::StackSlot(slot, ofs, ty) => Place::StackSlot(slot.id(), ofs, *ty),
            ValueRef::Pointer(p, ofs, ty) => Place::Pointer(p.id(), ofs, *ty),
        }
    }

    /// What this refers to is there in a function of state `s`.
    spec fn within(self, s: FnState) -> bool {
        match self {
            ValueRef::Temporary(v) => s.has_value(v.id()),
            ValueRef::Variable(v) => s.has_var(v.id()),
            ValueRef::StackSlot(slot, _, _) => slot.id() < s.slots,
            ValueRef::Pointer(p, _, _) => s.has_value(p.id()),
        }
    }

    /// What is there stays there.
    proof fn lemma_still_within(self, a: Seq<Op>, b: Seq<Op>)
        requires
            goes_on(a, b),
            self.within(state(a)),
        ensures
            self.within(state(b)),
    {
        reveal(follows);
    }
}

impl Scope {
    spec fn targets(self) -> Targets {
        Targets {
            on_break: match self.blk_break {
                Some(blk) => Some(blk.id()),
                None => None,
            },
            on_continue: match self.blk_continue {
                Some(blk) => Some(blk.id()),
                None => None,
            },
        }
    }

    /// The blocks of this scope can be jumped to in a function of state `s`.
    spec fn within(self, s: FnState) -> bool {
        &&& self.blk_break matches Some(blk) ==> s.can_target(blk.id())
        &&& self.blk_continue matches Some(blk) ==> s.can_target(blk.id())
    }

    /// `blk` is none of the blocks of this scope.
    spec fn avoids(self, blk: Block) -> bool {
        self.blk_break != Some(blk) && self.blk_continue != Some(blk)
    }

    fn new() -> (r: Self)
        ensures
            r.targets() == Targets::unset(),
            forall|s: FnState| r.within(s),
    {
        Scope { blk_break: None, blk_continue: None }
    }

    fn new_loop(blk_break: Block, blk_continue: Block) -> (r: Self)
        ensures
            r.targets() == (Targets {
                on_break: Some(blk_break.id()),
                on_continue: Some(blk_continue.id()),
            }),
            forall|s: FnState|
                r.within(s) <==> s.can_target(blk_break.id()) && s.can_target(blk_continue.id()),
    {
        Scope { blk_break: Some(blk_break), blk_continue: Some(blk_continue) }
    }
}

/// The type of the SSA values for C values of type `ty`, which has one.
fn cvt_ty(ty: &TypeRef) -> (r: IrType)
    requires
        ir_type(*ty) is Some,
    ensures
        Some(r) == ir_type(*ty),
{
    ir_type_of(ty).unwrap()
}

impl<'a, 't> Builder<'a, 't> {
    spec fn ops(self) -> Seq<Op> {
        ops_of(self.builder)
    }

    spec fn places(self) -> Seq<Place> {
        self.vars@.map_values(|v: ValueRef<'t>| v.place())
    }

    spec fn scopes(self) -> Seq<Targets> {
        targets_of(self.stack@)
    }

    /// All that has been done is sound, and all that is referred to is there.
    spec fn consistent(self) -> bool {
        let s = state(self.ops());
        &&& sound_throughout(self.ops())
        &&& forall|i: int| 0 <= i < self.vars@.len() ==> (#[trigger] self.vars@[i]).within(s)
        &&& forall|i: int| 0 <= i < self.stack@.len() ==> (#[trigger] self.stack@[i]).within(s)
    }

    /// Besides, code can be added.
    spec fn wf(self) -> bool {
        open_for_code(state(self.ops())) && self.consistent()
    }

    /// Nothing but the function under construction differs from `before`.
    spec fn kept(self, before: Self) -> bool {
        self.vars@ == before.vars@ && self.stack@ == before.stack@
    }

    fn get_value(&mut self, vr: ValueRef<'t>) -> (r: Value)
        requires
            old(self).wf(),
            vr.within(state(old(self).ops())),
            vr.place().shape().readable(),
        ensures
            final(self).wf(),
            final(self).kept(*old(self)),
            goes_on(old(self).ops(), final(self).ops()),
            final(self).ops() == read_code(old(self).ops(), vr.place()).0,
            r.id() == read_code(old(self).ops(), vr.place()).1,
            state(final(self).ops()).has_value(r.id()),
    {
        proof {
            reveal(follows);
            lemma_read(self.ops(), vr.place());
        }
        match vr {
            ValueRef::Temporary(val) => val,
            ValueRef::Variable(var) => use_var(&mut self.builder, var),
            ValueRef::StackSlot(ss, ofs, ty) => {
                stack_load(&mut self.builder, cvt_ty(ty), ss, ofs as i32)
            },
            ValueRef::Pointer(pv, ofs, ty) => load(&mut self.builder, cvt_ty(ty), pv, ofs as i32),
        }
    }

    fn assign_value(&mut self, slot: ValueRef<'t>, val: ValueRef<'t>)
        requires
            old(self).wf(),
            slot.within(state(old(self).ops())),
            val.within(state(old(self).ops())),
            slot.place().shape().in_memory(),
            !val.place().shape().in_memory(),
        ensures
            final(self).wf(),
            final(self).kept(*old(self)),
            final(self).ops() == assign_code(old(self).ops(), slot.place(), val.place()),
    {
        proof {
            reveal(follows);
        }
        let val = self.get_value(val);
        match slot {
            ValueRef::StackSlot(ss, ofs, _) => {
                stack_store(&mut self.builder, val, ss, ofs as i32);
            },
            ValueRef::Pointer(base, ofs, _) => {
                store(&mut self.builder, val, base, ofs as i32);
            },
            _ => {},
        }
    }

    /// Common processing of binary operations (for both `BinOp` and `AssignOp`)
    fn handle_binop(&mut self, op: BinOp, ty_l: &TypeRef, val_l: Value, val_r: Value) -> (r: Value)
        requires
            old(self).wf(),
            state(old(self).ops()).has_value(val_l.id()),
            state(old(self).ops()).has_value(val_r.id()),
            binop_inst(op, *ty_l) is Some,
        ensures
            final(self).wf(),
            final(self).kept(*old(self)),
            goes_on(old(self).ops(), final(self).ops()),
            final(self).ops() == binop_code(
                old(self).ops(),
                op,
                *ty_l,
                val_l.id(),
                val_r.id(),
            ).0,
            r.id() == binop_code(old(self).ops(), op, *ty_l, val_l.id(), val_r.id()).1,
            state(final(self).ops()).has_value(r.id()),
    {
        proof {
            lemma_emit(
                self.ops(),
                Op::Binary { inst: binop_inst(op, *ty_l)->0, x: val_l.id(), y: val_r.id() },
            );
        }
        match select_binop(op, ty_l).unwrap() {
            BinInst::Iadd => iadd(&mut self.builder, val_l, val_r),
            BinInst::Sdiv => sdiv(&mut self.builder, val_l, val_r),
            BinInst::Srem => srem(&mut self.builder, val_l, val_r),
            BinInst::Ishl => ishl(&mut self.builder, val_l, val_r),
            BinInst::Band => band(&mut self.builder, val_l, val_r),
            BinInst::Bor => bor(&mut self.builder, val_l, val_r),
            BinInst::IntCompare(cond) => int_compare(&mut self.builder, cond, val_l, val_r),
            BinInst::FloatCompare(cond) => float_compare(&mut self.builder, cond, val_l, val_r),
        }
    }

    /// Common processing of cast operations (between `ImplicitCast` and `Cast`)
    fn handle_cast(&mut self, dst_ty: &TypeRef, src_val: ValueRef<'t>, src_ty: &TypeRef) -> (r:
        Value)
        requires
            old(self).wf(),
            src_val.within(state(old(self).ops())),
            castable(src_val.place().shape(), *src_ty, *dst_ty),
        ensures
            final(self).wf(),
            final(self).kept(*old(self)),
            final(self).ops() == cast_code(
                old(self).ops(),
                *dst_ty,
                src_val.place(),
                *src_ty,
            ).0,
            r.id() == cast_code(old(self).ops(), *dst_ty, src_val.place(), *src_ty).1,
            state(final(self).ops()).has_value(r.id()),
    {
        proof {
            reveal(follows);
        }
        if let BaseType::Array(_) = &src_ty.basetype {
            match src_val {
                ValueRef::StackSlot(ss, ofs, _) => {
                    stack_addr(&mut self.builder, IrType::I32, ss, ofs as i32)
                },
                ValueRef::Pointer(base, ofs, _) => iadd_imm(&mut self.builder, base, ofs as i64),
                _ => unreached(),
            }
        } else {
            let val = self.get_value(src_val);
            let src_cty = cvt_ty(src_ty);
            let dst_cty = cvt_ty(dst_ty);
            match select_cast(src_cty, dst_cty).unwrap() {
                CastInst::Keep => val,
                CastInst::Uextend => uextend(&mut self.builder, dst_cty, val),
                CastInst::Ireduce => ireduce(&mut self.builder, dst_cty, val),
            }
        }
    }

    fn handle_nodes(&mut self, nodes: &'t Vec<Node>) -> (r: ValueRef<'t>)
        requires
            old(self).wf(),
            nodes_shape(shapes(old(self).places()), nodes@, nodes@.len()) is Some,
        ensures
            final(self).wf(),
            final(self).kept(*old(self)),
            final(self).ops() == nodes_code(
                old(self).places(),
                old(self).ops(),
                nodes@,
                nodes@.len(),
            ).0,
            r.place() == nodes_code(old(self).places(), old(self).ops(), nodes@, nodes@.len()).1,
            r.within(state(final(self).ops())),
        decreases nodes, 0nat,
    {
        proof {
            lemma_nodes_shape(shapes(self.places()), nodes@, nodes@.len());
        }
        let last: usize = nodes.len() - 1;
        let mut k: usize = 0;
        while k < last
            invariant
                k <= last,
                last == nodes@.len() - 1,
                self.wf(),
                self.kept(*old(self)),
                forall|i: int|
                    0 <= i < nodes@.len() ==> node_shape(
                        shapes(old(self).places()),
                        #[trigger] &nodes@[i],
                    ) is Some,
                self.ops() == nodes_code(old(self).places(), old(self).ops(), nodes@, k as nat).0,
            decreases last - k,
        {
            self.handle_node(&nodes[k]);
            k += 1;
        }
        self.handle_node(&nodes[last])
    }

    fn handle_node(&mut self, node: &'t Node) -> (r: ValueRef<'t>)
        requires
            old(self).wf(),
            node_shape(shapes(old(self).places()), node) is Some,
        ensures
            final(self).wf(),
            final(self).kept(*old(self)),
            goes_on(old(self).ops(), final(self).ops()),
            final(self).ops() == node_code(old(self).places(), old(self).ops(), *node).0,
            r.place() == node_code(old(self).places(), old(self).ops(), *node).1,
            r.within(state(final(self).ops())),
        decreases node, 1nat,
    {
        let ghost vars = self.places();
        let ghost start = self.ops();
        proof {
            law_expression_self_contained(vars, start, *node);
        }
        match &node.kind {
            NodeKind::StmtList(nodes) => self.handle_nodes(nodes),
            NodeKind::Identifier(_, binding) => match binding {
                Some(IdentRef::Local(idx)) => self.vars[*idx],
                _ => unreached(),
            },
            NodeKind::Integer(val, _) => {
                ValueRef::Temporary(iconst(&mut self.builder, IrType::I32, *val as i64))
            },
            NodeKind::Assign(_, _) => self.handle_assign(node),
            NodeKind::AssignOp(_, _, _) => self.handle_assign_op(node),
            NodeKind::Cast(ty, val) => {
                let src_ty = &val.meta.as_ref().unwrap().ty;
                proof {
                    law_places_as_foretold(vars, start, **val);
                }
                let val = self.handle_node(val);
                ValueRef::Temporary(self.handle_cast(ty, val, src_ty))
            },
            NodeKind::ImplicitCast(ty, val) => {
                let src_ty = &val.meta.as_ref().unwrap().ty;
                proof {
                    law_places_as_foretold(vars, start, **val);
                }
                let val = self.handle_node(val);
                ValueRef::Temporary(self.handle_cast(ty, val, src_ty))
            },
            NodeKind::Ternary(_, _, _) => self.handle_ternary(node),
            NodeKind::UniOp(op, val) => {
                let ty = &val.meta.as_ref().unwrap().ty;
                proof {
                    law_places_as_foretold(vars, start, **val);
                }
                let val = self.handle_node(val);
                self.handle_uniop(*op, ty, val)
            },
            NodeKind::BinOp(_, _, _) => self.handle_binary(node),
            NodeKind::Member(_, _) => self.handle_member(node),
            _ => unreached(),
        }
    }

    fn handle_assign(&mut self, node: &'t Node) -> (r: ValueRef<'t>)
        requires
            old(self).wf(),
            node.kind is Assign,
            node_shape(shapes(old(self).places()), node) is Some,
        ensures
            final(self).wf(),
            final(self).kept(*old(self)),
            final(self).ops() == node_code(old(self).places(), old(self).ops(), *node).0,
            r.place() == node_code(old(self).places(), old(self).ops(), *node).1,
            r.within(state(final(self).ops())),
        decreases node, 0nat,
    {
        let (slot, val) = match &node.kind {
            NodeKind::Assign(slot, val) => (slot, val),
            _ => unreached(),
        };
        let ghost vars = self.places();
        proof {
            law_places_as_foretold(vars, self.ops(), **slot);
        }
        let slot = self.handle_node(slot);
        let ghost a = self.ops();
        proof {
            law_places_as_foretold(vars, a, **val);
        }
        let val = self.handle_node(val);
        let ghost b = self.ops();
        proof {
            slot.lemma_still_within(a, b);
            lemma_assign(b, slot.place(), val.place());
        }
        self.assign_value(slot, val);
        proof {
            slot.lemma_still_within(b, self.ops());
        }
        slot
    }

    fn handle_assign_op(&mut self, node: &'t Node) -> (r: ValueRef<'t>)
        requires
            old(self).wf(),
            node.kind is AssignOp,
            node_shape(shapes(old(self).places()), node) is Some,
        ensures
            final(self).wf(),
            final(self).kept(*old(self)),
            final(self).ops() == node_code(old(self).places(), old(self).ops(), *node).0,
            r.place() == node_code(old(self).places(), old(self).ops(), *node).1,
            r.within(state(final(self).ops())),
        decreases node, 0nat,
    {
        let (op, slot, val) = match &node.kind {
            NodeKind::AssignOp(op, slot, val) => (op, slot, val),
            _ => unreached(),
        };
        let ty = &val.meta.as_ref().unwrap().ty;
        let ghost vars = self.places();
        proof {
            law_places_as_foretold(vars, self.ops(), **slot);
        }
        let slot = self.handle_node(slot);
        let ghost a = self.ops();
        proof {
            law_places_as_foretold(vars, a, **val);
        }
        let val = self.handle_node(val);
        let ghost b = self.ops();
        proof {
            slot.lemma_still_within(a, b);
        }
        let val_l = self.get_value(slot);
        let ghost c = self.ops();
        proof {
            slot.lemma_still_within(b, c);
            val.lemma_still_within(b, c);
        }
        let val_r = self.get_value(val);
        let ghost d = self.ops();
        proof {
            slot.lemma_still_within(c, d);
            ValueRef::Temporary(val_l).lemma_still_within(c, d);
        }
        let new_val = self.handle_binop(*op, ty, val_l, val_r);
        let ghost e = self.ops();
        proof {
            slot.lemma_still_within(d, e);
            lemma_assign(e, slot.place(), Place::Temporary(new_val.id()));
        }
        self.assign_value(slot, ValueRef::Temporary(new_val));
        proof {
            slot.lemma_still_within(e, self.ops());
        }
        slot
    }

    fn handle_binary(&mut self, node: &'t Node) -> (r: ValueRef<'t>)
        requires
            old(self).wf(),
            node.kind is BinOp,
            node_shape(shapes(old(self).places()), node) is Some,
        ensures
            final(self).wf(),
            final(self).kept(*old(self)),
            final(self).ops() == node_code(old(self).places(), old(self).ops(), *node).0,
            r.place() == node_code(old(self).places(), old(self).ops(), *node).1,
            r.within(state(final(self).ops())),
        decreases node, 0nat,
    {
        let (op, val_l, val_r) = match &node.kind {
            NodeKind::BinOp(op, val_l, val_r) => (op, val_l, val_r),
            _ => unreached(),
        };
        let ty_l = &val_l.meta.as_ref().unwrap().ty;
        let ghost vars = self.places();
        proof {
            law_places_as_foretold(vars, self.ops(), **val_l);
        }
        let val_l = self.handle_node(val_l);
        let ghost a = self.ops();
        proof {
            law_places_as_foretold(vars, a, **val_r);
        }
        let val_r = self.handle_node(val_r);
        let ghost b = self.ops();
        proof {
            val_l.lemma_still_within(a, b);
        }
        let val_l = self.get_value(val_l);
        let ghost c = self.ops();
        proof {
            val_r.lemma_still_within(b, c);
        }
        let val_r = self.get_value(val_r);
        proof {
            ValueRef::Temporary(val_l).lemma_still_within(c, self.ops());
        }
        ValueRef::Temporary(self.handle_binop(*op, ty_l, val_l, val_r))
    }

    fn handle_member(&mut self, node: &'t Node) -> (r: ValueRef<'t>)
        requires
            old(self).wf(),
            node.kind is Member,
            node_shape(shapes(old(self).places()), node) is Some,
        ensures
            final(self).wf(),
            final(self).kept(*old(self)),
            final(self).ops() == node_code(old(self).places(), old(self).ops(), *node).0,
            r.place() == node_code(old(self).places(), old(self).ops(), *node).1,
            r.within(state(final(self).ops())),
        decreases node, 0nat,
    {
        let (val, name) = match &node.kind {
            NodeKind::Member(val, name) => (val, name),
            _ => unreached(),
        };
        let ty = &val.meta.as_ref().unwrap().ty;
        proof {
            law_places_as_foretold(self.places(), self.ops(), **val);
        }
        let val = self.handle_node(val);
        let (ofs, ity) = ty.get_field(name).unwrap();
        match val {
            ValueRef::StackSlot(ss, bofs, _) => ValueRef::StackSlot(ss, bofs + ofs, ity),
            ValueRef::Pointer(bv, bofs, _) => ValueRef::Pointer(bv, bofs + ofs, ity),
            _ => unreached(),
        }
    }

    fn handle_uniop(&mut self, op: UniOp, ty: &'t TypeRef, val_in: ValueRef<'t>) -> (r: ValueRef<
        't,
    >)
        requires
            old(self).wf(),
            val_in.within(state(old(self).ops())),
            uniop_shape(op, val_in.place().shape(), ty) is Some,
        ensures
            final(self).wf(),
            final(self).kept(*old(self)),
            final(self).ops() == uniop_code(old(self).ops(), op, val_in.place(), *ty).0,
            r.place() == uniop_code(old(self).ops(), op, val_in.place(), *ty).1,
            r.within(state(final(self).ops())),
    {
        proof {
            reveal(follows);
        }
        let val = self.get_value(val_in);
        match op {
            UniOp::PostDec => {
                let ov = iadd_imm(&mut self.builder, val, -1);
                self.assign_value(val_in, ValueRef::Temporary(ov));
                ValueRef::Temporary(val)
            },
            UniOp::PostInc => {
                let ov = iadd_imm(&mut self.builder, val, 1);
                self.assign_value(val_in, ValueRef::Temporary(ov));
                ValueRef::Temporary(val)
            },
            UniOp::PreDec => {
                let ov = iadd_imm(&mut self.builder, val, -1);
                self.assign_value(val_in, ValueRef::Temporary(ov));
                ValueRef::Temporary(ov)
            },
            UniOp::PreInc => {
                let ov = iadd_imm(&mut self.builder, val, 1);
                self.assign_value(val_in, ValueRef::Temporary(ov));
                ValueRef::Temporary(ov)
            },
            UniOp::Deref => match &ty.basetype {
                BaseType::Pointer(ity) => ValueRef::Pointer(val, 0, ity),
                _ => unreached(),
            },
            UniOp::BitNot => ValueRef::Temporary(bnot(&mut self.builder, val)),
            UniOp::LogicNot => {
                ValueRef::Temporary(int_compare_imm(&mut self.builder, IntCC::Equal, val, 0))
            },
            _ => unreached(),
        }
    }

    #[verifier::rlimit(30)]
    fn handle_ternary(&mut self, node: &'t Node) -> (r: ValueRef<'t>)
        requires
            old(self).wf(),
            node.kind is Ternary,
            node_shape(shapes(old(self).places()), node) is Some,
        ensures
            final(self).wf(),
            final(self).kept(*old(self)),
            final(self).ops() == node_code(old(self).places(), old(self).ops(), *node).0,
            r.place() == node_code(old(self).places(), old(self).ops(), *node).1,
            r.within(state(final(self).ops())),
        decreases node, 0nat,
    {
        let (cond, val_true, val_false) = match &node.kind {
            NodeKind::Ternary(cond, val_true, val_false) => (cond, val_true, val_false),
            _ => unreached(),
        };
        let ghost vars = self.places();
        proof {
            law_places_as_foretold(vars, self.ops(), **cond);
        }
        let cond_v = self.handle_node(cond);
        let cond_v = self.get_value(cond_v);
        let ghost before = self.ops();
        let ghost c = cond_v.id();
        let (else_blk, done_blk) = self.start_branch(cond_v);
        let ghost first = self.ops();
        proof {
            law_places_as_foretold(vars, first, **val_true);
        }
        let val_true = self.handle_node(val_true);
        let ghost a = self.ops();
        let val_true = self.get_value(val_true);
        let ghost yes = self.ops();
        proof {
            lemma_goes_on(first, a, yes);
            lemma_can_switch(before, c, yes, yes, else_blk, done_blk, true);
        }
        self.switch_arm(done_blk, else_blk);
        let ghost second = self.ops();
        proof {
            lemma_second_arm(before, c, yes);
            law_places_as_foretold(vars, second, **val_false);
        }
        let val_false = self.handle_node(val_false);
        let ghost b = self.ops();
        let val_false = self.get_value(val_false);
        let ghost no = self.ops();
        proof {
            lemma_goes_on(second, b, no);
            lemma_can_switch(before, c, yes, no, else_blk, done_blk, false);
        }
        self.switch_arm(done_blk, done_blk);
        proof {
            lemma_branch(before, c, yes, no);
            ValueRef::Temporary(cond_v).lemma_still_within(before, self.ops());
            assert(state(self.ops()).has_value(val_true.id()) && state(self.ops()).has_value(
                val_false.id(),
            )) by {
                reveal(follows);
            }
        }
        ValueRef::Temporary(select(&mut self.builder, cond_v, val_true, val_false))
    }

    fn handle_expr_def(&mut self, node: &'t ExprOrDef) -> (r: ValueRef<'t>)
        requires
            old(self).wf(),
            node is Expr,
            node_shape(shapes(old(self).places()), &node->Expr_0) is Some,
        ensures
            final(self).wf(),
            final(self).kept(*old(self)),
            goes_on(old(self).ops(), final(self).ops()),
            final(self).ops() == node_code(old(self).places(), old(self).ops(), node->Expr_0).0,
            r.place() == node_code(old(self).places(), old(self).ops(), node->Expr_0).1,
            r.within(state(final(self).ops())),
    {
        match node {
            ExprOrDef::Expr(e) => self.handle_node(e),
            _ => unreached(),
        }
    }

    fn define_var(&mut self, var_def: &'t VariableDefinition)
        requires
            old(self).wf(),
            def_ok(shapes(old(self).places()), *var_def),
        ensures
            final(self).wf(),
            final(self).kept(*old(self)),
            final(self).ops() == def_code(old(self).places(), old(self).ops(), *var_def),
    {
        let idx = var_def.index.unwrap();
        let slot = self.vars[idx];
        match &var_def.value {
            Initialiser::Uninitialised => {},
            Initialiser::Value(node) => {
                proof {
                    law_places_as_foretold(self.places(), self.ops(), *node);
                }
                let ghost before = self.ops();
                let v = self.handle_node(node);
                proof {
                    slot.lemma_still_within(before, self.ops());
                }
                self.assign_value(slot, v);
            },
            _ => unreached(),
        }
    }

    fn handle_block(&mut self, stmts: &'t StatementList)
        requires
            old(self).wf(),
            stmts_ok(
                shapes(old(self).places()),
                break_target(old(self).scopes()) is Some,
                continue_target(old(self).scopes()) is Some,
                stmts@,
                stmts@.len(),
            ),
        ensures
            final(self).wf(),
            final(self).kept(*old(self)),
            goes_on(old(self).ops(), final(self).ops()),
            final(self).ops() == stmts_code(
                old(self).places(),
                old(self).scopes().push(Targets::unset()),
                old(self).ops(),
                stmts@,
                stmts@.len(),
            ),
        decreases stmts, 0nat,
    {
        let ghost vars = self.places();
        let ghost start = self.ops();
        let ghost scopes = self.scopes().push(Targets::unset());
        proof {
            law_blocks_hide_no_loop(self.scopes());
            law_statements_self_contained(vars, scopes, start, stmts@, stmts@.len());
            lemma_stmts_ok(
                shapes(vars),
                break_target(scopes) is Some,
                continue_target(scopes) is Some,
                stmts@,
                stmts@.len(),
            );
        }
        self.stack.push(Scope::new());
        assert(self.scopes() =~= scopes);
        let mut k: usize = 0;
        while k < stmts.len()
            invariant
                k <= stmts@.len(),
                self.wf(),
                self.vars@ == old(self).vars@,
                self.stack@.drop_last() == old(self).stack@,
                self.stack@.len() > 0,
                self.places() == vars,
                self.scopes() == scopes,
                forall|i: int|
                    0 <= i < stmts@.len() ==> stmt_ok(
                        shapes(vars),
                        break_target(scopes) is Some,
                        continue_target(scopes) is Some,
                        #[trigger] stmts@[i],
                    ),
                self.ops() == stmts_code(vars, scopes, start, stmts@, k as nat),
            decreases stmts@.len() - k,
        {
            self.handle_stmt(&stmts[k]);
            k += 1;
        }
        self.stack.pop();
    }

    fn handle_stmt(&mut self, stmt: &'t Statement)
        requires
            old(self).wf(),
            stmt_ok(
                shapes(old(self).places()),
                break_target(old(self).scopes()) is Some,
                continue_target(old(self).scopes()) is Some,
                *stmt,
            ),
        ensures
            final(self).wf(),
            final(self).kept(*old(self)),
            final(self).ops() == stmt_code(
                old(self).places(),
                old(self).scopes(),
                old(self).ops(),
                *stmt,
            ),
        decreases stmt, 1nat,
    {
        let ghost vars = self.places();
        let ghost start = self.ops();
        let ghost scopes = self.scopes();
        match stmt {
            Statement::Empty => {},
            Statement::VarDef(list) => {
                let mut k: usize = 0;
                while k < list.len()
                    invariant
                        k <= list@.len(),
                        self.wf(),
                        self.kept(*old(self)),
                        self.places() == vars,
                        forall|i: int|
                            0 <= i < list@.len() ==> def_ok(shapes(vars), #[trigger] list@[i]),
                        self.ops() == defs_code(vars, start, list@, k as nat),
                    decreases list@.len() - k,
                {
                    self.define_var(&list[k]);
                    k += 1;
                }
            },
            Statement::Expr(e) => {
                self.handle_node(e);
            },
            Statement::Block(stmts) => {
                self.handle_block(stmts);
            },
            Statement::IfStatement { .. } => {
                self.handle_if(stmt);
            },
            Statement::WhileLoop { .. } => {
                self.handle_while(stmt);
            },
            Statement::Continue => {
                let blk = innermost_continue(&self.stack);
                jump(&mut self.builder, blk);
                self.enter_orphan();
            },
            Statement::Break => {
                let blk = innermost_break(&self.stack);
                jump(&mut self.builder, blk);
                self.enter_orphan();
            },
            Statement::Return(opt_val) => {
                let mut vals = Vec::new();
                if let Some(val) = opt_val {
                    proof {
                        law_places_as_foretold(vars, start, *val);
                    }
                    let val = self.handle_node(val);
                    let val = self.get_value(val);
                    vals.push(val);
                    assert(ids(vals@) =~= seq![val.id()]);
                } else {
                    assert(ids(vals@) =~= Seq::empty());
                }
                return_(&mut self.builder, &vals);
                self.enter_orphan();
            },
            _ => unreached(),
        }
    }

    fn handle_if(&mut self, stmt: &'t Statement)
        requires
            old(self).wf(),
            stmt is IfStatement,
            stmt_ok(
                shapes(old(self).places()),
                break_target(old(self).scopes()) is Some,
                continue_target(old(self).scopes()) is Some,
                *stmt,
            ),
        ensures
            final(self).wf(),
            final(self).kept(*old(self)),
            final(self).ops() == stmt_code(
                old(self).places(),
                old(self).scopes(),
                old(self).ops(),
                *stmt,
            ),
        decreases stmt, 0nat,
    {
        let (cond, true_arm, else_arm) = match stmt {
            Statement::IfStatement { cond, true_arm, else_arm } => (cond, true_arm, else_arm),
            _ => unreached(),
        };
        proof {
            law_places_as_foretold(self.places(), self.ops(), cond->Expr_0);
        }
        let cond_v = self.handle_expr_def(cond);
        let cond_v = self.get_value(cond_v);
        let ghost before = self.ops();
        let ghost c = cond_v.id();
        let (else_blk, done_blk) = self.start_branch(cond_v);
        self.handle_block(true_arm);
        let ghost yes = self.ops();
        proof {
            lemma_can_switch(before, c, yes, yes, else_blk, done_blk, true);
        }
        self.switch_arm(done_blk, else_blk);
        let ghost second = self.ops();
        proof {
            lemma_second_arm(before, c, yes);
            lemma_goes_nowhere(second);
        }
        if let Some(else_arm) = else_arm {
            self.handle_block(else_arm);
        }
        proof {
            lemma_can_switch(before, c, yes, self.ops(), else_blk, done_blk, false);
        }
        self.switch_arm(done_blk, done_blk);
    }

    /// Branches on a value, and goes on in the arm for what is not zero; the blocks of the other
    /// arm and of what comes after both.
    fn start_branch(&mut self, cond_v: Value) -> (r: (Block, Block))
        requires
            old(self).wf(),
            state(old(self).ops()).has_value(cond_v.id()),
        ensures
            final(self).wf(),
            final(self).kept(*old(self)),
            final(self).ops() == first_arm(old(self).ops(), cond_v.id()),
            r.0.id() == state(old(self).ops()).blocks + 1,
            r.1.id() == state(old(self).ops()).blocks + 2,
            forall|i: int|
                0 <= i < old(self).stack@.len() ==> (#[trigger] old(self).stack@[i]).avoids(r.0)
                    && old(self).stack@[i].avoids(r.1),
    {
        let true_blk = create_block(&mut self.builder);
        let else_blk = create_block(&mut self.builder);
        let done_blk = create_block(&mut self.builder);
        brz(&mut self.builder, cond_v, else_blk);
        jump(&mut self.builder, true_blk);

        switch_to_block(&mut self.builder, true_blk);
        seal_block(&mut self.builder, true_blk);
        (else_blk, done_blk)
    }

    /// Ends an arm of a branch, and goes on in the block `next_blk`.
    fn switch_arm(&mut self, done_blk: Block, next_blk: Block)
        requires
            old(self).wf(),
            can_switch(state(old(self).ops()), done_blk.id(), next_blk.id()),
            forall|i: int|
                0 <= i < old(self).stack@.len() ==> (#[trigger] old(self).stack@[i]).avoids(
                    next_blk,
                ),
        ensures
            final(self).wf(),
            final(self).kept(*old(self)),
            final(self).ops() == enter_code(
                old(self).ops().push(Op::Jump { block: done_blk.id() }),
                next_blk.id(),
            ),
    {
        jump(&mut self.builder, done_blk);

        switch_to_block(&mut self.builder, next_blk);
        seal_block(&mut self.builder, next_blk);
    }

    fn handle_while(&mut self, stmt: &'t Statement)
        requires
            old(self).wf(),
            stmt is WhileLoop,
            stmt_ok(
                shapes(old(self).places()),
                break_target(old(self).scopes()) is Some,
                continue_target(old(self).scopes()) is Some,
                *stmt,
            ),
        ensures
            final(self).wf(),
            final(self).kept(*old(self)),
            final(self).ops() == stmt_code(
                old(self).places(),
                old(self).scopes(),
                old(self).ops(),
                *stmt,
            ),
        decreases stmt, 0nat,
    {
        proof {
            reveal(follows);
        }
        let (cond, body) = match stmt {
            Statement::WhileLoop { cond, body } => (cond, body),
            _ => unreached(),
        };
        let ghost start = self.ops();
        let ghost first = state(start).blocks;
        proof {
            lemma_loop_head(start);
            law_loops_hide_loops(self.scopes(), first, first + 2);
        }
        let blk_top = create_block(&mut self.builder);
        let blk_body = create_block(&mut self.builder);
        let blk_exit = create_block(&mut self.builder);
        jump(&mut self.builder, blk_top);

        // Not sealed yet: there are jumps back to it.
        switch_to_block(&mut self.builder, blk_top);
        assert(self.ops() == loop_head(start));

        self.stack.push(Scope::new_loop(blk_top, blk_exit));
        assert(self.scopes() =~= old(self).scopes().push(
            Targets { on_break: Some(first), on_continue: Some(first + 2) },
        ));
        proof {
            law_places_as_foretold(self.places(), self.ops(), cond->Expr_0);
        }
        let cond_v = self.handle_expr_def(cond);
        let ghost computed = self.ops();
        let cond_v = self.get_value(cond_v);
        let ghost tested = self.ops();
        proof {
            lemma_goes_on(loop_head(start), computed, tested);
            lemma_loop_body(start, tested, cond_v.id());
        }
        brz(&mut self.builder, cond_v, blk_exit);
        jump(&mut self.builder, blk_body);

        switch_to_block(&mut self.builder, blk_body);
        seal_block(&mut self.builder, blk_body);
        assert(self.ops() == loop_body(tested, first, cond_v.id()));
        self.handle_block(body);
        let ghost done = self.ops();
        proof {
            lemma_loop(start, tested, cond_v.id(), done);
        }

        jump(&mut self.builder, blk_top);
        self.stack.pop();
        assert(self.stack@ =~= old(self).stack@);
        // All jumps to it are known now.
        seal_block(&mut self.builder, blk_top);

        switch_to_block(&mut self.builder, blk_exit);
        seal_block(&mut self.builder, blk_exit);
        assert(self.ops() == loop_end(done, first));
    }

    /// Goes on in a new block after a jump or return: what follows it is not reached.
    fn enter_orphan(&mut self)
        requires
            old(self).consistent(),
            left_block(state(old(self).ops())),
        ensures
            final(self).wf(),
            final(self).kept(*old(self)),
            final(self).ops() == orphan_code(old(self).ops()),
    {
        let blk_orphan = create_block(&mut self.builder);
        switch_to_block(&mut self.builder, blk_orphan);
        seal_block(&mut self.builder, blk_orphan);
    }
}

/// The current block can end in a jump to `done`, and code go on in `next` then.
spec fn can_switch(s: FnState, done: nat, next: nat) -> bool {
    &&& s.can_target(done)
    &&& s.can_seal(next)
    &&& !s.filled.contains(next)
    &&& s.cur != Some(next)
}

/// After an arm of a branch, it can be ended: the first one if `first`, else the second.
proof fn lemma_can_switch(
    before: Seq<Op>,
    c: nat,
    yes: Seq<Op>,
    now: Seq<Op>,
    else_blk: Block,
    done_blk: Block,
    first: bool,
)
    requires
        open_for_code(state(before)),
        goes_on(first_arm(before, c), yes),
        first ==> now == yes,
        !first ==> goes_on(end_arm(yes, state(before).blocks, state(before).blocks + 1), now),
        else_blk.id() == state(before).blocks + 1,
        done_blk.id() == state(before).blocks + 2,
    ensures
        can_switch(
            state(now),
            done_blk.id(),
            if first {
                else_blk.id()
            } else {
                done_blk.id()
            },
        ),
{
    reveal(follows);
    lemma_first_arm(before, c);
    lemma_second_arm(before, c, yes);
}

/// The current block ends in a jump or return.
spec fn left_block(s: FnState) -> bool {
    &&& s.cur is Some
    &&& s.filled.contains(s.cur->0)
    &&& !s.branched
    &&& !s.finished
    &&& forall|b: nat| #[trigger] s.entered.contains(b) ==> b < s.blocks
    &&& forall|b: nat| #[trigger] s.filled.contains(b) ==> b < s.blocks
    &&& forall|b: nat| #[trigger] s.sealed.contains(b) ==> b < s.blocks
}

spec fn targets_of(stack: Seq<Scope>) -> Seq<Targets> {
    stack.map_values(|s: Scope| s.targets())
}

/// The block that `break` jumps to.
fn innermost_break(stack: &Vec<Scope>) -> (r: Block)
    requires
        break_target(targets_of(stack@)) is Some,
    ensures
        break_target(targets_of(stack@)) == Some(r.id()),
        exists|i: int| 0 <= i < stack@.len() && (#[trigger] stack@[i]).blk_break == Some(r),
{
    let ghost all = targets_of(stack@);
    let mut k: usize = stack.len();
    assert(all.take(k as int) =~= all);
    while k > 0
        invariant
            k <= stack@.len(),
            all == targets_of(stack@),
            break_target(all) is Some,
            break_target(all.take(k as int)) == break_target(all),
        decreases k,
    {
        assert(all.take(k as int).drop_last() =~= all.take(k - 1));
        k -= 1;
        assert(all.take(k + 1).last() == stack@[k as int].targets());
        if let Some(blk) = stack[k].blk_break {
            return blk;
        }
    }
    unreached()
}

/// The block that `continue` jumps to.
fn innermost_continue(stack: &Vec<Scope>) -> (r: Block)
    requires
        continue_target(targets_of(stack@)) is Some,
    ensures
        continue_target(targets_of(stack@)) == Some(r.id()),
        exists|i: int| 0 <= i < stack@.len() && (#[trigger] stack@[i]).blk_continue == Some(r),
{
    let ghost all = targets_of(stack@);
    let mut k: usize = stack.len();
    assert(all.take(k as int) =~= all);
    while k > 0
        invariant
            k <= stack@.len(),
            all == targets_of(stack@),
            continue_target(all) is Some,
            continue_target(all.take(k as int)) == continue_target(all),
        decreases k,
    {
        assert(all.take(k as int).drop_last() =~= all.take(k - 1));
        k -= 1;
        assert(all.take(k + 1).last() == stack@[k as int].targets());
        if let Some(blk) = stack[k].blk_continue {
            return blk;
        }
    }
    unreached()
}

/// Where some statements can be lowered, each of them can.
proof fn lemma_stmts_ok(
    vars: Seq<Shape>,
    breaks: bool,
    continues: bool,
    stmts: Seq<Statement>,
    k: nat,
)
    requires
        stmts_ok(vars, breaks, continues, stmts, k),
    ensures
        k <= stmts.len(),
        forall|i: int| 0 <= i < k ==> stmt_ok(vars, breaks, continues, #[trigger] stmts[i]),
    decreases k,
{
    if k > 0 {
        lemma_stmts_ok(vars, breaks, continues, stmts, (k - 1) as nat);
    }
}

/// Where the last of some expressions has a place, all of them have one.
proof fn lemma_nodes_shape(vars: Seq<Shape>, nodes: Seq<Node>, k: nat)
    requires
        nodes_shape(vars, nodes, k) is Some,
    ensures
        0 < k <= nodes.len(),
        forall|i: int| 0 <= i < k ==> node_shape(vars, #[trigger] &nodes[i]) is Some,
    decreases k,
{
    if k > 1 {
        lemma_nodes_shape(vars, nodes, (k - 1) as nat);
    }
}

impl Context {
    pub fn new() -> (r: Self)
        ensures
            r == (Context {  }),
    {
        Context {  }
    }

    /// Lowers a function to Cranelift's intermediate language, and gives the text of it. The name
    /// is for the caller's records: it is no part of the text.
    pub fn lower_function(&mut self, _name: &str, ty: &FunctionType, body: &FunctionBody) -> (text:
        String)
        requires
            lowerable(*ty, *body),
        ensures
            text@ == function_text(function_code(*ty, *body)),
            sound_throughout(function_code(*ty, *body).push(Op::Finalize)),
            *final(self) == *old(self),
    {
        // 1. Signature
        let mut sig = new_signature(CallConv::SystemV);
        // - Return
        match &ty.ret.basetype {
            BaseType::Void => {},
            _ => push_return(&mut sig, cvt_ty(&ty.ret)),
        }
        assert(returns_of(sig) =~= return_types(*ty));
        // - Arguments
        let mut vars: Vec<ValueRef<'_>> = Vec::new();
        let args: usize = ty.args.len();
        let mut idx: usize = 0;
        while idx < args
            invariant
                idx <= args,
                args == ty.args@.len(),
                lowerable(*ty, *body),
                is_plain(sig),
                convention_of(sig) == CallConv::SystemV,
                params_of(sig) == param_types(*ty).take(idx as int),
                returns_of(sig) == return_types(*ty),
                vars@.len() == idx,
                forall|i: int|
                    0 <= i < idx ==> #[trigger] vars@[i] == ValueRef::Variable(Variable(i as u32)),
            decreases args - idx,
        {
            push_param(&mut sig, cvt_ty(&ty.args[idx].0));
            vars.push(ValueRef::Variable(Variable(idx as u32)));
            assert(param_types(*ty).take(idx as int).push(param_types(*ty)[idx as int])
                =~= param_types(*ty).take(idx + 1));
            idx += 1;
        }
        assert(params_of(sig) =~= param_types(*ty));

        let mut fn_builder_ctx = new_context();
        let mut func = new_function(0, 0, sig);
        let ghost start = function_ops(func);
        let mut b = Builder {
            builder: new_builder(&mut func, &mut fn_builder_ctx),
            stack: vec![Scope::new()],
            vars,
        };
        proof {
            lemma_start(param_types(*ty), return_types(*ty));
            lemma_sound_start(start[0]);
        }

        // Define variables
        let mut idx: usize = args;
        while idx < body.var_table.len()
            invariant
                args <= idx,
                idx <= body.var_table@.len() || idx == args,
                args == ty.args@.len(),
                lowerable(*ty, *body),
                only_slots(state(start), param_types(*ty), 0),
                sound_throughout(b.ops()),
                b.ops() == slots_code(start, *body, args as nat, idx as nat),
                b.vars@.len() == idx,
                forall|i: int|
                    0 <= i < idx ==> (#[trigger] b.vars@[i]).place() == var_places(*ty, *body)[i],
                b.stack@.len() == 1,
                b.scopes()[0] == Targets::unset(),
            decreases body.var_table@.len() - idx,
        {
            let var = &body.var_table[idx];
            let size = var.ty.get_size().unwrap();
            proof {
                lemma_slots(start, param_types(*ty), *body, args as nat, idx as nat);
            }
            let slot = create_explicit_slot(&mut b.builder, size);
            b.vars.push(ValueRef::StackSlot(slot, 0, &var.ty));
            idx += 1;
        }
        proof {
            lemma_slots(start, param_types(*ty), *body, args as nat, body.var_table@.len());
        }

        // Block 0 - Sets up arguments
        let block0 = create_block(&mut b.builder);
        append_function_params(&mut b.builder, block0);
        switch_to_block(&mut b.builder, block0);
        seal_block(&mut b.builder, block0);
        let ghost entered = b.ops();
        assert(state(entered).vars =~= Map::<nat, IrType>::empty());
        let mut idx: usize = 0;
        while idx < args
            invariant
                idx <= args,
                args == ty.args@.len(),
                lowerable(*ty, *body),
                open_for_code(state(entered)),
                state(entered).vars == Map::<nat, IrType>::empty(),
                state(entered).params == param_types(*ty),
                state(entered).params_of.contains_key(block0.id()),
                state(entered).params_of[block0.id()] == 0,
                param_types(*ty).len() <= state(entered).values.len(),
                forall|i: int|
                    0 <= i < args ==> #[trigger] state(entered).values[i] == param_types(*ty)[i],
                sound_throughout(b.ops()),
                b.ops() == args_code(entered, idx as nat),
                b.vars@.len() == var_places(*ty, *body).len(),
                forall|i: int|
                    0 <= i < b.vars@.len() ==> (#[trigger] b.vars@[i]).place() == var_places(
                        *ty,
                        *body,
                    )[i],
                b.stack@.len() == 1,
                b.scopes()[0] == Targets::unset(),
            decreases args - idx,
        {
            proof {
                lemma_args(entered, idx as nat);
            }
            match b.vars[idx] {
                ValueRef::Variable(v) => {
                    declare_var(&mut b.builder, v, IrType::I32);
                    let tmp = block_param(&b.builder, block0, idx);
                    assert(param_types(*ty)[idx as int] == IrType::I32);
                    def_var(&mut b.builder, v, tmp);
                },
                _ => unreached(),
            }
            idx += 1;
        }
        assert(b.ops() == prologue_code(*ty, *body));
        proof {
            law_prologue(*ty, *body);
            law_function_complete(*ty, *body);
            law_blocks_hide_no_loop(Seq::empty());
        }
        assert(b.places() =~= var_places(*ty, *body));
        assert(shapes(b.places()) =~= var_shapes(*ty, *body));
        assert(b.scopes() =~= Seq::empty().push(Targets::unset()));
        assert(b.scopes().push(Targets::unset()) =~= seq![Targets::unset(), Targets::unset()]);

        b.handle_block(&body.code);
        if !is_filled(&b.builder) {
            let none = Vec::new();
            assert(ids(none@) =~= Seq::empty());
            return_(&mut b.builder, &none);
        }
        let text = display(&b.builder);
        finalize(&mut b.builder);
        text
    }
}

} // verus!
