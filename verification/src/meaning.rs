//! What programs mean: C functions on the one hand, and the operations that they are lowered to on
//! the other.
//!
//! Both are explained over the same target, which says what the single instructions compute; what
//! is said of every target holds of every processor. Words and whole memories are numbered: they
//! are integers here, and nothing is known of them but what the target says.
use vstd::prelude::*;
use crate::ast::{
    BinOp, ExprOrDef, FunctionBody, IdentRef, Initialiser, Node, NodeKind, Statement, UniOp,
    VariableDefinition,
};
use crate::ir::{state, use_var_value, BinInst, IntCC, IrType, Op};
use crate::shape::{binop_inst, ir_type, type_of};
use crate::types::{BaseType, FunctionType, TypeRef};

verus! {

/// What the instructions compute. Loads take a memory, and stores give one.
pub struct Target {
    pub constant: spec_fn(IrType, i64) -> int,
    pub add_imm: spec_fn(int, i64) -> int,
    pub compare_imm: spec_fn(IntCC, int, i64) -> int,
    pub not: spec_fn(int) -> int,
    pub binary: spec_fn(BinInst, int, int) -> int,
    pub extend: spec_fn(IrType, int) -> int,
    pub reduce: spec_fn(IrType, int) -> int,
    pub slot_address: spec_fn(IrType, nat, i32) -> int,
    pub slot_load: spec_fn(int, IrType, nat, i32) -> int,
    pub slot_store: spec_fn(int, nat, i32, int) -> int,
    pub load: spec_fn(int, IrType, int, i32) -> int,
    pub store: spec_fn(int, int, i32, int) -> int,
    pub is_zero: spec_fn(int) -> bool,
}

/// Where the value of a C expression is.
pub enum Loc {
    /// Nowhere but in hand
    Value(int),
    Arg(nat),
    /// In a local variable, at an offset
    Slot(nat, int, TypeRef),
    /// At an offset from an address
    Memory(int, int, TypeRef),
}

/// A call of a C function: the target it runs on, its arguments, and where its variables are.
pub struct Call {
    pub target: Target,
    pub args: Seq<int>,
    pub vars: Seq<Loc>,
}

/// How a statement ends.
pub enum Outcome {
    Normal,
    Break,
    Continue,
    Return(Seq<int>),
}

impl Call {
    /// What is found at `loc`.
    pub open spec fn get(self, mem: int, loc: Loc) -> int {
        let t = self.target;
        match loc {
            Loc::Value(v) => v,
            Loc::Arg(i) => self.args[i as int],
            Loc::Slot(slot, ofs, ty) => (t.slot_load)(mem, ir_type(ty)->0, slot, ofs as i32),
            Loc::Memory(at, ofs, ty) => (t.load)(mem, ir_type(ty)->0, at, ofs as i32),
        }
    }

    /// The memory once `v` is put at `loc`.
    pub open spec fn put(self, mem: int, loc: Loc, v: int) -> int {
        let t = self.target;
        match loc {
            Loc::Slot(slot, ofs, _) => (t.slot_store)(mem, slot, ofs as i32, v),
            Loc::Memory(at, ofs, _) => (t.store)(mem, at, ofs as i32, v),
            _ => mem,
        }
    }

    /// A value of type `src`, found at `loc`, as one of type `dst`. An array is taken by its
    /// address, a truth value is extended, and what is too wide is cut off.
    pub open spec fn cast(self, mem: int, loc: Loc, src: TypeRef, dst: TypeRef) -> int {
        let t = self.target;
        if src.basetype is Array {
            match loc {
                Loc::Slot(slot, ofs, _) => (t.slot_address)(IrType::I32, slot, ofs as i32),
                Loc::Memory(at, ofs, _) => (t.add_imm)(at, ofs as i64),
                _ => 0,
            }
        } else {
            let v = self.get(mem, loc);
            if ir_type(src) == ir_type(dst) {
                v
            } else if src.basetype is Bool {
                (t.extend)(ir_type(dst)->0, v)
            } else {
                (t.reduce)(ir_type(dst)->0, v)
            }
        }
    }

    /// A unary operation on what is at `loc`, of type `ty`.
    pub open spec fn unary(self, mem: int, op: UniOp, loc: Loc, ty: TypeRef) -> (int, Loc) {
        let t = self.target;
        let v = self.get(mem, loc);
        let up = (t.add_imm)(v, 1i64);
        let down = (t.add_imm)(v, -1i64);
        match op {
            UniOp::PostInc => (self.put(mem, loc, up), Loc::Value(v)),
            UniOp::PostDec => (self.put(mem, loc, down), Loc::Value(v)),
            UniOp::PreInc => (self.put(mem, loc, up), Loc::Value(up)),
            UniOp::PreDec => (self.put(mem, loc, down), Loc::Value(down)),
            UniOp::Deref => match ty.basetype {
                BaseType::Pointer(target) => (mem, Loc::Memory(v, 0, *target)),
                _ => (mem, loc),
            },
            UniOp::BitNot => (mem, Loc::Value((t.not)(v))),
            UniOp::LogicNot => (mem, Loc::Value((t.compare_imm)(IntCC::Equal, v, 0))),
            _ => (mem, loc),
        }
    }

    /// The member `name` of a struct or union of type `ty` at `loc`: it is as far behind the
    /// beginning of what is there as the type says.
    pub open spec fn member(self, loc: Loc, ty: TypeRef, name: Seq<char>) -> Loc {
        match (ty.field(name), loc) {
            (Some((ofs, field_ty)), Loc::Slot(slot, at, _)) => Loc::Slot(slot, at + ofs, field_ty),
            (Some((ofs, field_ty)), Loc::Memory(p, at, _)) => Loc::Memory(p, at + ofs, field_ty),
            _ => loc,
        }
    }

    /// Evaluates an expression: the memory afterwards, and where its value is.
    pub open spec fn eval(self, mem: int, n: Node) -> (int, Loc)
        decreases n, 0nat,
    {
        let t = self.target;
        match n.kind {
            NodeKind::StmtList(nodes) => self.eval_all(mem, nodes@, nodes@.len()),
            NodeKind::Identifier(_, Some(IdentRef::Local(idx))) => (mem, self.vars[idx as int]),
            NodeKind::Integer(val, _) => (
                mem,
                Loc::Value((t.constant)(IrType::I32, val as i64)),
            ),
            NodeKind::Assign(slot, val) => {
                let (mem, to) = self.eval(mem, *slot);
                let (mem, from) = self.eval(mem, *val);
                (self.put(mem, to, self.get(mem, from)), to)
            },
            NodeKind::AssignOp(op, slot, val) => {
                let (mem, to) = self.eval(mem, *slot);
                let (mem, from) = self.eval(mem, *val);
                let inst = binop_inst(op, type_of(*val)->0)->0;
                let v = (t.binary)(inst, self.get(mem, to), self.get(mem, from));
                (self.put(mem, to, v), to)
            },
            NodeKind::Cast(ty, val) => {
                let (mem, loc) = self.eval(mem, *val);
                (mem, Loc::Value(self.cast(mem, loc, type_of(*val)->0, ty)))
            },
            NodeKind::ImplicitCast(ty, val) => {
                let (mem, loc) = self.eval(mem, *val);
                (mem, Loc::Value(self.cast(mem, loc, type_of(*val)->0, ty)))
            },
            NodeKind::Ternary(cond, yes, no) => {
                let (mem, loc) = self.eval(mem, *cond);
                let (mem, loc) = if (t.is_zero)(self.get(mem, loc)) {
                    self.eval(mem, *no)
                } else {
                    self.eval(mem, *yes)
                };
                (mem, Loc::Value(self.get(mem, loc)))
            },
            NodeKind::UniOp(op, val) => {
                let (mem, loc) = self.eval(mem, *val);
                self.unary(mem, op, loc, type_of(*val)->0)
            },
            NodeKind::BinOp(op, left, right) => {
                let (mem, x) = self.eval(mem, *left);
                let (mem, y) = self.eval(mem, *right);
                let inst = binop_inst(op, type_of(*left)->0)->0;
                (mem, Loc::Value((t.binary)(inst, self.get(mem, x), self.get(mem, y))))
            },
            NodeKind::Member(val, name) => {
                let (mem, loc) = self.eval(mem, *val);
                (mem, self.member(loc, type_of(*val)->0, name@))
            },
            _ => (mem, Loc::Value(0)),
        }
    }

    /// Evaluates the first `k` of `nodes`, one after the other; the value is that of the last.
    pub open spec fn eval_all(self, mem: int, nodes: Seq<Node>, k: nat) -> (int, Loc)
        decreases nodes, k,
    {
        if k == 0 || k > nodes.len() {
            (mem, Loc::Value(0))
        } else {
            let (mem, _) = self.eval_all(mem, nodes, (k - 1) as nat);
            self.eval(mem, nodes[k - 1])
        }
    }

    /// Evaluates a condition: the memory afterwards, and the value.
    pub open spec fn test(self, mem: int, cond: ExprOrDef) -> (int, int) {
        match cond {
            ExprOrDef::Expr(n) => {
                let (mem, loc) = self.eval(mem, n);
                (mem, self.get(mem, loc))
            },
            ExprOrDef::Definition(_) => (mem, 0),
        }
    }

    /// The memory once the first `k` of `defs` have given their variables their values, one after
    /// the other.
    pub open spec fn define(self, mem: int, defs: Seq<VariableDefinition>, k: nat) -> int
        decreases k,
    {
        if k == 0 {
            mem
        } else {
            let mem = self.define(mem, defs, (k - 1) as nat);
            match defs[k - 1].value {
                Initialiser::Value(n) => {
                    let (mem, loc) = self.eval(mem, n);
                    let to = self.vars[defs[k - 1].index->0 as int];
                    self.put(mem, to, self.get(mem, loc))
                },
                _ => mem,
            }
        }
    }

    /// Runs a statement: the memory afterwards, and how it ends. `None` if a loop does not end
    /// before it has been round `fuel` times.
    ///
    /// In a loop, `break` goes on with the next test of the condition, and `continue` leaves the
    /// loop.
    pub open spec fn exec(self, fuel: nat, mem: int, stmt: Statement) -> Option<(int, Outcome)>
        decreases fuel, stmt, 0nat,
    {
        match stmt {
            Statement::VarDef(defs) => Some(
                (self.define(mem, defs@, defs@.len()), Outcome::Normal),
            ),
            Statement::Expr(n) => Some((self.eval(mem, n).0, Outcome::Normal)),
            Statement::Block(stmts) => self.exec_all(fuel, mem, stmts@, stmts@.len()),
            Statement::IfStatement { cond, true_arm, else_arm } => {
                let (mem, c) = self.test(mem, cond);
                if !(self.target.is_zero)(c) {
                    self.exec_all(fuel, mem, true_arm@, true_arm@.len())
                } else {
                    match else_arm {
                        Some(stmts) => self.exec_all(fuel, mem, stmts@, stmts@.len()),
                        None => Some((mem, Outcome::Normal)),
                    }
                }
            },
            Statement::WhileLoop { cond, body } => {
                let (mem, c) = self.test(mem, cond);
                if (self.target.is_zero)(c) {
                    Some((mem, Outcome::Normal))
                } else {
                    match self.exec_all(fuel, mem, body@, body@.len()) {
                        Some((mem, Outcome::Continue)) => Some((mem, Outcome::Normal)),
                        Some((mem, Outcome::Return(v))) => Some((mem, Outcome::Return(v))),
                        Some((mem, _)) => if fuel == 0 {
                            None
                        } else {
                            self.exec((fuel - 1) as nat, mem, stmt)
                        },
                        None => None,
                    }
                }
            },
            Statement::Continue => Some((mem, Outcome::Continue)),
            Statement::Break => Some((mem, Outcome::Break)),
            Statement::Return(Some(n)) => {
                let (mem, loc) = self.eval(mem, n);
                Some((mem, Outcome::Return(seq![self.get(mem, loc)])))
            },
            Statement::Return(None) => Some((mem, Outcome::Return(Seq::empty()))),
            _ => Some((mem, Outcome::Normal)),
        }
    }

    /// Runs the first `k` of `stmts`, one after the other, until one of them ends otherwise than
    /// normally.
    pub open spec fn exec_all(self, fuel: nat, mem: int, stmts: Seq<Statement>, k: nat) -> Option<
        (int, Outcome),
    >
        decreases fuel, stmts, k,
    {
        if k == 0 || k > stmts.len() {
            Some((mem, Outcome::Normal))
        } else {
            match self.exec_all(fuel, mem, stmts, (k - 1) as nat) {
                Some((mem, Outcome::Normal)) => self.exec(fuel, mem, stmts[k - 1]),
                ended => ended,
            }
        }
    }
}

/// A call of a function of type `ty` and with this body. Its arguments come first among its
/// variables; each of the others has a place of its own.
pub open spec fn call_of(
    ty: FunctionType,
    body: FunctionBody,
    target: Target,
    args: Seq<int>,
) -> Call {
    let count = ty.args@.len();
    let table = body.var_table@;
    Call {
        target,
        args,
        vars: Seq::new(
            if count <= table.len() {
                table.len()
            } else {
                count
            },
            |i: int|
                if i < count {
                    Loc::Arg(i as nat)
                } else {
                    Loc::Slot((i - count) as nat, 0, table[i].ty)
                },
        ),
    }
}

/// What a call leaves in memory and returns, if it ends before a loop has been round `fuel` times.
/// It returns nothing if it gets to its end.
pub open spec fn call_result(c: Call, body: FunctionBody, fuel: nat, mem: int) -> Option<
    (int, Seq<int>),
> {
    match c.exec_all(fuel, mem, body.code@, body.code@.len()) {
        Some((mem, Outcome::Return(v))) => Some((mem, v)),
        Some((mem, _)) => Some((mem, Seq::empty())),
        None => None,
    }
}

/// A function that was built by `ops`, to be run on a target with some arguments.
pub struct Program {
    pub ops: Seq<Op>,
    pub target: Target,
    pub args: Seq<int>,
}

/// A program while it runs. `at` is the next operation; `env` holds the values that instructions
/// have yielded, and `vars` those that variables were given.
pub struct Machine {
    pub at: int,
    pub env: Map<nat, int>,
    pub vars: Map<nat, int>,
    pub mem: int,
    pub result: Option<Seq<int>>,
}

/// The `j`th of `ops` uses a variable, and SSA construction finds the value `n` for it.
pub open spec fn finds(ops: Seq<Op>, j: int, n: nat) -> bool {
    &&& 0 <= j < ops.len()
    &&& ops[j] matches Op::UseVar { var } && use_var_value(ops.take(j), var) == n
}

/// The variable that the value `n` was found for, if it was found for one.
pub open spec fn owner(ops: Seq<Op>, n: nat) -> Option<nat> {
    if exists|j: int| finds(ops, j, n) {
        let j = choose|j: int| finds(ops, j, n);
        Some(ops[j]->UseVar_var)
    } else {
        None
    }
}

/// The values that SSA construction finds for a variable are this variable's own: none of them is
/// found for another one, or yielded by an instruction.
pub open spec fn apart(ops: Seq<Op>) -> bool {
    &&& forall|i: int, j: int, n: nat| #[trigger]
        finds(ops, i, n) && #[trigger] finds(ops, j, n) ==> ops[i] == ops[j]
    &&& forall|i: int, j: int, n: nat|
        #![trigger finds(ops, j, n), ops[i]]
        finds(ops, j, n) && 0 <= i < ops.len() && state(ops.take(i)).result_type(ops[i]) is Some
            ==> state(ops.take(i)).values.len() != n
}

/// No block is entered twice.
pub open spec fn entered_once(ops: Seq<Op>) -> bool {
    forall|i: int, j: int|
        0 <= i < ops.len() && 0 <= j < ops.len() && #[trigger] ops[i] is SwitchTo && ops[i]
            == #[trigger] ops[j] ==> i == j
}

/// Where the code of `block` begins.
pub open spec fn entry(ops: Seq<Op>, block: nat) -> int {
    choose|i: int| 0 <= i < ops.len() && #[trigger] ops[i] == (Op::SwitchTo { block })
}

/// The parameters of the function, the first `k` of which are the values from number `first` on.
pub open spec fn bind(env: Map<nat, int>, first: nat, args: Seq<int>, k: nat) -> Map<nat, int>
    decreases k,
{
    if k == 0 {
        env
    } else {
        bind(env, first, args, (k - 1) as nat).insert((first + k - 1) as nat, args[k - 1])
    }
}

impl Program {
    /// What a value holds. A value that was found for a variable holds what the variable does.
    pub open spec fn look(self, m: Machine, n: nat) -> int {
        match owner(self.ops, n) {
            Some(var) => m.vars[var],
            None => m.env[n],
        }
    }

    /// The number of the value that an operation would yield here.
    pub open spec fn fresh(self, m: Machine) -> nat {
        state(self.ops.take(m.at)).values.len()
    }

    /// What an operation that yields a value computes.
    pub open spec fn word(self, m: Machine, op: Op) -> int {
        let t = self.target;
        match op {
            Op::Iconst { ty, imm } => (t.constant)(ty, imm),
            Op::IaddImm { x, imm } => (t.add_imm)(self.look(m, x), imm),
            Op::IntCompareImm { cond, x, imm } => (t.compare_imm)(cond, self.look(m, x), imm),
            Op::Bnot { x } => (t.not)(self.look(m, x)),
            Op::Binary { inst, x, y } => (t.binary)(inst, self.look(m, x), self.look(m, y)),
            Op::Select { c, x, y } => if (t.is_zero)(self.look(m, c)) {
                self.look(m, y)
            } else {
                self.look(m, x)
            },
            Op::Uextend { ty, x } => (t.extend)(ty, self.look(m, x)),
            Op::Ireduce { ty, x } => (t.reduce)(ty, self.look(m, x)),
            Op::StackAddr { ty, slot, offset } => (t.slot_address)(ty, slot, offset),
            Op::StackLoad { ty, slot, offset } => (t.slot_load)(m.mem, ty, slot, offset),
            Op::Load { ty, p, offset } => (t.load)(m.mem, ty, self.look(m, p), offset),
            _ => 0,
        }
    }

    /// One operation. Those that only help to build the function do nothing when it runs.
    pub open spec fn step(self, m: Machine) -> Machine {
        let t = self.target;
        let next = Machine { at: m.at + 1, ..m };
        if m.result is Some || !(0 <= m.at < self.ops.len()) {
            m
        } else {
            match self.ops[m.at] {
                Op::FunctionParams { .. } => Machine {
                    env: bind(m.env, self.fresh(m), self.args, self.args.len()),
                    ..next
                },
                Op::DefVar { var, value } => Machine {
                    vars: m.vars.insert(var, m.env[value]),
                    ..next
                },
                Op::StackStore { x, slot, offset } => Machine {
                    mem: (t.slot_store)(m.mem, slot, offset, self.look(m, x)),
                    ..next
                },
                Op::Store { x, p, offset } => Machine {
                    mem: (t.store)(m.mem, self.look(m, p), offset, self.look(m, x)),
                    ..next
                },
                Op::Brz { c, block } => if (t.is_zero)(self.look(m, c)) {
                    Machine { at: entry(self.ops, block), ..m }
                } else {
                    next
                },
                Op::Jump { block } => Machine { at: entry(self.ops, block), ..m },
                Op::Return { values } => Machine {
                    result: Some(values.map_values(|n: nat| self.look(m, n))),
                    ..m
                },
                Op::Function { .. } | Op::ExplicitSlot { .. } | Op::CreateBlock => next,
                Op::SwitchTo { .. } | Op::Seal { .. } | Op::DeclareVar { .. } => next,
                Op::UseVar { .. } | Op::Finalize => next,
                op => Machine { env: m.env.insert(self.fresh(m), self.word(m, op)), ..next },
            }
        }
    }

    pub open spec fn run(self, m: Machine, n: nat) -> Machine
        decreases n,
    {
        if n == 0 {
            m
        } else {
            self.run(self.step(m), (n - 1) as nat)
        }
    }

    /// The machine gets from `a` to `b`.
    pub open spec fn leads(self, a: Machine, b: Machine) -> bool {
        exists|n: nat| #[trigger] self.run(a, n) == b
    }
}

} // verus!
