use cranelift_lower::ast::{
    BinOp, ExprOrDef, FunctionBody, IdentRef, Initialiser, Node, NodeKind, NodeMeta, Statement,
    UniOp, VarTableEntry, VariableDefinition,
};
use cranelift_lower::lower::Context;
use cranelift_lower::shape::can_lower;
use cranelift_lower::types::{
    BaseType, Field, FloatClass, FunctionType, IntClass, Signedness, TypeRef,
};

fn ty(basetype: BaseType, size: u32) -> TypeRef {
    TypeRef { basetype, size: Some(size) }
}

fn sint() -> TypeRef {
    ty(BaseType::Integer(IntClass::Int(Signedness::Signed)), 4)
}

fn uint() -> TypeRef {
    ty(BaseType::Integer(IntClass::Int(Signedness::Unsigned)), 4)
}

fn short() -> TypeRef {
    ty(BaseType::Integer(IntClass::Short(Signedness::Signed)), 2)
}

fn long() -> TypeRef {
    ty(BaseType::Integer(IntClass::LongLong(Signedness::Signed)), 8)
}

fn boolean() -> TypeRef {
    ty(BaseType::Bool, 1)
}

fn float() -> TypeRef {
    ty(BaseType::Float(FloatClass::Float), 4)
}

fn void() -> TypeRef {
    TypeRef { basetype: BaseType::Void, size: None }
}

fn pointer(to: TypeRef) -> TypeRef {
    ty(BaseType::Pointer(Box::new(to)), 4)
}

fn array(of: TypeRef, size: u32) -> TypeRef {
    ty(BaseType::Array(Box::new(of)), size)
}

/// A struct with two `int` members and an array.
fn pair() -> TypeRef {
    let fields = vec![
        Field { name: String::from("a"), offset: 0, ty: sint() },
        Field { name: String::from("b"), offset: 4, ty: sint() },
        Field { name: String::from("rest"), offset: 8, ty: array(sint(), 8) },
    ];
    ty(BaseType::Struct(fields), 16)
}

fn node(kind: NodeKind, ty: TypeRef) -> Node {
    Node { kind, meta: Some(NodeMeta { ty, is_lvalue: false }) }
}

fn var(idx: usize, ty: TypeRef) -> Node {
    let kind = NodeKind::Identifier(format!("v{}", idx), Some(IdentRef::Local(idx)));
    Node { kind, meta: Some(NodeMeta { ty, is_lvalue: true }) }
}

fn num(val: u64) -> Node {
    node(NodeKind::Integer(val, IntClass::Int(Signedness::Signed)), sint())
}

fn assign(slot: Node, val: Node) -> Node {
    node(NodeKind::Assign(Box::new(slot), Box::new(val)), sint())
}

fn cast(to: TypeRef, val: Node) -> Node {
    node(NodeKind::Cast(to, Box::new(val)), sint())
}

fn unary(op: UniOp, val: Node) -> Node {
    node(NodeKind::UniOp(op, Box::new(val)), sint())
}

fn binary(op: BinOp, left: Node, right: Node) -> Node {
    node(NodeKind::BinOp(op, Box::new(left), Box::new(right)), sint())
}

fn member(val: Node, name: &str, ty: TypeRef) -> Node {
    node(NodeKind::Member(Box::new(val), String::from(name)), ty)
}

fn expr(n: Node) -> Statement {
    Statement::Expr(n)
}

fn ret(n: Node) -> Statement {
    Statement::Return(Some(n))
}

fn function(ret: TypeRef, args: Vec<TypeRef>) -> FunctionType {
    FunctionType { ret, args: args.into_iter().map(|ty| (ty, String::from("arg"))).collect() }
}

fn body(vars: Vec<TypeRef>, code: Vec<Statement>) -> FunctionBody {
    let entry = |ty| VarTableEntry { name: String::from("x"), ty };
    FunctionBody { var_table: vars.into_iter().map(entry).collect(), code }
}

/// Lowers `code` in a function without arguments, with `vars` for variables.
fn lower(ret: TypeRef, vars: Vec<TypeRef>, code: Vec<Statement>) -> String {
    lower_with(ret, vec![], vars, code)
}

fn lower_with(
    ret: TypeRef,
    args: Vec<TypeRef>,
    vars: Vec<TypeRef>,
    code: Vec<Statement>,
) -> String {
    let ty = function(ret, args);
    let body = body(vars, code);
    assert!(can_lower(&ty, &body));
    Context::new().lower_function("f", &ty, &body)
}

fn refused(ret: TypeRef, vars: Vec<TypeRef>, code: Vec<Statement>) -> bool {
    !can_lower(&function(ret, vec![]), &body(vars, code))
}

#[test]
fn empty_function() {
    assert_eq!(
        lower(void(), vec![], vec![]),
        "function u0:0() system_v {\nblock0:\n    return\n}\n"
    );
}

#[test]
fn returns_a_constant() {
    let text = lower(sint(), vec![], vec![ret(num(5))]);
    assert_eq!(
        text,
        "function u0:0() -> i32 system_v {\n\
         block0:\n    v0 = iconst.i32 5\n    return v0\n\n\
         block1:\n    return\n}\n"
    );
}

#[test]
fn arguments_are_variables() {
    let sum = binary(BinOp::Add, var(0, uint()), var(1, uint()));
    let text = lower_with(uint(), vec![uint(), uint()], vec![uint(), uint()], vec![ret(sum)]);
    assert_eq!(
        text,
        "function u0:0(i32, i32) -> i32 system_v {\n\
         block0(v0: i32, v1: i32):\n    v2 = iadd v0, v1\n    return v2\n\n\
         block1:\n    return\n}\n"
    );
}

/// The text of a function without arguments and without stack slots.
fn plain(returns: &str, blocks: &str) -> String {
    format!("function u0:0(){} system_v {{\n{}}}\n", returns, blocks)
}

/// The text of a function without arguments that returns an `i32`, with stack slots.
fn slotted(slots: &str, blocks: &str) -> String {
    format!("function u0:0() -> i32 system_v {{\n{}\n{}}}\n", slots, blocks)
}

fn slot(n: usize, size: u32) -> String {
    format!("    ss{} = explicit_slot {}\n", n, size)
}

fn define(index: usize, value: Node) -> Statement {
    Statement::VarDef(vec![VariableDefinition {
        index: Some(index),
        value: Initialiser::Value(value),
    }])
}

fn compare(op: BinOp) -> ExprOrDef {
    ExprOrDef::Expr(binary(op, var(0, sint()), num(10)))
}

/// The text of the instruction that a binary operation on two constants comes to.
fn binary_text(op: BinOp, of: TypeRef) -> String {
    let left = node(NodeKind::Integer(6, IntClass::Int(Signedness::Signed)), of);
    let text = lower(void(), vec![], vec![expr(binary(op, left, num(2)))]);
    let head = "function u0:0() system_v {\n\
                block0:\n    v0 = iconst.i32 6\n    v1 = iconst.i32 2\n    v2 = ";
    let tail = "\n    return\n}\n";
    assert!(text.starts_with(head) && text.ends_with(tail), "{}", text);
    String::from(&text[head.len()..text.len() - tail.len()])
}

#[test]
fn returns_nothing() {
    assert_eq!(
        lower(void(), vec![], vec![Statement::Return(None)]),
        plain("", "block0:\n    return\n\nblock1:\n    return\n")
    );
}

#[test]
fn returns_an_argument() {
    let text = lower_with(sint(), vec![sint(), sint()], vec![], vec![ret(var(1, sint()))]);
    assert_eq!(
        text,
        "function u0:0(i32, i32) -> i32 system_v {\n\
         block0(v0: i32, v1: i32):\n    return v1\n\n\
         block1:\n    return\n}\n"
    );
}

#[test]
fn signature_has_the_types_of_the_function() {
    assert!(lower(boolean(), vec![], vec![]).starts_with("function u0:0() -> b8 system_v {"));
    assert!(lower(short(), vec![], vec![]).starts_with("function u0:0() -> i16 system_v {"));
    assert!(lower(long(), vec![], vec![]).starts_with("function u0:0() -> i64 system_v {"));
    let text = lower_with(pointer(void()), vec![pointer(sint()), uint()], vec![], vec![]);
    assert_eq!(
        text,
        "function u0:0(i32, i32) -> i32 system_v {\nblock0(v0: i32, v1: i32):\n    return\n}\n"
    );
}

#[test]
fn variables_have_stack_slots() {
    let text = lower_with(
        void(),
        vec![sint()],
        vec![sint(), sint(), long(), pair()],
        vec![expr(assign(var(1, sint()), var(0, sint())))],
    );
    assert_eq!(
        text,
        "function u0:0(i32) system_v {\n    \
         ss0 = explicit_slot 4\n    ss1 = explicit_slot 8\n    ss2 = explicit_slot 16\n\n\
         block0(v0: i32):\n    stack_store v0, ss0\n    return\n}\n"
    );
}

#[test]
fn constants_are_taken_as_signed() {
    let text = lower(sint(), vec![], vec![ret(num(0xFFFF_FFFF_FFFF_FFFE))]);
    assert_eq!(
        text,
        plain(
            " -> i32",
            "block0:\n    v0 = iconst.i32 -2\n    return v0\n\nblock1:\n    return\n"
        )
    );
}

#[test]
fn definitions_store_their_values() {
    let text = lower(
        sint(),
        vec![sint(), sint()],
        vec![
            Statement::VarDef(vec![
                VariableDefinition { index: Some(1), value: Initialiser::Value(num(7)) },
                VariableDefinition { index: Some(0), value: Initialiser::Uninitialised },
            ]),
            ret(var(1, sint())),
        ],
    );
    assert_eq!(
        text,
        slotted(
            &(slot(0, 4) + &slot(1, 4)),
            "block0:\n    v0 = iconst.i32 7\n    stack_store v0, ss1\n    \
             v1 = stack_load.i32 ss1\n    return v1\n\nblock1:\n    return\n"
        )
    );
}

#[test]
fn if_without_else() {
    let text = lower(
        void(),
        vec![],
        vec![Statement::IfStatement {
            cond: ExprOrDef::Expr(num(1)),
            true_arm: vec![expr(num(2))],
            else_arm: None,
        }],
    );
    assert_eq!(
        text,
        plain(
            "",
            "block0:\n    v0 = iconst.i32 1\n    brz v0, block2\n    jump block1\n\n\
             block1:\n    v1 = iconst.i32 2\n    jump block3\n\n\
             block2:\n    jump block3\n\n\
             block3:\n    return\n"
        )
    );
}

#[test]
fn if_with_else() {
    let text = lower_with(
        sint(),
        vec![sint()],
        vec![sint()],
        vec![Statement::IfStatement {
            cond: compare(BinOp::CmpGt),
            true_arm: vec![ret(num(1))],
            else_arm: Some(vec![Statement::Empty, expr(num(2))]),
        }],
    );
    assert_eq!(
        text,
        "function u0:0(i32) -> i32 system_v {\n\
         block0(v0: i32):\n    v1 = iconst.i32 10\n    v2 = icmp sgt v0, v1\n    \
         brz v2, block2\n    jump block1\n\n\
         block1:\n    v3 = iconst.i32 1\n    return v3\n\n\
         block4:\n    jump block3\n\n\
         block2:\n    v4 = iconst.i32 2\n    jump block3\n\n\
         block3:\n    return\n}\n"
    );
}

#[test]
fn while_loop() {
    let text = lower(
        sint(),
        vec![sint()],
        vec![
            define(0, num(0)),
            Statement::WhileLoop {
                cond: compare(BinOp::CmpLt),
                body: vec![expr(unary(UniOp::PostInc, var(0, sint())))],
            },
            ret(var(0, sint())),
        ],
    );
    assert_eq!(
        text,
        slotted(
            &slot(0, 4),
            "block0:\n    v0 = iconst.i32 0\n    stack_store v0, ss0\n    jump block1\n\n\
             block1:\n    v1 = iconst.i32 10\n    v2 = stack_load.i32 ss0\n    \
             v3 = icmp slt v2, v1\n    brz v3, block3\n    jump block2\n\n\
             block2:\n    v4 = stack_load.i32 ss0\n    v5 = iadd_imm v4, 1\n    \
             stack_store v5, ss0\n    jump block1\n\n\
             block3:\n    v6 = stack_load.i32 ss0\n    return v6\n\n\
             block4:\n    return\n"
        )
    );
}

#[test]
fn break_goes_to_the_head_and_continue_to_the_exit() {
    let text = lower(
        void(),
        vec![],
        vec![Statement::WhileLoop {
            cond: ExprOrDef::Expr(num(1)),
            body: vec![Statement::Block(vec![Statement::Break]), Statement::Continue],
        }],
    );
    assert_eq!(
        text,
        plain(
            "",
            "block0:\n    jump block1\n\n\
             block1:\n    v0 = iconst.i32 1\n    brz v0, block3\n    jump block2\n\n\
             block2:\n    jump block1\n\n\
             block4:\n    jump block3\n\n\
             block5:\n    jump block1\n\n\
             block3:\n    return\n"
        )
    );
}

#[test]
fn jumps_go_to_the_innermost_loop() {
    let inner = Statement::WhileLoop {
        cond: ExprOrDef::Expr(num(2)),
        body: vec![Statement::Continue],
    };
    let text = lower(
        void(),
        vec![],
        vec![Statement::WhileLoop {
            cond: ExprOrDef::Expr(num(1)),
            body: vec![inner, Statement::Continue],
        }],
    );
    assert_eq!(
        text,
        plain(
            "",
            "block0:\n    jump block1\n\n\
             block1:\n    v0 = iconst.i32 1\n    brz v0, block3\n    jump block2\n\n\
             block2:\n    jump block4\n\n\
             block4:\n    v1 = iconst.i32 2\n    brz v1, block6\n    jump block5\n\n\
             block5:\n    jump block6\n\n\
             block7:\n    jump block4\n\n\
             block6:\n    jump block3\n\n\
             block8:\n    jump block1\n\n\
             block3:\n    return\n"
        )
    );
}

#[test]
fn all_statements() {
    let text = lower(
        sint(),
        vec![sint(), sint()],
        vec![
            Statement::Empty,
            define(0, num(0)),
            Statement::WhileLoop {
                cond: compare(BinOp::CmpLt),
                body: vec![
                    expr(unary(UniOp::PostInc, var(0, sint()))),
                    Statement::IfStatement {
                        cond: ExprOrDef::Expr(var(0, sint())),
                        true_arm: vec![Statement::Break],
                        else_arm: Some(vec![Statement::Continue]),
                    },
                ],
            },
            Statement::Block(vec![ret(var(0, sint()))]),
        ],
    );
    assert_eq!(
        text,
        slotted(
            &(slot(0, 4) + &slot(1, 4)),
            "block0:\n    v0 = iconst.i32 0\n    stack_store v0, ss0\n    jump block1\n\n\
             block1:\n    v1 = iconst.i32 10\n    v2 = stack_load.i32 ss0\n    \
             v3 = icmp slt v2, v1\n    brz v3, block3\n    jump block2\n\n\
             block2:\n    v4 = stack_load.i32 ss0\n    v5 = iadd_imm v4, 1\n    \
             stack_store v5, ss0\n    v6 = stack_load.i32 ss0\n    brz v6, block5\n    \
             jump block4\n\n\
             block4:\n    jump block1\n\n\
             block7:\n    jump block6\n\n\
             block5:\n    jump block3\n\n\
             block8:\n    jump block6\n\n\
             block6:\n    jump block1\n\n\
             block3:\n    v7 = stack_load.i32 ss0\n    return v7\n\n\
             block9:\n    return\n"
        )
    );
}

#[test]
fn signed_operations() {
    assert_eq!(binary_text(BinOp::CmpLt, sint()), "icmp slt v0, v1");
    assert_eq!(binary_text(BinOp::CmpGt, sint()), "icmp sgt v0, v1");
    assert_eq!(binary_text(BinOp::CmpEqu, sint()), "icmp eq v0, v1");
    assert_eq!(binary_text(BinOp::CmpNEqu, sint()), "icmp ne v0, v1");
    assert_eq!(binary_text(BinOp::Div, sint()), "sdiv v0, v1");
    assert_eq!(binary_text(BinOp::Mod, sint()), "srem v0, v1");
    assert_eq!(binary_text(BinOp::ShiftLeft, sint()), "ishl v0, v1");
}

#[test]
fn unsigned_operations() {
    assert_eq!(binary_text(BinOp::CmpLt, uint()), "icmp ult v0, v1");
    assert_eq!(binary_text(BinOp::CmpGt, uint()), "icmp ugt v0, v1");
    assert_eq!(binary_text(BinOp::Add, uint()), "iadd v0, v1");
    assert_eq!(binary_text(BinOp::BitAnd, uint()), "band v0, v1");
    assert_eq!(binary_text(BinOp::BitOr, uint()), "bor v0, v1");
    assert_eq!(binary_text(BinOp::Add, pointer(sint())), "iadd v0, v1");
    assert_eq!(binary_text(BinOp::CmpLt, pointer(sint())), "icmp ult v0, v1");
}

#[test]
fn operations_on_floats_and_truth_values() {
    assert_eq!(binary_text(BinOp::CmpLt, float()), "fcmp lt v0, v1");
    assert_eq!(binary_text(BinOp::CmpGt, float()), "fcmp gt v0, v1");
    assert_eq!(binary_text(BinOp::LogicOr, boolean()), "bor v0, v1");
}

#[test]
fn operands_are_read_after_both_are_computed() {
    let left = assign(var(0, uint()), num(1));
    let left = Node { kind: left.kind, meta: Some(NodeMeta { ty: uint(), is_lvalue: true }) };
    let text = lower(
        sint(),
        vec![uint()],
        vec![ret(binary(BinOp::Add, left, assign(var(0, uint()), num(2))))],
    );
    assert_eq!(
        text,
        slotted(
            &slot(0, 4),
            "block0:\n    v0 = iconst.i32 1\n    stack_store v0, ss0\n    \
             v1 = iconst.i32 2\n    stack_store v1, ss0\n    \
             v2 = stack_load.i32 ss0\n    v3 = stack_load.i32 ss0\n    \
             v4 = iadd v2, v3\n    return v4\n\nblock1:\n    return\n"
        )
    );
}

#[test]
fn assigning_operation() {
    let val = node(NodeKind::Integer(3, IntClass::Int(Signedness::Unsigned)), uint());
    let n = NodeKind::AssignOp(BinOp::Add, Box::new(var(0, uint())), Box::new(val));
    let text = lower(sint(), vec![uint()], vec![ret(node(n, uint()))]);
    assert_eq!(
        text,
        slotted(
            &slot(0, 4),
            "block0:\n    v0 = iconst.i32 3\n    v1 = stack_load.i32 ss0\n    \
             v2 = iadd v1, v0\n    stack_store v2, ss0\n    \
             v3 = stack_load.i32 ss0\n    return v3\n\nblock1:\n    return\n"
        )
    );
}

#[test]
fn assigning_operation_goes_by_the_type_of_the_right_operand() {
    let n = NodeKind::AssignOp(BinOp::Div, Box::new(var(0, uint())), Box::new(num(3)));
    let text = lower(void(), vec![uint()], vec![expr(node(n, uint()))]);
    assert_eq!(
        text,
        "function u0:0() system_v {\n    ss0 = explicit_slot 4\n\n\
         block0:\n    v0 = iconst.i32 3\n    v1 = stack_load.i32 ss0\n    \
         v2 = sdiv v1, v0\n    stack_store v2, ss0\n    return\n}\n"
    );
}

#[test]
fn increments_and_decrements() {
    let text = |op: UniOp, imm: &str, result: &str| {
        slotted(
            &slot(0, 4),
            &format!(
                "block0:\n    v0 = stack_load.i32 ss0\n    v1 = iadd_imm v0, {}\n    \
                 stack_store v1, ss0\n    return {}\n\nblock1:\n    return\n",
                imm, result
            ),
        ) == lower(sint(), vec![sint()], vec![ret(unary(op, var(0, sint())))])
    };
    assert!(text(UniOp::PostInc, "1", "v0"));
    assert!(text(UniOp::PreInc, "1", "v1"));
    assert!(text(UniOp::PostDec, "-1", "v0"));
    assert!(text(UniOp::PreDec, "-1", "v1"));
}

#[test]
fn complements_and_negations() {
    let text = |op: UniOp, of: TypeRef| {
        let val = node(NodeKind::Integer(6, IntClass::Int(Signedness::Signed)), of);
        lower(void(), vec![], vec![expr(unary(op, val))])
    };
    let not = plain(
        "",
        "block0:\n    v0 = iconst.i32 6\n    v1 = icmp_imm eq v0, 0\n    return\n",
    );
    assert_eq!(text(UniOp::LogicNot, sint()), not);
    assert_eq!(text(UniOp::LogicNot, boolean()), not);
    assert_eq!(text(UniOp::LogicNot, pointer(sint())), not);
    assert_eq!(
        text(UniOp::BitNot, uint()),
        plain("", "block0:\n    v0 = iconst.i32 6\n    v1 = bnot v0\n    return\n")
    );
}

#[test]
fn pointers_are_read_and_written_through() {
    let target = || node(NodeKind::UniOp(UniOp::Deref, Box::new(var(0, pointer(sint())))), sint());
    let text = lower_with(
        sint(),
        vec![pointer(sint())],
        vec![pointer(sint())],
        vec![expr(assign(target(), num(9))), ret(target())],
    );
    assert_eq!(
        text,
        "function u0:0(i32) -> i32 system_v {\n\
         block0(v0: i32):\n    v1 = iconst.i32 9\n    store v1, v0\n    \
         v2 = load.i32 v0\n    return v2\n\n\
         block1:\n    return\n}\n"
    );
}

#[test]
fn members_are_found_by_their_offsets() {
    let text = lower(
        sint(),
        vec![pair()],
        vec![
            expr(assign(member(var(0, pair()), "b", sint()), num(4))),
            ret(member(var(0, pair()), "a", sint())),
        ],
    );
    assert_eq!(
        text,
        slotted(
            &slot(0, 16),
            "block0:\n    v0 = iconst.i32 4\n    stack_store v0, ss0+4\n    \
             v1 = stack_load.i32 ss0\n    return v1\n\nblock1:\n    return\n"
        )
    );
}

#[test]
fn members_through_a_pointer() {
    let target = || node(NodeKind::UniOp(UniOp::Deref, Box::new(var(0, pointer(pair())))), pair());
    let text = lower_with(
        sint(),
        vec![pointer(pair())],
        vec![],
        vec![
            expr(unary(UniOp::PreDec, member(target(), "b", sint()))),
            ret(member(target(), "b", sint())),
        ],
    );
    assert_eq!(
        text,
        "function u0:0(i32) -> i32 system_v {\n\
         block0(v0: i32):\n    v1 = load.i32 v0+4\n    v2 = iadd_imm v1, -1\n    \
         store v2, v0+4\n    v3 = load.i32 v0+4\n    return v3\n\n\
         block1:\n    return\n}\n"
    );
}

#[test]
fn nested_members_add_up() {
    let outer = || {
        let fields = vec![
            Field { name: String::from("pad"), offset: 0, ty: sint() },
            Field { name: String::from("in"), offset: 12, ty: pair() },
        ];
        ty(BaseType::Union(fields), 28)
    };
    let val = member(member(var(0, outer()), "in", pair()), "b", sint());
    let text = lower(sint(), vec![outer()], vec![ret(val)]);
    assert_eq!(
        text,
        slotted(
            &slot(0, 28),
            "block0:\n    v0 = stack_load.i32 ss0+16\n    return v0\n\nblock1:\n    return\n"
        )
    );
}

#[test]
fn casts_between_integers() {
    let text = |from: TypeRef, to: TypeRef| {
        let size = from.size.unwrap();
        let val = Node {
            kind: NodeKind::Identifier(String::from("x"), Some(IdentRef::Local(0))),
            meta: Some(NodeMeta { ty: from, is_lvalue: true }),
        };
        let from = match size {
            1 => boolean(),
            2 => short(),
            4 => sint(),
            _ => long(),
        };
        let text = lower(void(), vec![from], vec![expr(cast(to, val))]);
        let head = format!(
            "function u0:0() system_v {{\n{}\nblock0:\n    v0 = stack_load.",
            slot(0, size)
        );
        let tail = "    return\n}\n";
        assert!(text.starts_with(&head) && text.ends_with(tail), "{}", text);
        String::from(&text[head.len()..text.len() - tail.len()])
    };
    assert_eq!(text(sint(), uint()), "i32 ss0\n");
    assert_eq!(text(sint(), pointer(sint())), "i32 ss0\n");
    assert_eq!(text(short(), short()), "i16 ss0\n");
    assert_eq!(text(boolean(), boolean()), "b8 ss0\n");
    assert_eq!(text(long(), long()), "i64 ss0\n");
    assert_eq!(text(boolean(), short()), "b8 ss0\n    v1 = uextend.i16 v0\n");
    assert_eq!(text(boolean(), sint()), "b8 ss0\n    v1 = uextend.i32 v0\n");
    assert_eq!(text(boolean(), long()), "b8 ss0\n    v1 = uextend.i64 v0\n");
    assert_eq!(text(sint(), short()), "i32 ss0\n    v1 = ireduce.i16 v0\n");
    assert_eq!(text(long(), short()), "i64 ss0\n    v1 = ireduce.i16 v0\n");
    assert_eq!(text(long(), sint()), "i64 ss0\n    v1 = ireduce.i32 v0\n");
}

#[test]
fn arrays_decay_to_their_addresses() {
    let text = lower(
        sint(),
        vec![array(sint(), 12), pair()],
        vec![
            expr(cast(pointer(sint()), var(0, array(sint(), 12)))),
            ret(cast(pointer(sint()), member(var(1, pair()), "rest", array(sint(), 8)))),
        ],
    );
    assert_eq!(
        text,
        slotted(
            &(slot(0, 12) + &slot(1, 16)),
            "block0:\n    v0 = stack_addr.i32 ss0\n    v1 = stack_addr.i32 ss1+8\n    \
             return v1\n\nblock1:\n    return\n"
        )
    );
}

#[test]
fn arrays_behind_a_pointer_decay_too() {
    let target = node(NodeKind::UniOp(UniOp::Deref, Box::new(var(0, pointer(pair())))), pair());
    let text = lower_with(
        pointer(sint()),
        vec![pointer(pair())],
        vec![],
        vec![ret(cast(pointer(sint()), member(target, "rest", array(sint(), 8))))],
    );
    assert_eq!(
        text,
        "function u0:0(i32) -> i32 system_v {\n\
         block0(v0: i32):\n    v1 = iadd_imm v0, 8\n    return v1\n\n\
         block1:\n    return\n}\n"
    );
}

#[test]
fn implicit_casts_are_casts() {
    let explicit = lower(
        sint(),
        vec![long()],
        vec![ret(cast(sint(), var(0, long())))],
    );
    let implicit = lower(
        sint(),
        vec![long()],
        vec![ret(node(NodeKind::ImplicitCast(sint(), Box::new(var(0, long()))), sint()))],
    );
    assert_eq!(implicit, explicit);
    assert!(implicit.contains("v1 = ireduce.i32 v0\n"));
}

#[test]
fn conditional_expression() {
    let n = NodeKind::Ternary(
        Box::new(var(0, sint())),
        Box::new(num(1)),
        Box::new(unary(UniOp::BitNot, num(2))),
    );
    let text = lower_with(sint(), vec![sint()], vec![], vec![ret(node(n, sint()))]);
    assert_eq!(
        text,
        "function u0:0(i32) -> i32 system_v {\n\
         block0(v0: i32):\n    brz v0, block2\n    jump block1\n\n\
         block1:\n    v1 = iconst.i32 1\n    jump block3\n\n\
         block2:\n    v2 = iconst.i32 2\n    v3 = bnot v2\n    jump block3\n\n\
         block3:\n    v4 = select.i32 v0, v1, v3\n    return v4\n\n\
         block4:\n    return\n}\n"
    );
}

#[test]
fn expressions_separated_by_commas() {
    let list = NodeKind::StmtList(vec![num(1), num(2), num(3)]);
    assert_eq!(
        lower(sint(), vec![], vec![ret(node(list, sint()))]),
        plain(
            " -> i32",
            "block0:\n    v0 = iconst.i32 1\n    v1 = iconst.i32 2\n    \
             v2 = iconst.i32 3\n    return v2\n\nblock1:\n    return\n"
        )
    );
}

#[test]
fn context_and_name_leave_no_trace() {
    let ty = function(sint(), vec![sint()]);
    let body = body(vec![sint()], vec![ret(var(0, sint()))]);
    let mut context = Context::new();
    let first = context.lower_function("first", &ty, &body);
    let second = context.lower_function("second", &ty, &body);
    assert_eq!(first, second);
    assert_eq!(first, Context::new().lower_function("first", &ty, &body));
}

#[test]
fn statements_in_a_block_are_statements_in_sequence() {
    let flat = lower(
        sint(),
        vec![sint()],
        vec![define(0, num(1)), expr(num(2)), ret(var(0, sint()))],
    );
    let nested = lower(
        sint(),
        vec![sint()],
        vec![
            Statement::Block(vec![define(0, num(1))]),
            Statement::Block(vec![expr(num(2)), ret(var(0, sint()))]),
        ],
    );
    assert_eq!(flat, nested);
}

#[test]
fn code_after_a_return_is_in_a_block_of_its_own() {
    let text = lower(void(), vec![], vec![Statement::Return(None), expr(num(1))]);
    assert_eq!(
        text,
        plain("", "block0:\n    return\n\nblock1:\n    v0 = iconst.i32 1\n    return\n")
    );
}

#[test]
fn variables_are_kept_in_ssa_form_across_loops() {
    let text = lower_with(
        sint(),
        vec![sint()],
        vec![],
        vec![
            Statement::WhileLoop { cond: ExprOrDef::Expr(var(0, sint())), body: vec![] },
            ret(var(0, sint())),
        ],
    );
    assert_eq!(
        text,
        "function u0:0(i32) -> i32 system_v {\n\
         block0(v0: i32):\n    v1 -> v0\n    jump block1\n\n\
         block1:\n    brz.i32 v1, block3\n    jump block2\n\n\
         block2:\n    jump block1\n\n\
         block3:\n    return v1\n\n\
         block4:\n    return\n}\n"
    );
}

#[test]
fn missing_else_is_empty_else() {
    let text = |else_arm: Option<Vec<Statement>>| {
        let stmt = Statement::IfStatement {
            cond: ExprOrDef::Expr(num(1)),
            true_arm: vec![expr(num(2))],
            else_arm,
        };
        lower(void(), vec![], vec![stmt])
    };
    assert_eq!(text(None), text(Some(vec![])));
}

#[test]
fn casting_twice_is_casting_once() {
    let once = lower(sint(), vec![long()], vec![ret(cast(sint(), var(0, long())))]);
    let twice = lower(
        sint(),
        vec![long()],
        vec![ret(cast(sint(), cast(sint(), var(0, long()))))],
    );
    assert_eq!(once, twice);
}

#[test]
fn only_conditionals_add_blocks() {
    let conditional = || {
        let kind = NodeKind::Ternary(Box::new(num(1)), Box::new(num(2)), Box::new(num(3)));
        node(kind, uint())
    };
    let sum = |left: Node| binary(BinOp::Add, left, num(4));
    let left = node(NodeKind::Integer(1, IntClass::Int(Signedness::Unsigned)), uint());
    let text = lower(void(), vec![], vec![expr(sum(left))]);
    assert_eq!(text.matches("\nblock").count(), 1);
    let text = lower(void(), vec![], vec![expr(sum(conditional()))]);
    assert_eq!(text.matches("\nblock").count(), 4);
}

#[test]
fn arguments_in_code_that_is_not_reached_are_zero() {
    let text = lower_with(
        sint(),
        vec![sint()],
        vec![],
        vec![ret(num(1)), ret(var(0, sint()))],
    );
    assert_eq!(
        text,
        "function u0:0(i32) -> i32 system_v {\n\
         block0(v0: i32):\n    v1 = iconst.i32 1\n    return v1\n\n\
         block1:\n    v3 = iconst.i32 0\n    v2 -> v3\n    return v3\n\n\
         block2:\n    return\n}\n"
    );
}

#[test]
fn functions_whose_types_do_not_fit_are_refused() {
    assert!(refused(float(), vec![], vec![]));
    assert!(refused(pair(), vec![], vec![]));
    assert!(refused(ty(BaseType::Integer(IntClass::Char(Signedness::Signed)), 1), vec![], vec![]));
    assert!(refused(void(), vec![void()], vec![]));
    assert!(!can_lower(&function(void(), vec![long()]), &body(vec![], vec![])));
    assert!(!can_lower(&function(void(), vec![boolean()]), &body(vec![], vec![])));
    assert!(can_lower(&function(void(), vec![sint()]), &body(vec![], vec![])));
    // What stands for an argument in the table needs no size.
    assert!(can_lower(&function(void(), vec![sint()]), &body(vec![void()], vec![])));
}

#[test]
fn statements_without_code_are_refused() {
    let refuses = |stmt: Statement| refused(void(), vec![sint()], vec![stmt]);
    assert!(refuses(Statement::Break));
    assert!(refuses(Statement::Continue));
    assert!(refuses(Statement::Block(vec![Statement::Break])));
    assert!(refuses(Statement::DoWhileLoop { body: vec![], cond: num(1) }));
    assert!(refuses(Statement::ForLoop { init: None, cond: None, inc: None, body: vec![] }));
    assert!(refuses(Statement::Switch(num(1), vec![])));
    assert!(refuses(Statement::Label(String::from("l"))));
    assert!(refuses(Statement::Goto(String::from("l"))));
    assert!(refuses(Statement::WhileLoop { cond: ExprOrDef::Definition(vec![]), body: vec![] }));
    assert!(refuses(Statement::IfStatement {
        cond: ExprOrDef::Definition(vec![]),
        true_arm: vec![],
        else_arm: None,
    }));
    assert!(refuses(Statement::IfStatement {
        cond: ExprOrDef::Expr(num(1)),
        true_arm: vec![],
        else_arm: Some(vec![Statement::Continue]),
    }));
    assert!(refuses(ret(var(1, sint()))));
    assert!(!refuses(ret(var(0, sint()))));
}

#[test]
fn definitions_without_code_are_refused() {
    let refuses = |index: Option<usize>, value: Initialiser| {
        let def = VariableDefinition { index, value };
        refused(void(), vec![sint()], vec![Statement::VarDef(vec![def])])
    };
    assert!(refuses(None, Initialiser::Uninitialised));
    assert!(refuses(Some(1), Initialiser::Uninitialised));
    assert!(refuses(Some(0), Initialiser::ListLiteral(vec![])));
    assert!(refuses(Some(0), Initialiser::Value(var(0, sint()))));
    assert!(!refuses(Some(0), Initialiser::Value(num(1))));
    let ty = function(void(), vec![sint()]);
    let code = || vec![define(0, num(1))];
    assert!(!can_lower(&ty, &body(vec![sint()], code())));
}

#[test]
fn expressions_without_code_are_refused() {
    let refuses = |n: Node| {
        let ty = function(void(), vec![sint()]);
        !can_lower(&ty, &body(vec![sint(), sint(), pair(), float()], vec![expr(n)]))
    };
    let ident = |binding: Option<IdentRef>| {
        node(NodeKind::Identifier(String::from("x"), binding), sint())
    };
    assert!(refuses(ident(None)));
    assert!(refuses(ident(Some(IdentRef::StaticItem))));
    assert!(refuses(ident(Some(IdentRef::Function))));
    assert!(refuses(ident(Some(IdentRef::Enumeration))));
    assert!(refuses(ident(Some(IdentRef::Local(4)))));
    assert!(!refuses(ident(Some(IdentRef::Local(3)))));
    assert!(refuses(node(NodeKind::StmtList(vec![]), sint())));
    assert!(refuses(node(NodeKind::StmtList(vec![ident(None), num(1)]), sint())));
    assert!(refuses(node(NodeKind::String(String::from("s")), sint())));
    assert!(refuses(node(NodeKind::FunctionCall(Box::new(num(1)), vec![]), sint())));
    assert!(refuses(node(NodeKind::Index(Box::new(num(1)), Box::new(num(2))), sint())));
    assert!(refuses(node(NodeKind::DerefMember(Box::new(num(1)), String::from("a")), sint())));
    // An argument is not in memory, and what is in memory has to be read first.
    assert!(refuses(assign(var(0, sint()), num(1))));
    assert!(refuses(assign(num(1), num(1))));
    assert!(refuses(assign(var(1, sint()), var(1, sint()))));
    assert!(!refuses(assign(var(1, sint()), var(0, sint()))));
    assert!(!refuses(assign(var(1, sint()), cast(sint(), var(1, sint())))));
    assert!(refuses(unary(UniOp::PreInc, var(0, sint()))));
    assert!(refuses(unary(UniOp::Neg, num(1))));
    assert!(refuses(unary(UniOp::Address, var(1, sint()))));
    assert!(refuses(unary(UniOp::Deref, num(1))));
    assert!(refuses(unary(UniOp::BitNot, var(1, boolean()))));
    assert!(refuses(unary(UniOp::LogicNot, var(1, float()))));
    // A value of a type without SSA values cannot be read.
    assert!(refuses(unary(UniOp::LogicNot, var(3, sint()))));
    assert!(refuses(unary(UniOp::BitNot, Node { kind: num(1).kind, meta: None })));
}

#[test]
fn operations_and_casts_without_code_are_refused() {
    let refuses = |n: Node| {
        refused(void(), vec![sint(), pair(), array(sint(), 8)], vec![expr(n)])
    };
    let of = |ty: TypeRef| {
        node(NodeKind::Integer(1, IntClass::Int(Signedness::Signed)), ty)
    };
    assert!(refuses(binary(BinOp::Add, num(1), num(2))));
    assert!(refuses(binary(BinOp::CmpEqu, of(uint()), num(2))));
    assert!(refuses(binary(BinOp::LogicAnd, of(boolean()), num(2))));
    assert!(refuses(binary(BinOp::Add, of(float()), num(2))));
    assert!(refuses(binary(BinOp::Add, of(pair()), num(2))));
    assert!(refuses(cast(long(), num(1))));
    assert!(refuses(cast(boolean(), num(1))));
    assert!(refuses(cast(pair(), num(1))));
    assert!(refuses(cast(sint(), of(float()))));
    assert!(refuses(cast(sint(), var(2, array(sint(), 8)))));
    assert!(refuses(cast(pointer(sint()), of(array(sint(), 8)))));
    assert!(!refuses(cast(pointer(sint()), var(2, array(sint(), 8)))));
    assert!(refuses(member(var(1, pair()), "c", sint())));
    assert!(refuses(member(var(0, sint()), "a", sint())));
    assert!(refuses(member(of(pair()), "a", sint())));
    assert!(!refuses(member(var(1, pair()), "a", sint())));
    let far = || {
        let fields = vec![Field { name: String::from("x"), offset: u32::MAX, ty: pair() }];
        ty(BaseType::Struct(fields), 16)
    };
    assert!(!refuses(member(member(var(1, far()), "x", pair()), "a", sint())));
    assert!(refuses(member(member(var(1, far()), "x", pair()), "b", sint())));
    let ternary = |is_lvalue: bool| {
        let kind = NodeKind::Ternary(Box::new(num(1)), Box::new(num(2)), Box::new(num(3)));
        Node { kind, meta: Some(NodeMeta { ty: sint(), is_lvalue }) }
    };
    assert!(refuses(ternary(true)));
    assert!(!refuses(ternary(false)));
}
