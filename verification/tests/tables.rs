use cranelift_lower::ast::BinOp;
use cranelift_lower::ir::{BinInst, FloatCC, IntCC, IrType};
use cranelift_lower::shape::{ir_type_of, select_binop, select_cast, CastInst};
use cranelift_lower::types::{BaseType, Field, FloatClass, IntClass, Signedness, TypeRef};

fn ty(basetype: BaseType, size: Option<u32>) -> TypeRef {
    TypeRef { basetype, size }
}

fn integer(class: IntClass, size: u32) -> TypeRef {
    ty(BaseType::Integer(class), Some(size))
}

#[test]
fn signedness_of_integer_classes() {
    for sign in [Signedness::Signed, Signedness::Unsigned] {
        assert_eq!(IntClass::Bits(sign, 16).signedness(), sign);
        assert_eq!(IntClass::Char(sign).signedness(), sign);
        assert_eq!(IntClass::Short(sign).signedness(), sign);
        assert_eq!(IntClass::Int(sign).signedness(), sign);
        assert_eq!(IntClass::Long(sign).signedness(), sign);
        assert_eq!(IntClass::LongLong(sign).signedness(), sign);
    }
}

#[test]
fn types_of_ssa_values() {
    let class = IntClass::Long(Signedness::Signed);
    assert_eq!(ir_type_of(&ty(BaseType::Bool, Some(1))), Some(IrType::B8));
    assert_eq!(ir_type_of(&integer(class, 8)), Some(IrType::I64));
    assert_eq!(ir_type_of(&integer(class, 4)), Some(IrType::I32));
    assert_eq!(ir_type_of(&integer(class, 2)), Some(IrType::I16));
    assert_eq!(ir_type_of(&integer(class, 1)), None);
    assert_eq!(ir_type_of(&ty(BaseType::Integer(class), None)), None);
    let pointer = BaseType::Pointer(Box::new(ty(BaseType::Void, None)));
    assert_eq!(ir_type_of(&ty(pointer, Some(8))), Some(IrType::I32));
    assert_eq!(ir_type_of(&ty(BaseType::Void, None)), None);
    assert_eq!(ir_type_of(&ty(BaseType::Enum, Some(4))), None);
    assert_eq!(ir_type_of(&ty(BaseType::Float(FloatClass::Double), Some(8))), None);
}

#[test]
fn first_member_of_a_name_counts() {
    let fields = |offsets: [u32; 2]| {
        let field = |offset| Field {
            name: String::from("x"),
            offset,
            ty: ty(BaseType::Bool, Some(offset)),
        };
        vec![field(offsets[0]), field(offsets[1])]
    };
    let name = String::from("x");
    let of = ty(BaseType::Struct(fields([3, 5])), Some(8));
    let (ofs, field_ty) = of.get_field(&name).unwrap();
    assert_eq!(ofs, 3);
    assert_eq!(field_ty.get_size(), Some(3));
    let of = ty(BaseType::Union(fields([0, 2])), Some(8));
    assert_eq!(of.get_field(&name).unwrap().0, 0);
    assert!(of.get_field(&String::from("y")).is_none());
    assert!(ty(BaseType::Enum, Some(4)).get_field(&name).is_none());
    assert_eq!(ty(BaseType::Void, None).get_size(), None);
}

#[test]
fn binary_operations_by_type() {
    let signed = integer(IntClass::Int(Signedness::Signed), 4);
    let unsigned = integer(IntClass::Int(Signedness::Unsigned), 4);
    let float = ty(BaseType::Float(FloatClass::Float), Some(4));
    let boolean = ty(BaseType::Bool, Some(1));
    assert_eq!(
        select_binop(BinOp::CmpLt, &signed),
        Some(BinInst::IntCompare(IntCC::SignedLessThan))
    );
    assert_eq!(
        select_binop(BinOp::CmpLt, &unsigned),
        Some(BinInst::IntCompare(IntCC::UnsignedLessThan))
    );
    assert_eq!(
        select_binop(BinOp::CmpGt, &float),
        Some(BinInst::FloatCompare(FloatCC::GreaterThan))
    );
    assert_eq!(select_binop(BinOp::Mod, &signed), Some(BinInst::Srem));
    assert_eq!(select_binop(BinOp::Mod, &unsigned), None);
    assert_eq!(select_binop(BinOp::Add, &signed), None);
    assert_eq!(select_binop(BinOp::Add, &unsigned), Some(BinInst::Iadd));
    assert_eq!(select_binop(BinOp::LogicOr, &boolean), Some(BinInst::Bor));
    assert_eq!(select_binop(BinOp::BitOr, &boolean), None);
    assert_eq!(select_binop(BinOp::Add, &ty(BaseType::Void, None)), None);
}

#[test]
fn casts_by_type() {
    let integers = [IrType::I8, IrType::I16, IrType::I32, IrType::I64];
    for (s, src) in integers.iter().enumerate() {
        for (d, dst) in integers.iter().enumerate() {
            let cast = select_cast(*src, *dst);
            if s == d {
                assert_eq!(cast, Some(CastInst::Keep));
            } else if s > d {
                assert_eq!(cast, Some(CastInst::Ireduce));
            } else {
                assert_eq!(cast, None);
            }
        }
        assert_eq!(select_cast(*src, IrType::B8), None);
        assert_eq!(select_cast(IrType::B1, *src), None);
    }
    assert_eq!(select_cast(IrType::B8, IrType::B8), Some(CastInst::Keep));
    assert_eq!(select_cast(IrType::B8, IrType::I8), Some(CastInst::Keep));
    assert_eq!(select_cast(IrType::B8, IrType::I16), Some(CastInst::Uextend));
    assert_eq!(select_cast(IrType::B8, IrType::I32), Some(CastInst::Uextend));
    assert_eq!(select_cast(IrType::B8, IrType::I64), Some(CastInst::Uextend));
    assert_eq!(select_cast(IrType::B1, IrType::B1), None);
    assert_eq!(select_cast(IrType::B1, IrType::B8), None);
}
