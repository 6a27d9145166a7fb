//! C types, as far as code generation reads them.
//!
//! Sizes and field offsets are part of the type: the layout of the target has been worked out
//! by the time a function reaches the code generator.
use vstd::prelude::*;

verus! {

#[derive(Clone, Copy, Debug, PartialEq, Eq, Structural)]
pub enum Signedness {
    Signed,
    Unsigned,
}

/// The integer types of C, each with its signedness.
#[derive(Clone, Copy, Debug, PartialEq, Eq, Structural)]
pub enum IntClass {
    /// `intN_t` and `uintN_t`
    Bits(Signedness, u8),
    Char(Signedness),
    Short(Signedness),
    Int(Signedness),
    Long(Signedness),
    LongLong(Signedness),
}

#[derive(Clone, Copy, Debug, PartialEq, Eq, Structural)]
pub enum FloatClass {
    Float,
    Double,
    LongDouble,
}

/// A member of a struct or union, at its offset in bytes.
#[derive(Debug)]
pub struct Field {
    pub name: String,
    pub offset: u32,
    pub ty: TypeRef,
}

#[derive(Debug)]
pub enum BaseType {
    Void,
    Bool,
    Integer(IntClass),
    Float(FloatClass),
    Pointer(Box<TypeRef>),
    Array(Box<TypeRef>),
    Struct(Vec<Field>),
    Union(Vec<Field>),
    Enum,
    Function(Box<FunctionType>),
}

/// A type, with its size in bytes where it has one.
#[derive(Debug)]
pub struct TypeRef {
    pub basetype: BaseType,
    pub size: Option<u32>,
}

/// The type of a function: what it returns, and its arguments with their names.
#[derive(Debug)]
pub struct FunctionType {
    pub ret: TypeRef,
    pub args: Vec<(TypeRef, String)>,
}

impl IntClass {
    pub open spec fn sign(self) -> Signedness {
        match self {
            IntClass::Bits(s, _) => s,
            IntClass::Char(s) => s,
            IntClass::Short(s) => s,
            IntClass::Int(s) => s,
            IntClass::Long(s) => s,
            IntClass::LongLong(s) => s,
        }
    }

    pub fn signedness(&self) -> (r: Signedness)
        ensures
            r == self.sign(),
    {
        match *self {
            IntClass::Bits(s, _) => s,
            IntClass::Char(s) => s,
            IntClass::Short(s) => s,
            IntClass::Int(s) => s,
            IntClass::Long(s) => s,
            IntClass::LongLong(s) => s,
        }
    }
}

/// Whether the `i`th of `fields` is the first one called `name`.
pub open spec fn names_field(fields: Seq<Field>, name: Seq<char>, i: int) -> bool {
    &&& 0 <= i < fields.len()
    &&& fields[i].name@ == name
    &&& forall|j: int| 0 <= j < i ==> (#[trigger] fields[j]).name@ != name
}

/// The offset and type of the first of `fields` called `name`.
pub open spec fn find_field(fields: Seq<Field>, name: Seq<char>) -> Option<(u32, TypeRef)> {
    if exists|i: int| names_field(fields, name, i) {
        let i = choose|i: int| names_field(fields, name, i);
        Some((fields[i].offset, fields[i].ty))
    } else {
        None
    }
}

proof fn lemma_found_field(fields: Seq<Field>, name: Seq<char>, i: int)
    requires
        names_field(fields, name, i),
    ensures
        find_field(fields, name) == Some((fields[i].offset, fields[i].ty)),
{
    let k = choose|k: int| names_field(fields, name, k);
    assert(names_field(fields, name, k));
    if k < i {
        assert(fields[k].name@ != name);
    } else if i < k {
        assert(fields[i].name@ != name);
    }
}

/// The member of a name is the first field that has the name, and there is none if no field has it.
pub proof fn law_members_are_found_by_name(ty: TypeRef, fields: Vec<Field>, name: Seq<char>)
    requires
        ty.basetype == BaseType::Struct(fields) || ty.basetype == BaseType::Union(fields),
    ensures
        forall|i: int|
            0 <= i < fields@.len() && (#[trigger] fields@[i]).name@ == name && (forall|j: int|
                0 <= j < i ==> (#[trigger] fields@[j]).name@ != name) ==> ty.field(name) == Some(
                (fields@[i].offset, fields@[i].ty),
            ),
        (forall|i: int| 0 <= i < fields@.len() ==> (#[trigger] fields@[i]).name@ != name)
            ==> ty.field(name) is None,
{
    assert forall|i: int|
        0 <= i < fields@.len() && (#[trigger] fields@[i]).name@ == name && (forall|j: int|
            0 <= j < i ==> (#[trigger] fields@[j]).name@ != name) implies ty.field(name) == Some(
        (fields@[i].offset, fields@[i].ty),
    ) by {
        lemma_found_field(fields@, name, i);
    }
}

fn find_field_in<'t>(fields: &'t Vec<Field>, name: &String) -> (r: Option<(u32, &'t TypeRef)>)
    ensures
        find_field(fields@, name@) == (match r {
            Some((ofs, ty)) => Some((ofs, *ty)),
            None => None,
        }),
{
    let mut i: usize = 0;
    while i < fields.len()
        invariant
            i <= fields.len(),
            forall|j: int| 0 <= j < i ==> (#[trigger] fields@[j]).name@ != name@,
        decreases fields.len() - i,
    {
        if fields[i].name == *name {
            proof {
                lemma_found_field(fields@, name@, i as int);
            }
            return Some((fields[i].offset, &fields[i].ty));
        }
        i += 1;
    }
    None
}

impl TypeRef {
    /// The offset and type of the member called `name`, where this is a struct or union that
    /// has one.
    pub open spec fn field(self, name: Seq<char>) -> Option<(u32, TypeRef)> {
        match self.basetype {
            BaseType::Struct(fields) => find_field(fields@, name),
            BaseType::Union(fields) => find_field(fields@, name),
            _ => None,
        }
    }

    pub fn get_size(&self) -> (r: Option<u32>)
        ensures
            r == self.size,
    {
        self.size
    }

    pub fn get_field(&self, name: &String) -> (r: Option<(u32, &TypeRef)>)
        ensures
            self.field(name@) == (match r {
                Some((ofs, ty)) => Some((ofs, *ty)),
                None => None,
            }),
    {
        match &self.basetype {
            BaseType::Struct(fields) => find_field_in(fields, name),
            BaseType::Union(fields) => find_field_in(fields, name),
            _ => None,
        }
    }
}

} // verus!
