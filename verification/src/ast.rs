//! The data model of the language: primitive types, field and definition
//! descriptions, and the module that holds all top-level definitions.

use vstd::prelude::*;
use crate::text::str_eq_str;

verus! {

/// The primitive types of the language.
#[derive(Debug, Clone, Copy, PartialEq, Eq, Structural)]
pub enum PrimitiveType {
    /// Boolean type (1 byte).
    Bool,
    /// Unsigned 8-bit integer.
    U8,
    /// Unsigned 16-bit integer.
    U16,
    /// Unsigned 32-bit integer.
    U32,
    /// Unsigned 64-bit integer.
    U64,
    /// Signed 8-bit integer.
    I8,
    /// Signed 16-bit integer.
    I16,
    /// Signed 32-bit integer.
    I32,
    /// Signed 64-bit integer.
    I64,
    /// 32-bit floating point number.
    F32,
    /// 64-bit floating point number.
    F64,
}

impl PrimitiveType {
    /// The bit width of the primitive.
    pub open spec fn spec_bit_width(self) -> nat {
        match self {
            PrimitiveType::Bool | PrimitiveType::U8 | PrimitiveType::I8 => 8,
            PrimitiveType::U16 | PrimitiveType::I16 => 16,
            PrimitiveType::U32 | PrimitiveType::I32 | PrimitiveType::F32 => 32,
            PrimitiveType::U64 | PrimitiveType::I64 | PrimitiveType::F64 => 64,
        }
    }

    /// The byte size of the primitive.
    pub open spec fn spec_byte_size(self) -> nat {
        match self {
            PrimitiveType::Bool | PrimitiveType::U8 | PrimitiveType::I8 => 1,
            PrimitiveType::U16 | PrimitiveType::I16 => 2,
            PrimitiveType::U32 | PrimitiveType::I32 | PrimitiveType::F32 => 4,
            PrimitiveType::U64 | PrimitiveType::I64 | PrimitiveType::F64 => 8,
        }
    }

    /// Gets the size in bits of a primitive type.
    pub fn get_bit_width(&self) -> (r: usize)
        ensures
            r == self.spec_bit_width(),
    {
        match self {
            PrimitiveType::Bool | PrimitiveType::U8 | PrimitiveType::I8 => 8,
            PrimitiveType::U16 | PrimitiveType::I16 => 16,
            PrimitiveType::U32 | PrimitiveType::I32 | PrimitiveType::F32 => 32,
            PrimitiveType::U64 | PrimitiveType::I64 | PrimitiveType::F64 => 64,
        }
    }

    /// Gets the size in bytes of a primitive type.
    pub fn get_byte_size(&self) -> (r: usize)
        ensures
            r == self.spec_byte_size(),
    {
        match self {
            PrimitiveType::Bool | PrimitiveType::U8 | PrimitiveType::I8 => 1,
            PrimitiveType::U16 | PrimitiveType::I16 => 2,
            PrimitiveType::U32 | PrimitiveType::I32 | PrimitiveType::F32 => 4,
            PrimitiveType::U64 | PrimitiveType::I64 | PrimitiveType::F64 => 8,
        }
    }
}

/// Every primitive occupies 8, 16, 32 or 64 bits, and its byte size is its
/// bit width divided by 8.
pub proof fn lemma_primitive_size_table(p: PrimitiveType)
    ensures
        p.spec_bit_width() == 8 || p.spec_bit_width() == 16 || p.spec_bit_width() == 32
            || p.spec_bit_width() == 64,
        p.spec_byte_size() == p.spec_bit_width() / 8,
        p.spec_byte_size() * 8 == p.spec_bit_width(),
{
}

/// A type reference: a built-in primitive, or a user-defined type (struct,
/// message or enum) identified by its name and resolved by lookup in the
/// enclosing module.
#[derive(Debug, PartialEq)]
pub enum Type {
    /// A built-in primitive type.
    Primitive(PrimitiveType),
    /// A user-defined type, identified by its name.
    Custom(String),
}

/// A field within a struct or message.
#[derive(Debug, PartialEq)]
pub struct Field {
    /// The name of the field.
    pub name: String,
    /// The type of the field.
    pub type_info: Type,
    /// Optional explicit bit-field width. If present, the field occupies this
    /// many bits instead of its type's natural width.
    pub bit_field_size: Option<usize>,
}

/// A variant within an enum. A variant without an explicit value carries no
/// value; no implicit auto-increment is performed.
#[derive(Debug, PartialEq)]
pub struct EnumVariant {
    /// The name of the variant.
    pub name: String,
    /// The optional assigned constant value for the variant.
    pub value: Option<u64>,
}

/// An enum definition.
#[derive(Debug, PartialEq)]
pub struct EnumDef {
    /// The name of the enum.
    pub name: String,
    /// The underlying primitive type of the enum.
    pub underlying_type: PrimitiveType,
    /// The ordered list of variants.
    pub variants: Vec<EnumVariant>,
}

/// A struct definition: an embeddable fixed-layout fragment.
#[derive(Debug, PartialEq)]
pub struct StructDef {
    /// The name of the struct.
    pub name: String,
    /// The ordered list of fields.
    pub fields: Vec<Field>,
    /// The resolved bit width, absent until resolution.
    pub size: Option<usize>,
}

/// A message definition: a top-level wire record. Structurally identical to a
/// struct; downstream generators treat the two differently.
#[derive(Debug, PartialEq)]
pub struct MessageDef {
    /// The name of the message.
    pub name: String,
    /// The ordered list of fields.
    pub fields: Vec<Field>,
    /// The resolved bit width, absent until resolution.
    pub size: Option<usize>,
}

/// A top-level definition in a module.
#[derive(Debug, PartialEq)]
pub enum Definition {
    /// A message definition.
    Message(MessageDef),
    /// A struct definition.
    Struct(StructDef),
    /// An enum definition.
    Enum(EnumDef),
}

impl Definition {
    /// The name of the definition.
    pub open spec fn spec_name(self) -> Seq<char> {
        match self {
            Definition::Message(m) => m.name@,
            Definition::Struct(s) => s.name@,
            Definition::Enum(e) => e.name@,
        }
    }

    /// The resolved bit width: the stored size for structs and messages, and
    /// the underlying type's bit width for enums.
    pub open spec fn spec_size(self) -> Option<usize> {
        match self {
            Definition::Message(m) => m.size,
            Definition::Struct(s) => s.size,
            Definition::Enum(e) => Some(e.underlying_type.spec_bit_width() as usize),
        }
    }

    /// Returns the name of the definition.
    pub fn name(&self) -> (r: &str)
        ensures
            r@ == self.spec_name(),
    {
        match self {
            Definition::Message(m) => m.name.as_str(),
            Definition::Struct(s) => s.name.as_str(),
            Definition::Enum(e) => e.name.as_str(),
        }
    }

    /// Returns the size of the definition in bits, if resolved.
    pub fn size(&self) -> (r: Option<usize>)
        ensures
            r == self.spec_size(),
    {
        match self {
            Definition::Message(m) => m.size,
            Definition::Struct(s) => s.size,
            Definition::Enum(e) => Some(e.underlying_type.get_bit_width()),
        }
    }
}

/// The byte order declared for wire transmission.
#[derive(Debug, Clone, Copy, PartialEq, Eq, Structural)]
pub enum WireEndianness {
    /// Little-endian byte order, the default.
    Little,
    /// Big-endian byte order.
    Big,
}

impl Default for WireEndianness {
    /// The default endianness is little-endian.
    fn default() -> (r: Self)
        ensures
            r == WireEndianness::Little,
    {
        WireEndianness::Little
    }
}

/// The first definition with the given name at or after index `i`.
pub open spec fn find_def_from(defs: Seq<Definition>, name: Seq<char>, i: int) -> Option<
    Definition,
>
    decreases defs.len() - i,
{
    if i < 0 || i >= defs.len() {
        None
    } else if defs[i].spec_name() == name {
        Some(defs[i])
    } else {
        find_def_from(defs, name, i + 1)
    }
}

/// The definition with the given name, if any: the first match in declaration
/// order.
pub open spec fn find_def(defs: Seq<Definition>, name: Seq<char>) -> Option<Definition> {
    find_def_from(defs, name, 0)
}

/// A found definition carries the name it was looked up by.
pub proof fn lemma_find_def_name(defs: Seq<Definition>, name: Seq<char>, i: int)
    requires
        find_def_from(defs, name, i) is Some,
    ensures
        find_def_from(defs, name, i)->Some_0.spec_name() == name,
        exists|j: int|
            i <= j < defs.len() && defs[j] == find_def_from(defs, name, i)->Some_0
                && defs[j].spec_name() == name,
    decreases defs.len() - i,
{
    if 0 <= i < defs.len() && defs[i].spec_name() != name {
        lemma_find_def_name(defs, name, i + 1);
    }
}

/// A parsed module: the top-level definitions in declaration order (names
/// unique once parsed), the declared wire endianness, and, after resolution,
/// the definition names in dependency order.
#[derive(Debug, PartialEq)]
pub struct OnyxModule {
    /// The definitions, in declaration order.
    pub definitions: Vec<Definition>,
    /// The endianness used for this module.
    pub endianness: WireEndianness,
    /// After resolution, the definition names in dependency order: every name
    /// appears after all names its definition references.
    pub order: Vec<String>,
}

impl Default for OnyxModule {
    /// An empty little-endian module.
    fn default() -> (r: Self)
        ensures
            r.definitions@.len() == 0,
            r.endianness == WireEndianness::Little,
            r.order@.len() == 0,
    {
        OnyxModule { definitions: Vec::new(), endianness: WireEndianness::Little, order: Vec::new() }
    }
}

impl OnyxModule {
    /// The definition with the given name, if any.
    pub fn get_definition<'a>(&'a self, name: &str) -> (r: Option<&'a Definition>)
        ensures
            match r {
                Some(d) => find_def(self.definitions@, name@) == Some(*d),
                None => find_def(self.definitions@, name@) is None,
            },
    {
        let n = self.definitions.len();
        let mut i: usize = 0;
        while i < n
            invariant
                n == self.definitions@.len(),
                i <= n,
                find_def(self.definitions@, name@) == find_def_from(
                    self.definitions@,
                    name@,
                    i as int,
                ),
            decreases n - i,
        {
            if str_eq_str(self.definitions[i].name(), name) {
                return Some(&self.definitions[i]);
            }
            i = i + 1;
        }
        None
    }

    /// Whether a definition with the given name exists.
    pub fn contains_definition(&self, name: &str) -> (r: bool)
        ensures
            r == (find_def(self.definitions@, name@) is Some),
    {
        self.get_definition(name).is_some()
    }
}

/// The effective bit width of a field in a resolved module: the explicit
/// bit-field width if present, else the natural width of a primitive type,
/// else the stored size of the referenced definition.
pub open spec fn spec_field_stored_width(f: Field, defs: Seq<Definition>) -> nat {
    match f.bit_field_size {
        Some(x) => x as nat,
        None => match f.type_info {
            Type::Primitive(p) => p.spec_bit_width(),
            Type::Custom(c) => find_def(defs, c@)->Some_0.spec_size()->Some_0 as nat,
        },
    }
}

impl Field {
    /// Calculates the bit width of the field.
    ///
    /// If `bit_field_size` is set, it returns that value. Otherwise it is the
    /// natural width of the field's type; for a custom type, the referenced
    /// definition must exist in `module` and be resolved.
    pub fn get_bit_width(&self, module: &OnyxModule) -> (r: usize)
        requires
            match self.type_info {
                Type::Primitive(_) => true,
                Type::Custom(c) => self.bit_field_size is Some || (find_def(
                    module.definitions@,
                    c@,
                ) matches Some(d) && d.spec_size() is Some),
            },
        ensures
            r as nat == spec_field_stored_width(*self, module.definitions@),
    {
        match self.bit_field_size {
            Some(x) => x,
            None => match &self.type_info {
                Type::Primitive(p) => p.get_bit_width(),
                Type::Custom(s) => {
                    let d = module.get_definition(s.as_str()).unwrap();
                    d.size().unwrap()
                },
            },
        }
    }
}

} // verus!
