//! The in-memory resource model and the closed catalog of attribute types.

use vstd::prelude::*;
use crate::text::str_eq;

verus! {

/// The closed catalog of attribute value kinds, each with a numeric id that
/// the binary form stores and a textual tag that the XML form uses.
#[derive(Debug, Clone, Copy, PartialEq, Eq, Structural)]
pub enum AttributeType {
    Empty,
    Byte,
    Short,
    UShort,
    Int,
    UInt,
    Float,
    Double,
    IVec2,
    IVec3,
    IVec4,
    Vec2,
    Vec3,
    Vec4,
    Mat2,
    Mat3,
    Mat3x4,
    Mat4x3,
    Mat4,
    Bool,
    String,
    Path,
    FixedString,
    LSString,
    ULongLong,
    ScratchBuffer,
    LongLong,
    Int8,
    TranslatedString,
    WString,
    LSWString,
    UUID,
    Int64,
    TranslatedFSString,
}

/// The numeric id of each type, in [0, 33].
pub open spec fn type_id(t: AttributeType) -> int {
    match t {
        AttributeType::Empty => 0,
        AttributeType::Byte => 1,
        AttributeType::Short => 2,
        AttributeType::UShort => 3,
        AttributeType::Int => 4,
        AttributeType::UInt => 5,
        AttributeType::Float => 6,
        AttributeType::Double => 7,
        AttributeType::IVec2 => 8,
        AttributeType::IVec3 => 9,
        AttributeType::IVec4 => 10,
        AttributeType::Vec2 => 11,
        AttributeType::Vec3 => 12,
        AttributeType::Vec4 => 13,
        AttributeType::Mat2 => 14,
        AttributeType::Mat3 => 15,
        AttributeType::Mat3x4 => 16,
        AttributeType::Mat4x3 => 17,
        AttributeType::Mat4 => 18,
        AttributeType::Bool => 19,
        AttributeType::String => 20,
        AttributeType::Path => 21,
        AttributeType::FixedString => 22,
        AttributeType::LSString => 23,
        AttributeType::ULongLong => 24,
        AttributeType::ScratchBuffer => 25,
        AttributeType::LongLong => 26,
        AttributeType::Int8 => 27,
        AttributeType::TranslatedString => 28,
        AttributeType::WString => 29,
        AttributeType::LSWString => 30,
        AttributeType::UUID => 31,
        AttributeType::Int64 => 32,
        AttributeType::TranslatedFSString => 33,
    }
}

/// The type whose numeric id is `v`, if there is one.
pub open spec fn type_of_id(v: int) -> Option<AttributeType> {
    if v == 0 {
        Some(AttributeType::Empty)
    } else if v == 1 {
        Some(AttributeType::Byte)
    } else if v == 2 {
        Some(AttributeType::Short)
    } else if v == 3 {
        Some(AttributeType::UShort)
    } else if v == 4 {
        Some(AttributeType::Int)
    } else if v == 5 {
        Some(AttributeType::UInt)
    } else if v == 6 {
        Some(AttributeType::Float)
    } else if v == 7 {
        Some(AttributeType::Double)
    } else if v == 8 {
        Some(AttributeType::IVec2)
    } else if v == 9 {
        Some(AttributeType::IVec3)
    } else if v == 10 {
        Some(AttributeType::IVec4)
    } else if v == 11 {
        Some(AttributeType::Vec2)
    } else if v == 12 {
        Some(AttributeType::Vec3)
    } else if v == 13 {
        Some(AttributeType::Vec4)
    } else if v == 14 {
        Some(AttributeType::Mat2)
    } else if v == 15 {
        Some(AttributeType::Mat3)
    } else if v == 16 {
        Some(AttributeType::Mat3x4)
    } else if v == 17 {
        Some(AttributeType::Mat4x3)
    } else if v == 18 {
        Some(AttributeType::Mat4)
    } else if v == 19 {
        Some(AttributeType::Bool)
    } else if v == 20 {
        Some(AttributeType::String)
    } else if v == 21 {
        Some(AttributeType::Path)
    } else if v == 22 {
        Some(AttributeType::FixedString)
    } else if v == 23 {
        Some(AttributeType::LSString)
    } else if v == 24 {
        Some(AttributeType::ULongLong)
    } else if v == 25 {
        Some(AttributeType::ScratchBuffer)
    } else if v == 26 {
        Some(AttributeType::LongLong)
    } else if v == 27 {
        Some(AttributeType::Int8)
    } else if v == 28 {
        Some(AttributeType::TranslatedString)
    } else if v == 29 {
        Some(AttributeType::WString)
    } else if v == 30 {
        Some(AttributeType::LSWString)
    } else if v == 31 {
        Some(AttributeType::UUID)
    } else if v == 32 {
        Some(AttributeType::Int64)
    } else if v == 33 {
        Some(AttributeType::TranslatedFSString)
    } else {
        None
    }
}

/// The textual tag of each type.
pub open spec fn type_tag(t: AttributeType) -> Seq<char> {
    match t {
        AttributeType::Empty => "None"@,
        AttributeType::Byte => "uint8"@,
        AttributeType::Short => "int16"@,
        AttributeType::UShort => "uint16"@,
        AttributeType::Int => "int32"@,
        AttributeType::UInt => "uint32"@,
        AttributeType::Float => "float"@,
        AttributeType::Double => "double"@,
        AttributeType::IVec2 => "ivec2"@,
        AttributeType::IVec3 => "ivec3"@,
        AttributeType::IVec4 => "ivec4"@,
        AttributeType::Vec2 => "fvec2"@,
        AttributeType::Vec3 => "fvec3"@,
        AttributeType::Vec4 => "fvec4"@,
        AttributeType::Mat2 => "mat2"@,
        AttributeType::Mat3 => "mat3"@,
        AttributeType::Mat3x4 => "mat3x4"@,
        AttributeType::Mat4x3 => "mat4x3"@,
        AttributeType::Mat4 => "mat4"@,
        AttributeType::Bool => "bool"@,
        AttributeType::String => "LSString"@,
        AttributeType::Path => "path"@,
        AttributeType::FixedString => "FixedString"@,
        AttributeType::LSString => "LSString"@,
        AttributeType::ULongLong => "uint64"@,
        AttributeType::ScratchBuffer => "ScratchBuffer"@,
        AttributeType::LongLong => "int64"@,
        AttributeType::Int8 => "int8"@,
        AttributeType::TranslatedString => "TranslatedString"@,
        AttributeType::WString => "WString"@,
        AttributeType::LSWString => "LSWString"@,
        AttributeType::UUID => "guid"@,
        AttributeType::Int64 => "int64"@,
        AttributeType::TranslatedFSString => "TranslatedFSString"@,
    }
}

/// The type that a textual tag names. Two tags are shared by two ids each
/// ("LSString" and "int64"); the tag names the lower of the two.
pub open spec fn type_of_tag(s: Seq<char>) -> Option<AttributeType> {
    if s == "None"@ {
        Some(AttributeType::Empty)
    } else if s == "uint8"@ {
        Some(AttributeType::Byte)
    } else if s == "int16"@ {
        Some(AttributeType::Short)
    } else if s == "uint16"@ {
        Some(AttributeType::UShort)
    } else if s == "int32"@ {
        Some(AttributeType::Int)
    } else if s == "uint32"@ {
        Some(AttributeType::UInt)
    } else if s == "float"@ {
        Some(AttributeType::Float)
    } else if s == "double"@ {
        Some(AttributeType::Double)
    } else if s == "ivec2"@ {
        Some(AttributeType::IVec2)
    } else if s == "ivec3"@ {
        Some(AttributeType::IVec3)
    } else if s == "ivec4"@ {
        Some(AttributeType::IVec4)
    } else if s == "fvec2"@ {
        Some(AttributeType::Vec2)
    } else if s == "fvec3"@ {
        Some(AttributeType::Vec3)
    } else if s == "fvec4"@ {
        Some(AttributeType::Vec4)
    } else if s == "mat2"@ {
        Some(AttributeType::Mat2)
    } else if s == "mat3"@ {
        Some(AttributeType::Mat3)
    } else if s == "mat3x4"@ {
        Some(AttributeType::Mat3x4)
    } else if s == "mat4x3"@ {
        Some(AttributeType::Mat4x3)
    } else if s == "mat4"@ {
        Some(AttributeType::Mat4)
    } else if s == "bool"@ {
        Some(AttributeType::Bool)
    } else if s == "LSString"@ {
        Some(AttributeType::String)
    } else if s == "path"@ {
        Some(AttributeType::Path)
    } else if s == "FixedString"@ {
        Some(AttributeType::FixedString)
    } else if s == "uint64"@ {
        Some(AttributeType::ULongLong)
    } else if s == "ScratchBuffer"@ {
        Some(AttributeType::ScratchBuffer)
    } else if s == "int64"@ {
        Some(AttributeType::LongLong)
    } else if s == "int8"@ {
        Some(AttributeType::Int8)
    } else if s == "TranslatedString"@ {
        Some(AttributeType::TranslatedString)
    } else if s == "WString"@ {
        Some(AttributeType::WString)
    } else if s == "LSWString"@ {
        Some(AttributeType::LSWString)
    } else if s == "guid"@ {
        Some(AttributeType::UUID)
    } else if s == "TranslatedFSString"@ {
        Some(AttributeType::TranslatedFSString)
    } else {
        None
    }
}

impl AttributeType {
    /// The type stored under the numeric id `value`.
    pub fn from_u8(value: u8) -> (r: Option<Self>)
        ensures
            r == type_of_id(value as int),
            r matches Some(t) ==> type_id(t) == value as int,
            r is Some <==> value <= 33,
    {
        match value {
            0 => Some(Self::Empty),
            1 => Some(Self::Byte),
            2 => Some(Self::Short),
            3 => Some(Self::UShort),
            4 => Some(Self::Int),
            5 => Some(Self::UInt),
            6 => Some(Self::Float),
            7 => Some(Self::Double),
            8 => Some(Self::IVec2),
            9 => Some(Self::IVec3),
            10 => Some(Self::IVec4),
            11 => Some(Self::Vec2),
            12 => Some(Self::Vec3),
            13 => Some(Self::Vec4),
            14 => Some(Self::Mat2),
            15 => Some(Self::Mat3),
            16 => Some(Self::Mat3x4),
            17 => Some(Self::Mat4x3),
            18 => Some(Self::Mat4),
            19 => Some(Self::Bool),
            20 => Some(Self::String),
            21 => Some(Self::Path),
            22 => Some(Self::FixedString),
            23 => Some(Self::LSString),
            24 => Some(Self::ULongLong),
            25 => Some(Self::ScratchBuffer),
            26 => Some(Self::LongLong),
            27 => Some(Self::Int8),
            28 => Some(Self::TranslatedString),
            29 => Some(Self::WString),
            30 => Some(Self::LSWString),
            31 => Some(Self::UUID),
            32 => Some(Self::Int64),
            33 => Some(Self::TranslatedFSString),
            _ => None,
        }
    }

    /// The numeric id stored for this type.
    pub fn id(&self) -> (r: u8)
        ensures
            r as int == type_id(*self),
            r <= 33,
    {
        match self {
            Self::Empty => 0,
            Self::Byte => 1,
            Self::Short => 2,
            Self::UShort => 3,
            Self::Int => 4,
            Self::UInt => 5,
            Self::Float => 6,
            Self::Double => 7,
            Self::IVec2 => 8,
            Self::IVec3 => 9,
            Self::IVec4 => 10,
            Self::Vec2 => 11,
            Self::Vec3 => 12,
            Self::Vec4 => 13,
            Self::Mat2 => 14,
            Self::Mat3 => 15,
            Self::Mat3x4 => 16,
            Self::Mat4x3 => 17,
            Self::Mat4 => 18,
            Self::Bool => 19,
            Self::String => 20,
            Self::Path => 21,
            Self::FixedString => 22,
            Self::LSString => 23,
            Self::ULongLong => 24,
            Self::ScratchBuffer => 25,
            Self::LongLong => 26,
            Self::Int8 => 27,
            Self::TranslatedString => 28,
            Self::WString => 29,
            Self::LSWString => 30,
            Self::UUID => 31,
            Self::Int64 => 32,
            Self::TranslatedFSString => 33,
        }
    }

    /// The textual tag of this type.
    pub fn as_str(&self) -> (r: &'static str)
        ensures
            r@ == type_tag(*self),
    {
        match self {
            Self::Empty => "None",
            Self::Byte => "uint8",
            Self::Short => "int16",
            Self::UShort => "uint16",
            Self::Int => "int32",
            Self::UInt => "uint32",
            Self::Float => "float",
            Self::Double => "double",
            Self::IVec2 => "ivec2",
            Self::IVec3 => "ivec3",
            Self::IVec4 => "ivec4",
            Self::Vec2 => "fvec2",
            Self::Vec3 => "fvec3",
            Self::Vec4 => "fvec4",
            Self::Mat2 => "mat2",
            Self::Mat3 => "mat3",
            Self::Mat3x4 => "mat3x4",
            Self::Mat4x3 => "mat4x3",
            Self::Mat4 => "mat4",
            Self::Bool => "bool",
            Self::String => "LSString",
            Self::Path => "path",
            Self::FixedString => "FixedString",
            Self::LSString => "LSString",
            Self::ULongLong => "uint64",
            Self::ScratchBuffer => "ScratchBuffer",
            Self::LongLong => "int64",
            Self::Int8 => "int8",
            Self::TranslatedString => "TranslatedString",
            Self::WString => "WString",
            Self::LSWString => "LSWString",
            Self::UUID => "guid",
            Self::Int64 => "int64",
            Self::TranslatedFSString => "TranslatedFSString",
        }
    }

    /// The type that the textual tag `s` names, if any.
    pub fn from_str(s: &str) -> (r: Option<Self>)
        ensures
            r == type_of_tag(s@),
    {
        if str_eq(s, "None") {
            Some(Self::Empty)
        } else if str_eq(s, "uint8") {
            Some(Self::Byte)
        } else if str_eq(s, "int16") {
            Some(Self::Short)
        } else if str_eq(s, "uint16") {
            Some(Self::UShort)
        } else if str_eq(s, "int32") {
            Some(Self::Int)
        } else if str_eq(s, "uint32") {
            Some(Self::UInt)
        } else if str_eq(s, "float") {
            Some(Self::Float)
        } else if str_eq(s, "double") {
            Some(Self::Double)
        } else if str_eq(s, "ivec2") {
            Some(Self::IVec2)
        } else if str_eq(s, "ivec3") {
            Some(Self::IVec3)
        } else if str_eq(s, "ivec4") {
            Some(Self::IVec4)
        } else if str_eq(s, "fvec2") {
            Some(Self::Vec2)
        } else if str_eq(s, "fvec3") {
            Some(Self::Vec3)
        } else if str_eq(s, "fvec4") {
            Some(Self::Vec4)
        } else if str_eq(s, "mat2") {
            Some(Self::Mat2)
        } else if str_eq(s, "mat3") {
            Some(Self::Mat3)
        } else if str_eq(s, "mat3x4") {
            Some(Self::Mat3x4)
        } else if str_eq(s, "mat4x3") {
            Some(Self::Mat4x3)
        } else if str_eq(s, "mat4") {
            Some(Self::Mat4)
        } else if str_eq(s, "bool") {
            Some(Self::Bool)
        } else if str_eq(s, "LSString") {
            Some(Self::String)
        } else if str_eq(s, "path") {
            Some(Self::Path)
        } else if str_eq(s, "FixedString") {
            Some(Self::FixedString)
        } else if str_eq(s, "uint64") {
            Some(Self::ULongLong)
        } else if str_eq(s, "ScratchBuffer") {
            Some(Self::ScratchBuffer)
        } else if str_eq(s, "int64") {
            Some(Self::LongLong)
        } else if str_eq(s, "int8") {
            Some(Self::Int8)
        } else if str_eq(s, "TranslatedString") {
            Some(Self::TranslatedString)
        } else if str_eq(s, "WString") {
            Some(Self::WString)
        } else if str_eq(s, "LSWString") {
            Some(Self::LSWString)
        } else if str_eq(s, "guid") {
            Some(Self::UUID)
        } else if str_eq(s, "TranslatedFSString") {
            Some(Self::TranslatedFSString)
        } else {
            None
        }
    }
}


/// A typed attribute value. Floating-point scalars are held as their IEEE-754
/// bit patterns, so that the codec moves them without change; a UUID is held
/// as its sixteen bytes in canonical order.
#[derive(Debug, Clone, PartialEq)]
pub enum AttributeValue {
    Empty,
    Byte(u8),
    Short(i16),
    UShort(u16),
    Int(i32),
    UInt(u32),
    Float(u32),
    Double(u64),
    IVec2([i32; 2]),
    IVec3([i32; 3]),
    IVec4([i32; 4]),
    Vec2([u32; 2]),
    Vec3([u32; 3]),
    Vec4([u32; 4]),
    Mat2([u32; 4]),
    Mat3([u32; 9]),
    Mat3x4([u32; 12]),
    Mat4x3([u32; 12]),
    Mat4([u32; 16]),
    Bool(bool),
    String(String),
    Path(String),
    FixedString(String),
    LSString(String),
    ULongLong(u64),
    ScratchBuffer(Vec<u8>),
    LongLong(i64),
    Int8(i8),
    TranslatedString { value: String, handle: String },
    WString(String),
    LSWString(String),
    UUID([u8; 16]),
    Int64(i64),
    TranslatedFSString { value: String, handle: String },
}

/// The catalog entry whose payload shape a value has.
pub open spec fn value_type(v: AttributeValue) -> AttributeType {
    match v {
        AttributeValue::Empty => AttributeType::Empty,
        AttributeValue::Byte(..) => AttributeType::Byte,
        AttributeValue::Short(..) => AttributeType::Short,
        AttributeValue::UShort(..) => AttributeType::UShort,
        AttributeValue::Int(..) => AttributeType::Int,
        AttributeValue::UInt(..) => AttributeType::UInt,
        AttributeValue::Float(..) => AttributeType::Float,
        AttributeValue::Double(..) => AttributeType::Double,
        AttributeValue::IVec2(..) => AttributeType::IVec2,
        AttributeValue::IVec3(..) => AttributeType::IVec3,
        AttributeValue::IVec4(..) => AttributeType::IVec4,
        AttributeValue::Vec2(..) => AttributeType::Vec2,
        AttributeValue::Vec3(..) => AttributeType::Vec3,
        AttributeValue::Vec4(..) => AttributeType::Vec4,
        AttributeValue::Mat2(..) => AttributeType::Mat2,
        AttributeValue::Mat3(..) => AttributeType::Mat3,
        AttributeValue::Mat3x4(..) => AttributeType::Mat3x4,
        AttributeValue::Mat4x3(..) => AttributeType::Mat4x3,
        AttributeValue::Mat4(..) => AttributeType::Mat4,
        AttributeValue::Bool(..) => AttributeType::Bool,
        AttributeValue::String(..) => AttributeType::String,
        AttributeValue::Path(..) => AttributeType::Path,
        AttributeValue::FixedString(..) => AttributeType::FixedString,
        AttributeValue::LSString(..) => AttributeType::LSString,
        AttributeValue::ULongLong(..) => AttributeType::ULongLong,
        AttributeValue::ScratchBuffer(..) => AttributeType::ScratchBuffer,
        AttributeValue::LongLong(..) => AttributeType::LongLong,
        AttributeValue::Int8(..) => AttributeType::Int8,
        AttributeValue::TranslatedString { .. } => AttributeType::TranslatedString,
        AttributeValue::WString(..) => AttributeType::WString,
        AttributeValue::LSWString(..) => AttributeType::LSWString,
        AttributeValue::UUID(..) => AttributeType::UUID,
        AttributeValue::Int64(..) => AttributeType::Int64,
        AttributeValue::TranslatedFSString { .. } => AttributeType::TranslatedFSString,
    }
}

impl AttributeValue {
    /// The catalog entry whose payload shape this value has.
    pub fn attribute_type(&self) -> (r: AttributeType)
        ensures
            r == value_type(*self),
    {
        match self {
            Self::Empty => AttributeType::Empty,
            Self::Byte(..) => AttributeType::Byte,
            Self::Short(..) => AttributeType::Short,
            Self::UShort(..) => AttributeType::UShort,
            Self::Int(..) => AttributeType::Int,
            Self::UInt(..) => AttributeType::UInt,
            Self::Float(..) => AttributeType::Float,
            Self::Double(..) => AttributeType::Double,
            Self::IVec2(..) => AttributeType::IVec2,
            Self::IVec3(..) => AttributeType::IVec3,
            Self::IVec4(..) => AttributeType::IVec4,
            Self::Vec2(..) => AttributeType::Vec2,
            Self::Vec3(..) => AttributeType::Vec3,
            Self::Vec4(..) => AttributeType::Vec4,
            Self::Mat2(..) => AttributeType::Mat2,
            Self::Mat3(..) => AttributeType::Mat3,
            Self::Mat3x4(..) => AttributeType::Mat3x4,
            Self::Mat4x3(..) => AttributeType::Mat4x3,
            Self::Mat4(..) => AttributeType::Mat4,
            Self::Bool(..) => AttributeType::Bool,
            Self::String(..) => AttributeType::String,
            Self::Path(..) => AttributeType::Path,
            Self::FixedString(..) => AttributeType::FixedString,
            Self::LSString(..) => AttributeType::LSString,
            Self::ULongLong(..) => AttributeType::ULongLong,
            Self::ScratchBuffer(..) => AttributeType::ScratchBuffer,
            Self::LongLong(..) => AttributeType::LongLong,
            Self::Int8(..) => AttributeType::Int8,
            Self::TranslatedString { .. } => AttributeType::TranslatedString,
            Self::WString(..) => AttributeType::WString,
            Self::LSWString(..) => AttributeType::LSWString,
            Self::UUID(..) => AttributeType::UUID,
            Self::Int64(..) => AttributeType::Int64,
            Self::TranslatedFSString { .. } => AttributeType::TranslatedFSString,
        }
    }
}

/// The four version numbers of a resource; only `major_version` shapes the
/// binary layout.
#[derive(Debug, Clone, Copy, PartialEq, Eq, Structural)]
pub struct Metadata {
    pub major_version: u32,
    pub minor_version: u32,
    pub revision: u32,
    pub build_number: u32,
}

/// An attribute: its type and a value of that type's shape.
#[derive(Debug, Clone, PartialEq)]
pub struct NodeAttribute {
    pub attribute_type: AttributeType,
    pub value: AttributeValue,
}

/// A tree vertex: a name, attributes in insertion order under unique names,
/// and ordered children.
#[derive(Debug, PartialEq)]
pub struct Node {
    pub name: String,
    pub attributes: Vec<(String, NodeAttribute)>,
    pub children: Vec<Node>,
}

/// A named root holding an ordered sequence of top-level nodes.
#[derive(Debug, PartialEq)]
pub struct Region {
    pub name: String,
    pub nodes: Vec<Node>,
}

/// A whole document: version numbers and regions under unique names.
#[derive(Debug, PartialEq)]
pub struct Resource {
    pub metadata: Metadata,
    pub regions: Vec<Region>,
}

/// Attribute entries under pairwise distinct names, each value of the shape
/// of its stated type.
pub open spec fn attributes_wf(a: Seq<(String, NodeAttribute)>) -> bool {
    &&& forall|i: int, j: int| 0 <= i < j < a.len() ==> (#[trigger] a[i]).0@ != (#[trigger] a[j]).0@
    &&& forall|i: int| 0 <= i < a.len() ==> value_type((#[trigger] a[i]).1.value) == a[i].1.attribute_type
}

/// A node whose attributes, and those of every descendant, are well formed.
pub open spec fn node_wf(n: Node) -> bool
    decreases n,
{
    &&& attributes_wf(n.attributes@)
    &&& forall|i: int| 0 <= i < n.children@.len() ==> #[trigger] node_wf(n.children@[i])
}

/// Regions under pairwise distinct names, each holding well-formed nodes.
pub open spec fn regions_wf(r: Seq<Region>) -> bool {
    &&& forall|i: int, j: int| 0 <= i < j < r.len() ==> (#[trigger] r[i]).name@ != (#[trigger] r[j]).name@
    &&& forall|i: int, k: int| 0 <= i < r.len() && 0 <= k < r[i].nodes@.len() ==> #[trigger] node_wf(r[i].nodes@[k])
}

/// A well-formed resource: see `regions_wf`.
pub open spec fn resource_wf(r: Resource) -> bool {
    regions_wf(r.regions@)
}

/// Sets an attribute: replaces the entry of the same name in place, or adds
/// one at the end.
pub fn set_attribute(list: &mut Vec<(String, NodeAttribute)>, name: String, attr: NodeAttribute)
    requires
        attributes_wf(old(list)@),
        value_type(attr.value) == attr.attribute_type,
    ensures
        attributes_wf(final(list)@),
        final(list)@.len() <= old(list)@.len() + 1,
        exists|k: int| 0 <= k < final(list)@.len() && (#[trigger] final(list)@[k]).0@ == name@ && final(list)@[k].1 == attr,
        forall|k: int| 0 <= k < old(list)@.len() && (#[trigger] old(list)@[k]).0@ != name@ ==> final(list)@.contains(old(list)@[k]),
        forall|k: int| 0 <= k < final(list)@.len() && (#[trigger] final(list)@[k]).0@ != name@ ==> old(list)@.contains(final(list)@[k]),
{
    let mut k: usize = 0;
    while k < list.len()
        invariant
            list@ == old(list)@,
            attributes_wf(old(list)@),
            value_type(attr.value) == attr.attribute_type,
            k <= list@.len(),
            forall|j: int| 0 <= j < k ==> (#[trigger] list@[j]).0@ != name@,
        decreases list@.len() - k,
    {
        if str_eq(list[k].0.as_str(), name.as_str()) {
            let ghost before = list@;
            let ghost nm = name@;
            assert(before[k as int].0@ == nm);
            list.set(k, (name, attr));
            assert(list@ == before.update(k as int, list@[k as int]));
            assert(list@[k as int].0@ == nm);
            proof {
                assert forall|j: int| 0 <= j < before.len() && (#[trigger] before[j]).0@ != name@ implies list@.contains(before[j]) by {
                    assert(list@[j] == before[j]);
                }
                assert forall|j: int| 0 <= j < list@.len() && (#[trigger] list@[j]).0@ != name@ implies before.contains(list@[j]) by {
                    assert(list@[j] == before[j]);
                }
                assert(list@[k as int].0@ == name@);
                assert forall|i: int, j: int| 0 <= i < j < list@.len() implies (#[trigger] list@[i]).0@ != (#[trigger] list@[j]).0@ by {
                    assert(before[i].0@ != before[j].0@);
                    if i != k {
                        assert(list@[i] == before[i]);
                    }
                    if j != k {
                        assert(list@[j] == before[j]);
                    }
                }
            }
            return;
        }
        k = k + 1;
    }
    let ghost before = list@;
    list.push((name, attr));
    proof {
        assert forall|j: int| 0 <= j < before.len() && (#[trigger] before[j]).0@ != name@ implies list@.contains(before[j]) by {
            assert(list@[j] == before[j]);
        }
        assert forall|j: int| 0 <= j < list@.len() && (#[trigger] list@[j]).0@ != name@ implies before.contains(list@[j]) by {
            assert(list@[j] == before[j]);
        }
        assert(list@[before.len() as int].0@ == name@);
    }
}

/// Adds a region: its nodes join the region of the same name where there is
/// one, after that region's own; otherwise it is added at the end.
pub fn add_region(regions: &mut Vec<Region>, region: Region)
    ensures
        (exists|h: int| 0 <= h < old(regions)@.len() && (#[trigger] old(regions)@[h]).name@ == region.name@) ==> final(regions)@.len()
            == old(regions)@.len(),
        (forall|h: int| 0 <= h < old(regions)@.len() ==> (#[trigger] old(regions)@[h]).name@ != region.name@) ==> final(regions)@
            == old(regions)@.push(region),
        forall|h: int| 0 <= h < final(regions)@.len() ==> (#[trigger] final(regions)@[h]).name@ == if h < old(regions)@.len() {
            old(regions)@[h].name@
        } else {
            region.name@
        },
        forall|h: int| 0 <= h < old(regions)@.len() ==> (#[trigger] final(regions)@[h]).nodes@ == if old(regions)@[h].name@ == region.name@
            && forall|h2: int| 0 <= h2 < h ==> old(regions)@[h2].name@ != region.name@ {
            old(regions)@[h].nodes@ + region.nodes@
        } else {
            old(regions)@[h].nodes@
        },
{
    let mut h: usize = 0;
    while h < regions.len()
        invariant
            regions@ == old(regions)@,
            h <= regions@.len(),
            forall|h2: int| 0 <= h2 < h ==> (#[trigger] regions@[h2]).name@ != region.name@,
        decreases regions@.len() - h,
    {
        if str_eq(regions[h].name.as_str(), region.name.as_str()) {
            let mut target = Region { name: String::new(), nodes: Vec::new() };
            std::mem::swap(&mut target, &mut regions[h]);
            let mut extra = region.nodes;
            target.nodes.append(&mut extra);
            std::mem::swap(&mut target, &mut regions[h]);
            proof {
                assert forall|x: int| 0 <= x < old(regions)@.len() implies (#[trigger] regions@[x]).nodes@ == if old(regions)@[x].name@ == region.name@
                    && forall|h2: int| 0 <= h2 < x ==> old(regions)@[h2].name@ != region.name@ {
                    old(regions)@[x].nodes@ + region.nodes@
                } else {
                    old(regions)@[x].nodes@
                } by {
                    if x != h {
                        assert(regions@[x] == old(regions)@[x]);
                        if x > h {
                            assert(old(regions)@[h as int].name@ == region.name@);
                        }
                    }
                }
            }
            return;
        }
        h = h + 1;
    }
    regions.push(region);
}

/// A recognized tag names a type whose tag is that same text.
pub proof fn lemma_tag_round_trip(s: Seq<char>)
    requires
        type_of_tag(s) is Some,
    ensures
        type_tag(type_of_tag(s)->0) == s,
{
}

/// Every type read back from a numeric id carries that id, and every id
/// stored for a type is in the catalog's range.
pub proof fn lemma_id_closure(t: AttributeType, v: int)
    ensures
        0 <= type_id(t) <= 33,
        type_of_id(type_id(t)) == Some(t),
        type_of_id(v) matches Some(u) ==> type_id(u) == v,
{
}

} // verus!
