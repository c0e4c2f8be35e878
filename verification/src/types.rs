//! Field types and values carried by events, and the small identifiers the
//! wire format uses.

use vstd::prelude::*;

verus! {

/// Identifier of a schema on the wire (assigned by the encoder in
/// registration order).
#[derive(Clone, Copy, Debug, PartialEq, Eq, Hash, Structural)]
pub struct WireTypeId(pub u16);

/// Handle of a string in the trace's string pool.
#[derive(Clone, Copy, Debug, PartialEq, Eq, Hash, Structural)]
pub struct InternedString(pub u32);

impl InternedString {
    pub fn from_raw(id: u32) -> (r: InternedString)
        ensures
            r.0 == id,
    {
        InternedString(id)
    }

    pub fn raw(&self) -> (r: u32)
        ensures
            r == self.0,
    {
        self.0
    }
}

/// The kind of a schema field, which decides how its value is laid out.
#[derive(Clone, Copy, Debug, PartialEq, Eq, Structural)]
pub enum FieldType {
    /// Unsigned integer, LEB128.
    Varint,
    /// One byte, 0 or 1.
    Bool,
    /// Length-prefixed UTF-8.
    String,
    /// Pool id of an interned string, LEB128.
    PooledString,
    /// Count followed by that many addresses, each LEB128.
    StackFrames,
}

/// Wire code of a field type.
pub open spec fn spec_field_type_code(t: FieldType) -> u8 {
    match t {
        FieldType::Varint => 0,
        FieldType::Bool => 1,
        FieldType::String => 2,
        FieldType::PooledString => 3,
        FieldType::StackFrames => 4,
    }
}

/// The field type with the given wire code, if any.
pub open spec fn spec_field_type_from_code(c: u8) -> Option<FieldType> {
    if c == 0 {
        Some(FieldType::Varint)
    } else if c == 1 {
        Some(FieldType::Bool)
    } else if c == 2 {
        Some(FieldType::String)
    } else if c == 3 {
        Some(FieldType::PooledString)
    } else if c == 4 {
        Some(FieldType::StackFrames)
    } else {
        None
    }
}

impl FieldType {
    pub fn code(self) -> (c: u8)
        ensures
            c == spec_field_type_code(self),
    {
        match self {
            FieldType::Varint => 0,
            FieldType::Bool => 1,
            FieldType::String => 2,
            FieldType::PooledString => 3,
            FieldType::StackFrames => 4,
        }
    }

    pub fn from_code(c: u8) -> (r: Option<FieldType>)
        ensures
            r == spec_field_type_from_code(c),
    {
        if c == 0 {
            Some(FieldType::Varint)
        } else if c == 1 {
            Some(FieldType::Bool)
        } else if c == 2 {
            Some(FieldType::String)
        } else if c == 3 {
            Some(FieldType::PooledString)
        } else if c == 4 {
            Some(FieldType::StackFrames)
        } else {
            None
        }
    }
}

/// The mathematical content of a field value.
pub enum FieldVal {
    Varint(u64),
    Bool(bool),
    Str(Seq<char>),
    Pooled(u32),
    Frames(Seq<u64>),
}

/// The field type a value belongs to.
pub open spec fn spec_type_of(v: FieldVal) -> FieldType {
    match v {
        FieldVal::Varint(_) => FieldType::Varint,
        FieldVal::Bool(_) => FieldType::Bool,
        FieldVal::Str(_) => FieldType::String,
        FieldVal::Pooled(_) => FieldType::PooledString,
        FieldVal::Frames(_) => FieldType::StackFrames,
    }
}

/// An owned field value.
#[derive(Debug, Clone, PartialEq)]
pub enum FieldValue {
    Varint(u64),
    Bool(bool),
    String(String),
    PooledString(InternedString),
    StackFrames(Vec<u64>),
}

impl View for FieldValue {
    type V = FieldVal;

    open spec fn view(&self) -> FieldVal {
        match self {
            FieldValue::Varint(x) => FieldVal::Varint(*x),
            FieldValue::Bool(b) => FieldVal::Bool(*b),
            FieldValue::String(s) => FieldVal::Str(s@),
            FieldValue::PooledString(i) => FieldVal::Pooled(i.0),
            FieldValue::StackFrames(f) => FieldVal::Frames(f@),
        }
    }
}

impl FieldValue {
    /// The field type of this value.
    pub fn field_type(&self) -> (t: FieldType)
        ensures
            t == spec_type_of(self@),
    {
        match self {
            FieldValue::Varint(_) => FieldType::Varint,
            FieldValue::Bool(_) => FieldType::Bool,
            FieldValue::String(_) => FieldType::String,
            FieldValue::PooledString(_) => FieldType::PooledString,
            FieldValue::StackFrames(_) => FieldType::StackFrames,
        }
    }
}

/// A field value that borrows string data from the decoded buffer.
#[derive(Debug, Clone, PartialEq)]
pub enum FieldValueRef<'a> {
    Varint(u64),
    Bool(bool),
    String(&'a str),
    PooledString(InternedString),
    StackFrames(Vec<u64>),
}

impl<'a> View for FieldValueRef<'a> {
    type V = FieldVal;

    open spec fn view(&self) -> FieldVal {
        match self {
            FieldValueRef::Varint(x) => FieldVal::Varint(*x),
            FieldValueRef::Bool(b) => FieldVal::Bool(*b),
            FieldValueRef::String(s) => FieldVal::Str(s@),
            FieldValueRef::PooledString(i) => FieldVal::Pooled(i.0),
            FieldValueRef::StackFrames(f) => FieldVal::Frames(f@),
        }
    }
}

/// The contents of a sequence of values.
pub open spec fn values_view(vs: Seq<FieldValue>) -> Seq<FieldVal> {
    vs.map_values(|v: FieldValue| v@)
}

/// The contents of a sequence of borrowed values.
pub open spec fn values_ref_view<'a>(vs: Seq<FieldValueRef<'a>>) -> Seq<FieldVal> {
    vs.map_values(|v: FieldValueRef<'a>| v@)
}

/// One string of a string-pool frame.
#[derive(Debug, Clone, PartialEq)]
pub struct PoolEntry {
    pub pool_id: u32,
    pub data: Vec<u8>,
}

/// The contents of a pool entry: its id and its bytes.
pub struct PoolEntryV {
    pub pool_id: u32,
    pub data: Seq<u8>,
}

impl View for PoolEntry {
    type V = PoolEntryV;

    open spec fn view(&self) -> PoolEntryV {
        PoolEntryV { pool_id: self.pool_id, data: self.data@ }
    }
}

/// A pool entry that borrows its bytes from the decoded buffer.
#[derive(Debug, Clone, PartialEq)]
pub struct PoolEntryRef<'a> {
    pub pool_id: u32,
    pub data: &'a [u8],
}

impl<'a> View for PoolEntryRef<'a> {
    type V = PoolEntryV;

    open spec fn view(&self) -> PoolEntryV {
        PoolEntryV { pool_id: self.pool_id, data: self.data@ }
    }
}

/// One entry of a symbol table: an address range and the pool id of its
/// symbol name.
#[derive(Clone, Copy, Debug, PartialEq, Eq, Structural)]
pub struct SymbolEntry {
    pub base_addr: u64,
    pub size: u64,
    pub symbol_id: u32,
}

} // verus!
