//! Wire-level type tags, interoperability modes, and the per-call contexts.
use vstd::prelude::*;

use crate::buffer::{Reader, Writer};

verus! {

/// Bytes set aside ahead of each reference-typed value for its
/// null / value / back-reference header.
pub const SIZE_OF_REF_AND_TYPE: usize = 3;

/// The shape of a value on the wire.
#[allow(non_camel_case_types)]
#[derive(Debug, Clone, Copy, PartialEq, Eq, Structural)]
pub enum FieldType {
    BOOL,
    INT8,
    INT16,
    INT32,
    INT64,
    STRING,
    LIST,
    MAP,
    STRUCT,
}

/// The byte that stands for each tag on the wire.
pub open spec fn tag_code(t: FieldType) -> u8 {
    match t {
        FieldType::BOOL => 1,
        FieldType::INT8 => 2,
        FieldType::INT16 => 3,
        FieldType::INT32 => 4,
        FieldType::INT64 => 6,
        FieldType::STRING => 13,
        FieldType::LIST => 14,
        FieldType::MAP => 15,
        FieldType::STRUCT => 17,
    }
}

impl FieldType {
    /// The byte that stands for this tag on the wire.
    pub fn code(&self) -> (r: u8)
        ensures
            r == tag_code(*self),
    {
        match self {
            FieldType::BOOL => 1,
            FieldType::INT8 => 2,
            FieldType::INT16 => 3,
            FieldType::INT32 => 4,
            FieldType::INT64 => 6,
            FieldType::STRING => 13,
            FieldType::LIST => 14,
            FieldType::MAP => 15,
            FieldType::STRUCT => 17,
        }
    }
}

/// How much per-field metadata a struct carries on the wire.
#[derive(Debug, Clone, Copy, PartialEq, Eq, Structural)]
pub enum Mode {
    /// Both ends share one field order; only the values are written.
    SchemaConsistent,
    /// Each field carries its identifier, tag and length, so readers built
    /// from another version of the struct can skip or default fields.
    Compatible,
}

/// State threaded through every write of one top-level value.
pub struct WriteContext {
    pub writer: Writer,
    pub mode: Mode,
}

impl WriteContext {
    pub fn new(mode: Mode) -> (r: WriteContext)
        ensures
            r.writer@ == Seq::<u8>::empty(),
            r.mode == mode,
    {
        WriteContext { writer: Writer::new(), mode }
    }
}

/// State threaded through every read of one top-level value.
pub struct ReadContext {
    pub reader: Reader,
    pub mode: Mode,
}

impl ReadContext {
    pub fn new(bf: Vec<u8>, mode: Mode) -> (r: ReadContext)
        ensures
            r.reader.wf(),
            r.reader.data() == bf@,
            r.reader.pos() == 0,
            r.mode == mode,
    {
        ReadContext { reader: Reader::new(bf), mode }
    }
}

} // verus!
