//! Primitive kinds and primitive values.

use crate::registry::Registry;
use vstd::prelude::*;

verus! {

/// The descriptor of a string: its length and its place in the string pool.
/// The characters themselves live in the pool, never in a point.
#[derive(Debug, Clone, Copy, PartialEq, Eq, Structural)]
pub struct PrimString {
    length: u32,
    id: u32,
}

impl PrimString {
    pub closed spec fn spec_length(self) -> u32 {
        self.length
    }

    pub closed spec fn spec_id(self) -> u32 {
        self.id
    }

    pub fn new(length: u32, id: u32) -> (s: PrimString)
        ensures
            s.spec_length() == length,
            s.spec_id() == id,
    {
        PrimString { length, id }
    }

    pub fn length(&self) -> (n: u32)
        ensures
            n == self.spec_length(),
    {
        self.length
    }

    pub fn id(&self) -> (n: u32)
        ensures
            n == self.spec_id(),
    {
        self.id
    }
}

/// A descriptor is its length and its pool identifier, and nothing more.
pub proof fn lemma_prim_string_parts_decide(a: PrimString, b: PrimString)
    requires
        a.spec_length() == b.spec_length(),
        a.spec_id() == b.spec_id(),
    ensures
        a == b,
{
}

/// The kind of a primitive value.
#[derive(Debug, Clone, Copy, PartialEq, Eq, Structural)]
pub enum Prim {
    BLN,
    I32,
    U32,
    F32,
    I64,
    U64,
    F64,
    STR,
}

impl Prim {
    /// The fixed integer identity of the kind.
    pub open spec fn number(self) -> u8 {
        match self {
            Prim::BLN => 1,
            Prim::I32 => 2,
            Prim::U32 => 3,
            Prim::F32 => 4,
            Prim::I64 => 5,
            Prim::U64 => 6,
            Prim::F64 => 7,
            Prim::STR => 8,
        }
    }

    pub fn as_u8(&self) -> (n: u8)
        ensures
            n == self.number(),
    {
        match self {
            Prim::BLN => 1,
            Prim::I32 => 2,
            Prim::U32 => 3,
            Prim::F32 => 4,
            Prim::I64 => 5,
            Prim::U64 => 6,
            Prim::F64 => 7,
            Prim::STR => 8,
        }
    }

    /// The kind with the integer identity `n`, if there is one.
    pub fn from_u8(n: u8) -> (r: Option<Prim>)
        ensures
            match r {
                Some(k) => k.number() == n,
                None => forall|k: Prim| k.number() != n,
            },
    {
        match n {
            1 => Some(Prim::BLN),
            2 => Some(Prim::I32),
            3 => Some(Prim::U32),
            4 => Some(Prim::F32),
            5 => Some(Prim::I64),
            6 => Some(Prim::U64),
            7 => Some(Prim::F64),
            8 => Some(Prim::STR),
            _ => None,
        }
    }
}

/// A primitive value. A floating-point payload is held as the bit pattern of
/// its IEEE 754 encoding, so that two values are equal exactly when they
/// are the same bits.
#[derive(Debug, Clone, Copy, PartialEq, Eq, Structural)]
pub enum PrimVal {
    BLN(bool),
    I32(i32),
    U32(u32),
    /// The bits of a 32-bit float.
    F32(u32),
    I64(i64),
    U64(u64),
    /// The bits of a 64-bit float.
    F64(u64),
    STR(PrimString),
}

impl PrimVal {
    /// The kind of the value: the variant that is populated, and nothing
    /// of what it holds.
    pub open spec fn kind(self) -> Prim {
        match self {
            PrimVal::BLN(_) => Prim::BLN,
            PrimVal::I32(_) => Prim::I32,
            PrimVal::U32(_) => Prim::U32,
            PrimVal::F32(_) => Prim::F32,
            PrimVal::I64(_) => Prim::I64,
            PrimVal::U64(_) => Prim::U64,
            PrimVal::F64(_) => Prim::F64,
            PrimVal::STR(_) => Prim::STR,
        }
    }

    pub fn as_reg_prim(&self) -> (k: Prim)
        ensures
            k == self.kind(),
            Registry::of_kind(k).prim() == k,
    {
        match self {
            PrimVal::BLN(_) => Prim::BLN,
            PrimVal::U32(_) => Prim::U32,
            PrimVal::I32(_) => Prim::I32,
            PrimVal::F32(_) => Prim::F32,
            PrimVal::U64(_) => Prim::U64,
            PrimVal::I64(_) => Prim::I64,
            PrimVal::F64(_) => Prim::F64,
            PrimVal::STR(_) => Prim::STR,
        }
    }
}

} // verus!
