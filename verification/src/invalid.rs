//! Quality codes and quality-coded values.

use crate::primitive::PrimVal;
use vstd::prelude::*;

verus! {

/// The quality state of a point.
#[derive(Debug, Clone, Copy, PartialEq, Eq, Structural)]
pub enum Inva {
    /// Not existent
    NOEX,
    /// Not ready
    NORE,
    /// Valid
    VALI,
    /// Generic invalid
    INVA,
    /// Hardware overrange
    HAOR,
    /// Hardware underrange
    HAUR,
    /// Hardware out of range
    HOOR,
    /// Hardware wire break
    HAWB,
    /// Hardware short circuit
    HASC,
    /// Software overrange
    SOOR,
    /// Software underrange
    SOUR,
    /// Source lost
    SCOL,
    /// Source configured wrong
    SCCW,
}

impl Inva {
    /// The fixed integer identity of the state.
    pub open spec fn number(self) -> u8 {
        match self {
            Inva::NOEX => 0,
            Inva::NORE => 1,
            Inva::VALI => 10,
            Inva::INVA => 20,
            Inva::HAOR => 21,
            Inva::HAUR => 22,
            Inva::HOOR => 23,
            Inva::HAWB => 24,
            Inva::HASC => 25,
            Inva::SOOR => 26,
            Inva::SOUR => 27,
            Inva::SCOL => 28,
            Inva::SCCW => 29,
        }
    }

    /// Whether a value in this state carries a payload: every state does,
    /// but for `NOEX` and `NORE`.
    pub open spec fn carries_payload(self) -> bool {
        self != Inva::NOEX && self != Inva::NORE
    }

    /// The value in state `code`: it keeps `val` exactly when the state
    /// carries a payload.
    pub open spec fn wrap<T: Copy>(self, val: T) -> InvaVal<T> {
        match self {
            Inva::NOEX => InvaVal::NOEX,
            Inva::NORE => InvaVal::NORE,
            Inva::VALI => InvaVal::VALI(val),
            Inva::INVA => InvaVal::INVA(val),
            Inva::HAOR => InvaVal::HAOR(val),
            Inva::HAUR => InvaVal::HAUR(val),
            Inva::HOOR => InvaVal::HOOR(val),
            Inva::HAWB => InvaVal::HAWB(val),
            Inva::HASC => InvaVal::HASC(val),
            Inva::SOOR => InvaVal::SOOR(val),
            Inva::SOUR => InvaVal::SOUR(val),
            Inva::SCOL => InvaVal::SCOL(val),
            Inva::SCCW => InvaVal::SCCW(val),
        }
    }

    pub fn as_u8(&self) -> (n: u8)
        ensures
            n == self.number(),
    {
        match self {
            Inva::NOEX => 0,
            Inva::NORE => 1,
            Inva::VALI => 10,
            Inva::INVA => 20,
            Inva::HAOR => 21,
            Inva::HAUR => 22,
            Inva::HOOR => 23,
            Inva::HAWB => 24,
            Inva::HASC => 25,
            Inva::SOOR => 26,
            Inva::SOUR => 27,
            Inva::SCOL => 28,
            Inva::SCCW => 29,
        }
    }

    /// The state with the integer identity `n`, if there is one.
    pub fn from_u8(n: u8) -> (r: Option<Inva>)
        ensures
            match r {
                Some(c) => c.number() == n,
                None => forall|c: Inva| c.number() != n,
            },
    {
        match n {
            0 => Some(Inva::NOEX),
            1 => Some(Inva::NORE),
            10 => Some(Inva::VALI),
            20 => Some(Inva::INVA),
            21 => Some(Inva::HAOR),
            22 => Some(Inva::HAUR),
            23 => Some(Inva::HOOR),
            24 => Some(Inva::HAWB),
            25 => Some(Inva::HASC),
            26 => Some(Inva::SOOR),
            27 => Some(Inva::SOUR),
            28 => Some(Inva::SCOL),
            29 => Some(Inva::SCCW),
            _ => None,
        }
    }

    pub fn has_payload(&self) -> (b: bool)
        ensures
            b == self.carries_payload(),
    {
        match self {
            Inva::NOEX | Inva::NORE => false,
            _ => true,
        }
    }

    pub fn to_inva_val<T: Copy>(&self, val: T) -> (r: InvaVal<T>)
        ensures
            r == self.wrap(val),
            r.code() == *self,
            r.payload() == (if self.carries_payload() {
                Some(val)
            } else {
                None
            }),
    {
        InvaVal::from_inva_and_val(self, val)
    }
}

/// A quality state together with the payload that the state carries.
#[derive(Debug, Clone, Copy, PartialEq, Eq, Structural)]
pub enum InvaVal<T: Copy> {
    /// Not existent
    NOEX,
    /// Not ready
    NORE,
    /// Valid
    VALI(T),
    /// Generic invalid
    INVA(T),
    /// Hardware overrange
    HAOR(T),
    /// Hardware underrange
    HAUR(T),
    /// Hardware out of range
    HOOR(T),
    /// Hardware wire break
    HAWB(T),
    /// Hardware short circuit
    HASC(T),
    /// Software overrange
    SOOR(T),
    /// Software underrange
    SOUR(T),
    /// Source lost
    SCOL(T),
    /// Source configured wrong
    SCCW(T),
}

impl InvaVal<()> {
    pub fn from_inva_and_val<G: Copy>(inva: &Inva, val: G) -> (r: InvaVal<G>)
        ensures
            r == inva.wrap(val),
            r.code() == *inva,
            r.payload() == (if inva.carries_payload() {
                Some(val)
            } else {
                None
            }),
    {
        match inva {
            Inva::NOEX => InvaVal::NOEX,
            Inva::NORE => InvaVal::NORE,
            Inva::VALI => InvaVal::VALI(val),
            Inva::INVA => InvaVal::INVA(val),
            Inva::HAOR => InvaVal::HAOR(val),
            Inva::HAUR => InvaVal::HAUR(val),
            Inva::HOOR => InvaVal::HOOR(val),
            Inva::HAWB => InvaVal::HAWB(val),
            Inva::HASC => InvaVal::HASC(val),
            Inva::SOOR => InvaVal::SOOR(val),
            Inva::SOUR => InvaVal::SOUR(val),
            Inva::SCOL => InvaVal::SCOL(val),
            Inva::SCCW => InvaVal::SCCW(val),
        }
    }
}

impl<T: Copy> InvaVal<T> {
    /// The payload, where the state carries one.
    pub open spec fn payload(self) -> Option<T> {
        match self {
            InvaVal::NOEX | InvaVal::NORE => None,
            InvaVal::VALI(v)
            | InvaVal::INVA(v)
            | InvaVal::HAOR(v)
            | InvaVal::HAUR(v)
            | InvaVal::HOOR(v)
            | InvaVal::HAWB(v)
            | InvaVal::HASC(v)
            | InvaVal::SOOR(v)
            | InvaVal::SOUR(v)
            | InvaVal::SCOL(v)
            | InvaVal::SCCW(v) => Some(v),
        }
    }

    /// The quality state.
    pub open spec fn code(self) -> Inva {
        match self {
            InvaVal::NOEX => Inva::NOEX,
            InvaVal::NORE => Inva::NORE,
            InvaVal::VALI(_) => Inva::VALI,
            InvaVal::INVA(_) => Inva::INVA,
            InvaVal::HAOR(_) => Inva::HAOR,
            InvaVal::HAUR(_) => Inva::HAUR,
            InvaVal::HOOR(_) => Inva::HOOR,
            InvaVal::HAWB(_) => Inva::HAWB,
            InvaVal::HASC(_) => Inva::HASC,
            InvaVal::SOOR(_) => Inva::SOOR,
            InvaVal::SOUR(_) => Inva::SOUR,
            InvaVal::SCOL(_) => Inva::SCOL,
            InvaVal::SCCW(_) => Inva::SCCW,
        }
    }

    pub fn value(self) -> (r: Option<T>)
        ensures
            r == self.payload(),
    {
        match self {
            InvaVal::NOEX | InvaVal::NORE => None,
            InvaVal::VALI(v)
            | InvaVal::INVA(v)
            | InvaVal::HAOR(v)
            | InvaVal::HAUR(v)
            | InvaVal::HOOR(v)
            | InvaVal::HAWB(v)
            | InvaVal::HASC(v)
            | InvaVal::SOOR(v)
            | InvaVal::SOUR(v)
            | InvaVal::SCOL(v)
            | InvaVal::SCCW(v) => Some(v),
        }
    }

    pub fn as_reg_inv(&self) -> (r: Inva)
        ensures
            r == self.code(),
    {
        match self {
            InvaVal::NOEX => Inva::NOEX,
            InvaVal::NORE => Inva::NORE,
            InvaVal::VALI(_) => Inva::VALI,
            InvaVal::INVA(_) => Inva::INVA,
            InvaVal::HAOR(_) => Inva::HAOR,
            InvaVal::HAUR(_) => Inva::HAUR,
            InvaVal::HOOR(_) => Inva::HOOR,
            InvaVal::HAWB(_) => Inva::HAWB,
            InvaVal::HASC(_) => Inva::HASC,
            InvaVal::SOOR(_) => Inva::SOOR,
            InvaVal::SOUR(_) => Inva::SOUR,
            InvaVal::SCOL(_) => Inva::SCOL,
            InvaVal::SCCW(_) => Inva::SCCW,
        }
    }
}

/// The unit of storage: a primitive value with its quality state.
pub type InvaPrimVal = InvaVal<PrimVal>;

/// Wrapping keeps the state, and keeps the payload exactly when the state
/// carries one.
pub proof fn lemma_wrap_round_trip<T: Copy>(c: Inva, v: T)
    ensures
        c.wrap(v).code() == c,
        c.carries_payload() ==> c.wrap(v).payload() == Some(v),
        !c.carries_payload() ==> c.wrap(v).payload() == None::<T>,
{
}

/// A value is its state and its payload, and nothing more: two values with
/// the same state and the same payload are the same value.
pub proof fn lemma_state_and_payload_decide<T: Copy>(a: InvaVal<T>, b: InvaVal<T>)
    requires
        a.code() == b.code(),
        a.payload() == b.payload(),
    ensures
        a == b,
{
}

} // verus!
