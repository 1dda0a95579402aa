//! The tags that name the tables, one table per tag. Every primitive kind
//! has the table of its own tag; enumerations have one more, in which they
//! are held as their ordinals.

use crate::primitive::Prim;
use vstd::prelude::*;

verus! {

/// The tag of a table.
#[derive(Debug, Clone, Copy, PartialEq, Eq, Structural)]
pub enum Registry {
    BLN,
    U32,
    I32,
    F32,
    I64,
    U64,
    F64,
    ENU,
    STR,
}

impl Registry {
    /// The fixed integer identity of the tag.
    pub open spec fn number(self) -> u8 {
        match self {
            Registry::BLN => 40,
            Registry::U32 => 41,
            Registry::I32 => 42,
            Registry::F32 => 43,
            Registry::I64 => 44,
            Registry::U64 => 45,
            Registry::F64 => 46,
            Registry::ENU => 47,
            Registry::STR => 48,
        }
    }

    /// The kind of the values in the table: an enumeration is held as its
    /// 32-bit ordinal, every other tag names its kind.
    pub open spec fn prim(self) -> Prim {
        match self {
            Registry::BLN => Prim::BLN,
            Registry::U32 => Prim::U32,
            Registry::I32 => Prim::I32,
            Registry::F32 => Prim::F32,
            Registry::I64 => Prim::I64,
            Registry::U64 => Prim::U64,
            Registry::F64 => Prim::F64,
            Registry::ENU => Prim::U32,
            Registry::STR => Prim::STR,
        }
    }

    /// The tag of the table that holds the values of the kind `kind`.
    pub open spec fn of_kind(kind: Prim) -> Registry {
        match kind {
            Prim::BLN => Registry::BLN,
            Prim::I32 => Registry::I32,
            Prim::U32 => Registry::U32,
            Prim::F32 => Registry::F32,
            Prim::I64 => Registry::I64,
            Prim::U64 => Registry::U64,
            Prim::F64 => Registry::F64,
            Prim::STR => Registry::STR,
        }
    }

    /// The three characters that stand for the tag in a link.
    pub open spec fn text(self) -> Seq<u8> {
        match self {
            Registry::BLN => seq![66u8, 76u8, 78u8],
            Registry::U32 => seq![85u8, 51u8, 50u8],
            Registry::I32 => seq![73u8, 51u8, 50u8],
            Registry::F32 => seq![70u8, 51u8, 50u8],
            Registry::I64 => seq![73u8, 54u8, 52u8],
            Registry::U64 => seq![85u8, 54u8, 52u8],
            Registry::F64 => seq![70u8, 54u8, 52u8],
            Registry::ENU => seq![69u8, 78u8, 85u8],
            Registry::STR => seq![83u8, 84u8, 82u8],
        }
    }

    pub fn as_prim(&self) -> (k: Prim)
        ensures
            k == self.prim(),
    {
        match self {
            Registry::BLN => Prim::BLN,
            Registry::U32 => Prim::U32,
            Registry::I32 => Prim::I32,
            Registry::F32 => Prim::F32,
            Registry::I64 => Prim::I64,
            Registry::U64 => Prim::U64,
            Registry::F64 => Prim::F64,
            Registry::ENU => Prim::U32,
            Registry::STR => Prim::STR,
        }
    }

    /// The tag of the table that holds the values of the kind `kind`.
    pub fn for_prim(kind: Prim) -> (tag: Registry)
        ensures
            tag == Registry::of_kind(kind),
            tag.prim() == kind,
    {
        match kind {
            Prim::BLN => Registry::BLN,
            Prim::I32 => Registry::I32,
            Prim::U32 => Registry::U32,
            Prim::F32 => Registry::F32,
            Prim::I64 => Registry::I64,
            Prim::U64 => Registry::U64,
            Prim::F64 => Registry::F64,
            Prim::STR => Registry::STR,
        }
    }

    pub fn as_u8(&self) -> (n: u8)
        ensures
            n == self.number(),
    {
        match self {
            Registry::BLN => 40,
            Registry::U32 => 41,
            Registry::I32 => 42,
            Registry::F32 => 43,
            Registry::I64 => 44,
            Registry::U64 => 45,
            Registry::F64 => 46,
            Registry::ENU => 47,
            Registry::STR => 48,
        }
    }

    /// The tag with the integer identity `n`, if there is one.
    pub fn from_u8(n: u8) -> (r: Option<Registry>)
        ensures
            match r {
                Some(t) => t.number() == n,
                None => forall|t: Registry| t.number() != n,
            },
    {
        match n {
            40 => Some(Registry::BLN),
            41 => Some(Registry::U32),
            42 => Some(Registry::I32),
            43 => Some(Registry::F32),
            44 => Some(Registry::I64),
            45 => Some(Registry::U64),
            46 => Some(Registry::F64),
            47 => Some(Registry::ENU),
            48 => Some(Registry::STR),
            _ => None,
        }
    }

    /// The tag that the text `t` stands for, if it stands for one.
    pub open spec fn parsed(t: Seq<u8>) -> Option<Registry> {
        if t == Registry::BLN.text() {
            Some(Registry::BLN)
        } else if t == Registry::U32.text() {
            Some(Registry::U32)
        } else if t == Registry::I32.text() {
            Some(Registry::I32)
        } else if t == Registry::F32.text() {
            Some(Registry::F32)
        } else if t == Registry::I64.text() {
            Some(Registry::I64)
        } else if t == Registry::U64.text() {
            Some(Registry::U64)
        } else if t == Registry::F64.text() {
            Some(Registry::F64)
        } else if t == Registry::ENU.text() {
            Some(Registry::ENU)
        } else if t == Registry::STR.text() {
            Some(Registry::STR)
        } else {
            None
        }
    }

    /// The three characters that stand for the tag in a link.
    pub fn tag(&self) -> (t: [u8; 3])
        ensures
            t@ == self.text(),
    {
        let t: [u8; 3] = match self {
            Registry::BLN => [66, 76, 78],
            Registry::U32 => [85, 51, 50],
            Registry::I32 => [73, 51, 50],
            Registry::F32 => [70, 51, 50],
            Registry::I64 => [73, 54, 52],
            Registry::U64 => [85, 54, 52],
            Registry::F64 => [70, 54, 52],
            Registry::ENU => [69, 78, 85],
            Registry::STR => [83, 84, 82],
        };
        assert(t@ =~= self.text());
        t
    }

    /// The tag that the text `t` stands for.
    pub fn from_tag(t: &[u8]) -> (r: Option<Registry>)
        ensures
            r == Registry::parsed(t@),
            match r {
                Some(tag) => tag.text() == t@,
                None => forall|tag: Registry| tag.text() != t@,
            },
    {
        if t.len() != 3 {
            assert forall|tag: Registry| tag.text() != t@ by {
                assert(tag.text().len() == 3);
            }
            return None;
        }
        let r = match (t[0], t[1], t[2]) {
            (66, 76, 78) => Some(Registry::BLN),
            (85, 51, 50) => Some(Registry::U32),
            (73, 51, 50) => Some(Registry::I32),
            (70, 51, 50) => Some(Registry::F32),
            (73, 54, 52) => Some(Registry::I64),
            (85, 54, 52) => Some(Registry::U64),
            (70, 54, 52) => Some(Registry::F64),
            (69, 78, 85) => Some(Registry::ENU),
            (83, 84, 82) => Some(Registry::STR),
            _ => None,
        };
        proof {
            match r {
                Some(tag) => {
                    assert(tag.text() =~= t@);
                },
                None => {
                    assert forall|tag: Registry| tag.text() != t@ by {
                        if tag.text() == t@ {
                            assert(tag.text()[0] == t@[0]);
                            assert(tag.text()[1] == t@[1]);
                            assert(tag.text()[2] == t@[2]);
                        }
                    }
                },
            }
        }
        r
    }
}

/// Parsing the text of a tag gives the tag back, and no two tags have the
/// same text.
pub proof fn lemma_tag_round_trip(tag: Registry)
    ensures
        Registry::parsed(tag.text()) == Some(tag),
        tag.text().len() == 3,
        forall|i: int| 0 <= i < 3 ==> 48 <= (#[trigger] tag.text()[i]) <= 90,
{
    let t = tag.text();
    assert forall|other: Registry| other != tag implies other.text() != t by {
        if other.text() == t {
            assert(other.text()[0] == t[0]);
            assert(other.text()[1] == t[1]);
            assert(other.text()[2] == t[2]);
        }
    }
}

/// Every primitive kind is the kind of a table: the table with the tag of
/// that kind holds its values.
pub proof fn lemma_every_kind_has_a_table(kind: Prim)
    ensures
        Registry::of_kind(kind).prim() == kind,
        exists|tag: Registry| tag.prim() == kind,
{
    assert(Registry::of_kind(kind).prim() == kind);
}

} // verus!
