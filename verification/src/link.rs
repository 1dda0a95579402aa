//! Links: names of points that do not say how to reach them.

use crate::host::lemma_host_round_trip;
use crate::host::lemma_parsed_host_chars;
use crate::host::lemma_parsed_host_len;
use crate::host::Host;
use crate::registry::lemma_tag_round_trip;
use crate::registry::Registry;
use crate::text::digits_only;
use crate::text::is_digit;
use crate::text::lemma_padded;
use crate::text::number;
use crate::text::padded;
use crate::text::parse_padded;
use crate::text::pow10;
use crate::text::push_padded;
use arrayvec::ArrayString;
use vstd::prelude::*;
use vstd::slice::slice_subrange;

verus! {

/// The length of the longest link: a tag, a bar, ten digits, an at sign,
/// and the longest host, an IPv6 address of eight groups of four digits.
pub const LINK_AS_STR_MAX_SIZE: usize = 3 + 1 + 10 + 1 + 39;

/// A link as text: `REG|id@host`, that is the tag of the registry, a bar,
/// the identifier as ten decimal digits, an at sign, and the host as
/// `local`, as an IPv4 address or as an IPv6 address.
pub type LinkAsStr = ArrayString<LINK_AS_STR_MAX_SIZE>;

#[verifier::external_type_specification]
#[verifier::external_body]
pub struct ExArrayString<const CAP: usize>(ArrayString<CAP>);

/// The bytes that a link as text holds.
pub uninterp spec fn link_as_str_bytes(s: ArrayString<54>) -> Seq<u8>;

/// `ArrayString::new`: a text without characters.
#[verifier::external_body]
fn link_as_str_new() -> (s: LinkAsStr)
    ensures
        link_as_str_bytes(s) == Seq::<u8>::empty(),
{
    ArrayString::new()
}

/// `ArrayString::push` with an ASCII character, which is one byte of the
/// text. It panics where the text is full, which the precondition leaves
/// out.
#[verifier::external_body]
fn link_as_str_push(s: &mut LinkAsStr, b: u8)
    requires
        link_as_str_bytes(*old(s)).len() < 54,
        b < 128,
    ensures
        link_as_str_bytes(*final(s)) == link_as_str_bytes(*old(s)).push(b),
{
    s.push(b as char)
}

/// `str::as_bytes` on the text that an `ArrayString` dereferences to: the
/// bytes of the text.
#[verifier::external_body]
fn link_as_str_as_bytes(s: &LinkAsStr) -> (v: &[u8])
    ensures
        v@ == link_as_str_bytes(*s),
{
    s.as_bytes()
}

pub const BAR: u8 = 124;

pub const AT: u8 = 64;

/// A text that stands for no link.
#[derive(Debug, Clone, Copy, PartialEq, Eq, Structural)]
pub struct MalformedLinkText;

/// A link is a way to store a reference to a value in a registry.
#[derive(Debug, Clone, Copy, PartialEq, Eq, Structural)]
pub struct Link {
    pub id: u32,
    pub registry: Registry,
    pub host: Host,
}

impl Link {
    /// The text of a link.
    pub open spec fn text(self) -> Seq<u8> {
        self.registry.text() + seq![BAR] + padded(self.id as nat, 10) + seq![AT]
            + self.host.text()
    }

    /// The link that the text `t` stands for, if it stands for one: the
    /// first three characters are a tag, the fourth is the one bar, the
    /// next ten are decimal digits that spell an identifier, the fifteenth
    /// is the one at sign, and the rest is a host.
    pub open spec fn parsed(t: Seq<u8>) -> Option<Link> {
        if t.len() < 15 || t[3] != BAR || t[14] != AT || !digits_only(t.subrange(4, 14), 10, 10)
            || number(t.subrange(4, 14), 10) > u32::MAX {
            None
        } else {
            match (Registry::parsed(t.subrange(0, 3)), Host::parsed(t.subrange(15, t.len() as int))) {
                (Some(registry), Some(host)) => Some(
                    Link { id: number(t.subrange(4, 14), 10) as u32, registry, host },
                ),
                _ => None,
            }
        }
    }

    pub fn new(id: u32, registry: Registry, host: Host) -> (l: Link)
        ensures
            l == (Link { id, registry, host }),
    {
        Link { id, registry, host }
    }

    /// The text of the link.
    pub fn to_text(&self) -> (out: Vec<u8>)
        ensures
            out@ == self.text(),
    {
        let mut out: Vec<u8> = Vec::new();
        let tag = self.registry.tag();
        out.push(tag[0]);
        out.push(tag[1]);
        out.push(tag[2]);
        assert(out@ == self.registry.text());
        out.push(BAR);
        push_padded(&mut out, self.id, 10);
        out.push(AT);
        self.host.append_text(&mut out);
        out
    }

    /// The text of the link, in a fixed number of bytes.
    pub fn as_link_as_str(&self) -> (s: LinkAsStr)
        ensures
            link_as_str_bytes(s) == self.text(),
    {
        let bytes = self.to_text();
        proof {
            lemma_link_text_bounds(*self);
        }
        let mut s = link_as_str_new();
        let mut i: usize = 0;
        while i < bytes.len()
            invariant
                i <= bytes@.len() <= 54,
                forall|j: int| 0 <= j < bytes@.len() ==> (#[trigger] bytes@[j]) < 128,
                link_as_str_bytes(s) == bytes@.take(i as int),
            decreases bytes@.len() - i,
        {
            link_as_str_push(&mut s, bytes[i]);
            assert(bytes@.take(i as int).push(bytes@[i as int]) == bytes@.take(i + 1));
            i = i + 1;
        }
        assert(bytes@.take(i as int) == bytes@);
        s
    }

    /// The link that the text `t` stands for.
    pub fn from_text(t: &[u8]) -> (r: Result<Link, MalformedLinkText>)
        ensures
            r == (match Link::parsed(t@) {
                Some(l) => Ok::<Link, MalformedLinkText>(l),
                None => Err::<Link, MalformedLinkText>(MalformedLinkText),
            }),
    {
        let n = t.len();
        if n < 15 || t[3] != BAR || t[14] != AT {
            return Err(MalformedLinkText);
        }
        let id = match parse_padded(t, 4, 10) {
            Some(v) => v,
            None => {
                return Err(MalformedLinkText);
            },
        };
        if id > u32::MAX as u64 {
            return Err(MalformedLinkText);
        }
        let registry = match Registry::from_tag(slice_subrange(t, 0, 3)) {
            Some(tag) => tag,
            None => {
                return Err(MalformedLinkText);
            },
        };
        let host = match Host::from_text(slice_subrange(t, 15, n)) {
            Some(h) => h,
            None => {
                return Err(MalformedLinkText);
            },
        };
        Ok(Link { id: id as u32, registry, host })
    }

    /// The link that the text `link` stands for.
    pub fn from_link_as_str(link: &LinkAsStr) -> (r: Option<Link>)
        ensures
            r == Link::parsed(link_as_str_bytes(*link)),
    {
        match Link::from_text(link_as_str_as_bytes(link)) {
            Ok(l) => Some(l),
            Err(_) => None,
        }
    }
}

/// Where the parts of a link stand in its text.
pub proof fn lemma_link_text_parts(l: Link)
    ensures
        l.text().len() == 15 + l.host.text().len(),
        l.text().subrange(0, 3) == l.registry.text(),
        l.text()[3] == BAR,
        l.text().subrange(4, 14) == padded(l.id as nat, 10),
        l.text()[14] == AT,
        l.text().subrange(15, l.text().len() as int) == l.host.text(),
{
    lemma_padded(l.id as nat, 10);
    lemma_tag_round_trip(l.registry);
    let t = l.text();
    assert(t.subrange(0, 3) =~= l.registry.text());
    assert(t.subrange(4, 14) =~= padded(l.id as nat, 10));
    assert(t.subrange(15, t.len() as int) =~= l.host.text());
}

/// Parsing the text of a link gives the link back.
pub proof fn lemma_parse_format_round_trip(l: Link)
    ensures
        Link::parsed(l.text()) == Some(l),
{
    lemma_link_text_parts(l);
    lemma_tag_round_trip(l.registry);
    lemma_host_round_trip(l.host);
    lemma_padded(l.id as nat, 10);
    reveal_with_fuel(pow10, 11);
}

/// A text that stands for a link fits a `LinkAsStr` and is made of ASCII
/// characters. It has its one bar as the fourth character and its one at
/// sign as the fifteenth, ten decimal digits between them, and a host
/// after them: a text without a bar or an at sign, or with two of either,
/// or with another number of digits, stands for no link.
pub proof fn lemma_parsed_text_shape(t: Seq<u8>)
    requires
        Link::parsed(t) is Some,
    ensures
        16 <= t.len() <= LINK_AS_STR_MAX_SIZE,
        forall|i: int| 0 <= i < t.len() ==> (#[trigger] t[i]) < 128,
        forall|i: int| 0 <= i < t.len() ==> (t[i] == BAR <==> i == 3),
        forall|i: int| 0 <= i < t.len() ==> (t[i] == AT <==> i == 14),
        forall|i: int| 4 <= i < 14 ==> is_digit(#[trigger] t[i], 10),
        Registry::parsed(t.subrange(0, 3)) is Some,
        Host::parsed(t.subrange(15, t.len() as int)) is Some,
{
    let tag = t.subrange(0, 3);
    let id = t.subrange(4, 14);
    let host = t.subrange(15, t.len() as int);
    lemma_parsed_host_chars(host);
    lemma_parsed_host_len(host);
    lemma_tag_round_trip(Registry::parsed(tag)->Some_0);
    assert forall|i: int| 0 <= i < t.len() implies (#[trigger] t[i]) < 128 && (t[i] == BAR <==> i
        == 3) && (t[i] == AT <==> i == 14) && (4 <= i < 14 ==> is_digit(t[i], 10)) by {
        if i < 3 {
            assert(t[i] == tag[i]);
        } else if 4 <= i < 14 {
            assert(t[i] == id[i - 4]);
        } else if i >= 15 {
            assert(t[i] == host[i - 15]);
        }
    }
}

/// The text of a link fits a `LinkAsStr`, is made of ASCII characters, and
/// holds one bar and one at sign.
pub proof fn lemma_link_text_bounds(l: Link)
    ensures
        16 <= l.text().len() <= LINK_AS_STR_MAX_SIZE,
        forall|i: int| 0 <= i < l.text().len() ==> (#[trigger] l.text()[i]) < 128,
        forall|i: int| 0 <= i < l.text().len() ==> (l.text()[i] == BAR <==> i == 3),
        forall|i: int| 0 <= i < l.text().len() ==> (l.text()[i] == AT <==> i == 14),
{
    lemma_parse_format_round_trip(l);
    lemma_parsed_text_shape(l.text());
}

/// Two links with the same text are the same link.
pub proof fn lemma_link_text_injective(a: Link, b: Link)
    requires
        a.text() == b.text(),
    ensures
        a == b,
{
    lemma_parse_format_round_trip(a);
    lemma_parse_format_round_trip(b);
}

} // verus!
