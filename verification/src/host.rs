//! Hosts: where the points that a link names live.

use crate::text::contains_byte;
use crate::text::digits;
use crate::text::digits_only;
use crate::text::free_of;
use crate::text::is_digit;
use crate::text::join;
use crate::text::lemma_digits;
use crate::text::lemma_digits_len;
use crate::text::lemma_fields_chars;
use crate::text::lemma_join_chars;
use crate::text::lemma_join_concat;
use crate::text::lemma_join_lengths;
use crate::text::lemma_join_split;
use crate::text::lemma_lengths_bound;
use crate::text::lemma_split_nonempty;
use crate::text::lemma_number_bound;
use crate::text::lemma_split_join;
use crate::text::number;
use crate::text::parse_fields;
use crate::text::push_digits;
use crate::text::split;
use crate::text::Field;
use vstd::prelude::*;

verus! {

/// The node that owns an identifier space: this one, or one with a network
/// address. An IPv4 address is held as its four octets, an IPv6 address as
/// its eight groups of sixteen bits, the first on the wire first.
#[derive(Debug, Clone, Copy, PartialEq, Eq, Structural)]
pub enum Host {
    Local,
    V4(u8, u8, u8, u8),
    V6(u16, u16, u16, u16, u16, u16, u16, u16),
}

pub const DOT: u8 = 46;

pub const COLON: u8 = 58;

/// The text `local`.
pub open spec fn local_text() -> Seq<u8> {
    seq![108u8, 111u8, 99u8, 97u8, 108u8]
}

/// The number of zero groups in a row from `s` on.
pub open spec fn zero_run_at(g: Seq<u16>, s: int) -> nat
    decreases g.len() - s,
{
    if 0 <= s < g.len() && g[s] == 0 {
        1 + zero_run_at(g, s + 1)
    } else {
        0
    }
}

/// Among the runs of zero groups that start below `upto`, the longest, and
/// of several the first: where it starts and how long it is.
pub open spec fn longest_run(g: Seq<u16>, upto: int) -> (int, nat)
    decreases upto,
{
    if upto <= 0 {
        (0, 0)
    } else {
        let best = longest_run(g, upto - 1);
        let here = zero_run_at(g, upto - 1);
        if here > best.1 {
            (upto - 1, here)
        } else {
            best
        }
    }
}

/// Each group as its hexadecimal digits.
pub open spec fn hex_fields(g: Seq<u16>) -> Seq<Seq<u8>> {
    Seq::new(g.len(), |i: int| digits(g[i] as nat, 16))
}

/// The empty fields that stand for a run of zero groups: one between two
/// groups, and one more at each end of the address that the run touches.
pub open spec fn gap_fields(at_start: bool, at_end: bool) -> Seq<Seq<u8>> {
    let one = seq![Seq::<u8>::empty()];
    let two = one.push(Seq::empty());
    if at_start && at_end {
        two.push(Seq::empty())
    } else if at_start || at_end {
        two
    } else {
        one
    }
}

/// The fields of an IPv6 address between its colons: the groups in
/// hexadecimal without leading zeros, with the longest run of two or more
/// zero groups (the first of several) left out.
pub open spec fn v6_fields(g: Seq<u16>) -> Seq<Seq<u8>> {
    let run = longest_run(g, g.len() as int);
    if run.1 < 2 {
        hex_fields(g)
    } else {
        hex_fields(g.take(run.0)) + gap_fields(run.0 == 0, run.0 + run.1 == g.len()) + hex_fields(
            g.skip(run.0 + run.1),
        )
    }
}

/// The fields of an IPv4 address between its dots: the octets in decimal
/// without leading zeros.
pub open spec fn v4_fields(a: u8, b: u8, c: u8, d: u8) -> Seq<Seq<u8>> {
    seq![digits(a as nat, 10), digits(b as nat, 10), digits(c as nat, 10), digits(d as nat, 10)]
}

/// The first field from `from` on that is empty, or the number of fields.
pub open spec fn first_empty(fs: Seq<Seq<u8>>, from: int) -> int
    decreases fs.len() - from,
{
    if 0 <= from < fs.len() && fs[from].len() > 0 {
        first_empty(fs, from + 1)
    } else {
        from
    }
}

/// The first field from `from` on that is not empty, or the number of
/// fields.
pub open spec fn first_filled(fs: Seq<Seq<u8>>, from: int) -> int
    decreases fs.len() - from,
{
    if 0 <= from < fs.len() && fs[from].len() == 0 {
        first_filled(fs, from + 1)
    } else {
        from
    }
}

/// The numbers that the fields spell.
pub open spec fn numbers(fs: Seq<Seq<u8>>, base: nat) -> Seq<nat> {
    Seq::new(fs.len(), |i: int| number(fs[i], base))
}

/// Whether `f` is an octet as text: one to three decimal digits that spell
/// a number up to 255, the first of several not a zero.
pub open spec fn is_octet_text(f: Seq<u8>) -> bool {
    &&& digits_only(f, 10, 3)
    &&& f.len() >= 1
    &&& f.len() > 1 ==> f[0] != 48
    &&& number(f, 10) <= 255
}

/// The octets that the fields between the dots of an IPv4 address stand
/// for: there are four fields, and each is an octet as text.
pub open spec fn v4_octets(fs: Seq<Seq<u8>>) -> Option<Seq<nat>> {
    if fs.len() == 4 && (forall|j: int| 0 <= j < 4 ==> is_octet_text(#[trigger] fs[j])) {
        Some(numbers(fs, 10))
    } else {
        None
    }
}

/// The groups that the fields between the colons of an IPv6 address stand
/// for. A field that is not empty is a group of one to four hexadecimal
/// digits. Either there are eight of them and no empty field; or there are
/// seven or fewer and one row of empty fields, as many as stand for a run
/// of zero groups at that place, and that row stands for the groups that
/// are missing, all of them zero.
pub open spec fn v6_groups(fs: Seq<Seq<u8>>) -> Option<Seq<nat>> {
    let k = first_empty(fs, 0);
    let m = first_filled(fs, k);
    if !(forall|j: int| 0 <= j < fs.len() ==> digits_only(#[trigger] fs[j], 16, 4)) {
        None
    } else if k == fs.len() {
        if fs.len() == 8 {
            Some(numbers(fs, 16))
        } else {
            None
        }
    } else if first_empty(fs, m) != fs.len() || m - k != gap_fields(k == 0, m == fs.len()).len() || k
        + (fs.len() - m) > 7 {
        None
    } else {
        Some(
            numbers(fs.take(k), 16) + Seq::new((8 - k - (fs.len() - m)) as nat, |i: int| 0nat)
                + numbers(fs.skip(m), 16),
        )
    }
}

impl Host {
    /// The groups of an IPv6 address.
    pub open spec fn groups(self) -> Seq<u16> {
        match self {
            Host::V6(g0, g1, g2, g3, g4, g5, g6, g7) => seq![g0, g1, g2, g3, g4, g5, g6, g7],
            _ => Seq::empty(),
        }
    }

    /// The text of a host: `local`, the dotted decimal of an IPv4 address, or
    /// the shortened hexadecimal of an IPv6 address.
    pub open spec fn text(self) -> Seq<u8> {
        match self {
            Host::Local => local_text(),
            Host::V4(a, b, c, d) => join(v4_fields(a, b, c, d), DOT),
            Host::V6(..) => join(v6_fields(self.groups()), COLON),
        }
    }

    /// The host that the text `t` stands for, if it stands for one: a text
    /// with a colon is an IPv6 address, the text `local` is this host, and
    /// any other text is an IPv4 address. An IPv6 address may be written
    /// with capital digits, with leading zeros and with any one run of zero
    /// groups left out, but not with its last two groups as dotted decimal;
    /// an IPv4 address and `local` are written in one way only.
    pub open spec fn parsed(t: Seq<u8>) -> Option<Host> {
        if t.contains(COLON) {
            match v6_groups(split(t, COLON)) {
                Some(g) => Some(
                    Host::V6(
                        g[0] as u16,
                        g[1] as u16,
                        g[2] as u16,
                        g[3] as u16,
                        g[4] as u16,
                        g[5] as u16,
                        g[6] as u16,
                        g[7] as u16,
                    ),
                ),
                None => None,
            }
        } else if t == local_text() {
            Some(Host::Local)
        } else {
            match v4_octets(split(t, DOT)) {
                Some(g) => Some(Host::V4(g[0] as u8, g[1] as u8, g[2] as u8, g[3] as u8)),
                None => None,
            }
        }
    }

    /// The groups of an IPv6 address; eight zeros for any other host.
    fn segments(&self) -> (g: [u16; 8])
        ensures
            self is V6 ==> g@ == self.groups(),
    {
        match self {
            Host::V6(g0, g1, g2, g3, g4, g5, g6, g7) => [*g0, *g1, *g2, *g3, *g4, *g5, *g6, *g7],
            _ => [0, 0, 0, 0, 0, 0, 0, 0],
        }
    }

    /// Appends the text of the host.
    pub fn append_text(&self, out: &mut Vec<u8>)
        ensures
            final(out)@ == old(out)@ + self.text(),
    {
        let ghost before = out@;
        match self {
            Host::Local => {
                out.push(108);
                out.push(111);
                out.push(99);
                out.push(97);
                out.push(108);
                assert(out@ == before + local_text());
            },
            Host::V4(a, b, c, d) => {
                push_digits(out, *a as u32, 10);
                out.push(DOT);
                push_digits(out, *b as u32, 10);
                out.push(DOT);
                push_digits(out, *c as u32, 10);
                out.push(DOT);
                push_digits(out, *d as u32, 10);
                proof {
                    let f = v4_fields(*a, *b, *c, *d);
                    reveal_with_fuel(join, 5);
                    assert(f.drop_last().drop_last().drop_last() == seq![f[0]]);
                    assert(f.drop_last().drop_last() == seq![f[0], f[1]]);
                    assert(f.drop_last() == seq![f[0], f[1], f[2]]);
                    assert(out@ == before + join(f, DOT));
                }
            },
            Host::V6(..) => {
                let g = self.segments();
                let run = find_longest_run(&g);
                if run.1 < 2 {
                    push_groups(out, &g, 0, 8);
                    assert(g@.subrange(0, 8) == g@);
                } else {
                    push_groups(out, &g, 0, run.0);
                    out.push(COLON);
                    out.push(COLON);
                    push_groups(out, &g, run.0 + run.1, 8);
                    proof {
                        lemma_join_gap(g@.take(run.0 as int), g@.skip(run.0 + run.1));
                        assert(g@.subrange(0, run.0 as int) == g@.take(run.0 as int));
                        assert(g@.subrange(run.0 + run.1, 8) == g@.skip(run.0 + run.1));
                    }
                }
            },
        }
    }

    /// The text of the host.
    pub fn to_text(&self) -> (out: Vec<u8>)
        ensures
            out@ == self.text(),
    {
        let mut out = Vec::new();
        self.append_text(&mut out);
        assert(Seq::<u8>::empty() + self.text() == self.text());
        out
    }

    /// The host that the text `t` stands for.
    pub fn from_text(t: &[u8]) -> (r: Option<Host>)
        ensures
            r == Host::parsed(t@),
    {
        if contains_byte(t, COLON) {
            match parse_groups(t) {
                Some(g) => Some(Host::V6(g[0], g[1], g[2], g[3], g[4], g[5], g[6], g[7])),
                None => None,
            }
        } else if is_local(t) {
            Some(Host::Local)
        } else {
            parse_octets(t)
        }
    }
}

/// Parsing the text of a host gives the host back.
pub proof fn lemma_host_round_trip(h: Host)
    ensures
        Host::parsed(h.text()) == Some(h),
{
    let t = h.text();
    match h {
        Host::Local => {
            assert(!t.contains(COLON));
        },
        Host::V4(a, b, c, d) => {
            let fs = v4_fields(a, b, c, d);
            lemma_v4_fields(a, b, c, d);
            lemma_join_chars(fs, DOT, 10, 3);
            assert(!t.contains(COLON)) by {
                if t.contains(COLON) {
                    let i = choose|i: int| 0 <= i < t.len() && t[i] == COLON;
                    assert(t[i] == DOT || is_digit(t[i], 10));
                }
            }
            assert(t != local_text()) by {
                if t == local_text() {
                    assert(t[0] == DOT || is_digit(t[0], 10));
                }
            }
            assert forall|j: int| 0 <= j < fs.len() implies free_of(#[trigger] fs[j], DOT) by {}
            lemma_split_join(fs, DOT);
        },
        Host::V6(..) => {
            let fs = v6_fields(h.groups());
            lemma_v6_fields(h.groups());
            lemma_join_chars(fs, COLON, 16, 4);
            assert forall|j: int| 0 <= j < fs.len() implies free_of(#[trigger] fs[j], COLON) by {}
            lemma_split_join(fs, COLON);
        },
    }
}

/// Two hosts with the same text are the same host.
pub proof fn lemma_host_text_injective(a: Host, b: Host)
    requires
        a.text() == b.text(),
    ensures
        a == b,
{
    lemma_host_round_trip(a);
    lemma_host_round_trip(b);
}

/// The text of a host has at most 39 characters, each of them a digit, a
/// letter, a dot or a colon.
pub proof fn lemma_host_text_bounds(h: Host)
    ensures
        1 <= h.text().len() <= 39,
        forall|i: int|
            0 <= i < h.text().len() ==> 46 <= (#[trigger] h.text()[i]) <= 58 || 65 <= h.text()[i]
                <= 70 || 97 <= h.text()[i] <= 111,
{
    lemma_host_round_trip(h);
    lemma_parsed_host_chars(h.text());
    lemma_parsed_host_len(h.text());
}

/// A text that stands for a host is not empty and is made of digits,
/// letters, dots and colons.
pub proof fn lemma_parsed_host_chars(t: Seq<u8>)
    requires
        Host::parsed(t) is Some,
    ensures
        t.len() >= 1,
        forall|i: int|
            0 <= i < t.len() ==> 46 <= (#[trigger] t[i]) <= 58 || 65 <= t[i] <= 70 || 97 <= t[i]
                <= 111,
{
    if t.contains(COLON) {
        lemma_fields_chars(t, COLON, 16, 4);
    } else if t != local_text() {
        let fs = split(t, DOT);
        assert forall|j: int| 0 <= j < fs.len() implies digits_only(#[trigger] fs[j], 10, 3) by {
            assert(is_octet_text(fs[j]));
        }
        lemma_fields_chars(t, DOT, 10, 3);
        if t.len() == 0 {
            assert(fs =~= seq![Seq::<u8>::empty()]);
        }
    }
}

/// A text that stands for a host has at most 39 characters.
pub proof fn lemma_parsed_host_len(t: Seq<u8>)
    requires
        Host::parsed(t) is Some,
    ensures
        t.len() <= 39,
{
    if t.contains(COLON) {
        let fs = split(t, COLON);
        let n = fs.len() as int;
        lemma_split_nonempty(t, COLON);
        lemma_join_split(t, COLON);
        lemma_join_lengths(fs, COLON);
        assert forall|j: int| 0 <= j < n implies (#[trigger] fs[j]).len() <= 4 by {
            assert(digits_only(fs[j], 16, 4));
        }
        let k = first_empty(fs, 0);
        lemma_first_empty_range(fs, 0);
        if k == n {
            lemma_lengths_bound(fs, 0, 0, n, 4);
        } else {
            let m = first_filled(fs, k);
            lemma_first_filled_range(fs, k);
            lemma_lengths_bound(fs, 0, 0, k, 4);
            lemma_lengths_bound(fs, 0, k, m, 0);
            lemma_lengths_bound(fs, 0, m, n, 4);
        }
    } else if t != local_text() {
        let fs = split(t, DOT);
        lemma_join_split(t, DOT);
        lemma_join_lengths(fs, DOT);
        assert forall|j: int| 0 <= j < 4 implies (#[trigger] fs[j]).len() <= 3 by {
            assert(is_octet_text(fs[j]));
        }
        lemma_lengths_bound(fs, 0, 0, 4, 3);
    }
}

proof fn lemma_first_empty_range(fs: Seq<Seq<u8>>, from: int)
    requires
        0 <= from <= fs.len(),
    ensures
        from <= first_empty(fs, from) <= fs.len(),
    decreases fs.len() - from,
{
    if from < fs.len() && fs[from].len() > 0 {
        lemma_first_empty_range(fs, from + 1);
    }
}

proof fn lemma_first_filled_range(fs: Seq<Seq<u8>>, from: int)
    requires
        0 <= from <= fs.len(),
    ensures
        from <= first_filled(fs, from) <= fs.len(),
        forall|j: int| from <= j < first_filled(fs, from) ==> (#[trigger] fs[j]).len() == 0,
    decreases fs.len() - from,
{
    if from < fs.len() && fs[from].len() == 0 {
        lemma_first_filled_range(fs, from + 1);
    }
}

proof fn lemma_zero_run(g: Seq<u16>, s: int)
    requires
        0 <= s <= g.len(),
    ensures
        s + zero_run_at(g, s) <= g.len(),
        forall|j: int| s <= j < s + zero_run_at(g, s) ==> g[j] == 0,
    decreases g.len() - s,
{
    if s < g.len() && g[s] == 0 {
        lemma_zero_run(g, s + 1);
    }
}

proof fn lemma_longest_run(g: Seq<u16>, upto: int)
    requires
        0 <= upto <= g.len(),
    ensures
        0 <= longest_run(g, upto).0 <= upto,
        longest_run(g, upto).0 + longest_run(g, upto).1 <= g.len(),
        forall|j: int|
            longest_run(g, upto).0 <= j < longest_run(g, upto).0 + longest_run(g, upto).1 ==> g[j]
                == 0,
    decreases upto,
{
    if upto > 0 {
        lemma_longest_run(g, upto - 1);
        lemma_zero_run(g, upto - 1);
    }
}

proof fn lemma_first_empty_skip(fs: Seq<Seq<u8>>, from: int, to: int)
    requires
        0 <= from <= to <= fs.len(),
        forall|j: int| from <= j < to ==> (#[trigger] fs[j]).len() > 0,
    ensures
        first_empty(fs, from) == first_empty(fs, to),
    decreases to - from,
{
    if from < to {
        lemma_first_empty_skip(fs, from + 1, to);
    }
}

proof fn lemma_first_filled_skip(fs: Seq<Seq<u8>>, from: int, to: int)
    requires
        0 <= from <= to <= fs.len(),
        forall|j: int| from <= j < to ==> (#[trigger] fs[j]).len() == 0,
    ensures
        first_filled(fs, from) == first_filled(fs, to),
    decreases to - from,
{
    if from < to {
        lemma_first_filled_skip(fs, from + 1, to);
    }
}

/// The hexadecimal fields of groups are digits, one to four of them, and
/// spell the groups.
proof fn lemma_hex_fields(g: Seq<u16>)
    ensures
        hex_fields(g).len() == g.len(),
        forall|j: int|
            0 <= j < g.len() ==> digits_only(#[trigger] hex_fields(g)[j], 16, 4) && hex_fields(
                g,
            )[j].len() > 0 && number(hex_fields(g)[j], 16) == g[j],
{
    assert forall|j: int| 0 <= j < g.len() implies digits_only(#[trigger] hex_fields(g)[j], 16, 4)
        && hex_fields(g)[j].len() > 0 && number(hex_fields(g)[j], 16) == g[j] by {
        lemma_digits(g[j] as nat, 16);
        lemma_digits_len(g[j] as nat, 16);
    }
}

/// The fields of an IPv6 address stand for its groups.
proof fn lemma_v6_fields(g: Seq<u16>)
    requires
        g.len() == 8,
    ensures
        2 <= v6_fields(g).len() <= 8,
        forall|j: int| 0 <= j < v6_fields(g).len() ==> digits_only(#[trigger] v6_fields(g)[j], 16, 4),
        v6_groups(v6_fields(g)) == Some(Seq::new(8, |i: int| g[i] as nat)),
{
    let fs = v6_fields(g);
    let run = longest_run(g, 8);
    let want = Seq::new(8, |i: int| g[i] as nat);
    lemma_longest_run(g, 8);
    lemma_hex_fields(g);
    if run.1 < 2 {
        lemma_first_empty_skip(fs, 0, 8);
        assert(numbers(fs, 16) == want);
    } else {
        let s = run.0;
        let z = run.1 as int;
        let head = g.take(s);
        let tail = g.skip(s + z);
        let gap = gap_fields(s == 0, s + z == 8);
        let m = s + gap.len();
        lemma_hex_fields(head);
        lemma_hex_fields(tail);
        assert(fs == hex_fields(head) + gap + hex_fields(tail));
        assert(fs.len() == m + tail.len());
        assert forall|j: int| 0 <= j < fs.len() implies digits_only(#[trigger] fs[j], 16, 4) by {
            if j < s {
                assert(fs[j] == hex_fields(head)[j]);
            } else if j < m {
                assert(fs[j] == gap[j - s]);
            } else {
                assert(fs[j] == hex_fields(tail)[j - m]);
            }
        }
        assert forall|j: int| 0 <= j < s implies (#[trigger] fs[j]).len() > 0 by {
            assert(fs[j] == hex_fields(head)[j]);
        }
        assert forall|j: int| s <= j < m implies (#[trigger] fs[j]).len() == 0 by {
            assert(fs[j] == gap[j - s]);
        }
        assert forall|j: int| m <= j < fs.len() implies (#[trigger] fs[j]).len() > 0 by {
            assert(fs[j] == hex_fields(tail)[j - m]);
        }
        lemma_first_empty_skip(fs, 0, s);
        assert(fs[s] == gap[0]);
        assert(first_empty(fs, s) == s);
        lemma_first_filled_skip(fs, s, m);
        assert(first_filled(fs, m) == m);
        lemma_first_empty_skip(fs, m, fs.len() as int);
        assert(first_empty(fs, fs.len() as int) == fs.len());
        assert((m == fs.len()) == (s + z == 8));
        let got = numbers(fs.take(s), 16) + Seq::new((8 - s - (fs.len() - m)) as nat, |i: int| 0nat)
            + numbers(fs.skip(m), 16);
        assert(got.len() == 8);
        assert forall|i: int| 0 <= i < 8 implies got[i] == want[i] by {
            if i < s {
                assert(fs.take(s)[i] == hex_fields(head)[i]);
            } else if i < s + z {
                assert(g[i] == 0);
            } else {
                assert(fs.skip(m)[i - s - z] == hex_fields(tail)[i - s - z]);
                assert(tail[i - s - z] == g[i]);
            }
        }
        assert(got == want);
    }
}

/// The fields of an IPv4 address stand for its octets.
proof fn lemma_v4_fields(a: u8, b: u8, c: u8, d: u8)
    ensures
        forall|j: int| 0 <= j < 4 ==> digits_only(#[trigger] v4_fields(a, b, c, d)[j], 10, 3),
        v4_fields(a, b, c, d)[0].len() >= 1,
        v4_octets(v4_fields(a, b, c, d)) == Some(seq![a as nat, b as nat, c as nat, d as nat]),
{
    let fs = v4_fields(a, b, c, d);
    lemma_octet(a);
    lemma_octet(b);
    lemma_octet(c);
    lemma_octet(d);
    assert(numbers(fs, 10) == seq![a as nat, b as nat, c as nat, d as nat]);
}

/// The decimal digits of an octet are an octet as text.
proof fn lemma_octet(a: u8)
    ensures
        is_octet_text(digits(a as nat, 10)),
        number(digits(a as nat, 10), 10) == a,
{
    lemma_digits(a as nat, 10);
    lemma_digits_len(a as nat, 10);
}

/// What the groups before and after the run that is left out join to, with
/// two colons between them.
proof fn lemma_join_gap(head: Seq<u16>, tail: Seq<u16>)
    ensures
        join(
            hex_fields(head) + gap_fields(head.len() == 0, tail.len() == 0) + hex_fields(tail),
            COLON,
        ) == join(hex_fields(head), COLON).push(COLON).push(COLON) + join(hex_fields(tail), COLON),
{
    let h = hex_fields(head);
    let t = hex_fields(tail);
    let gap = gap_fields(head.len() == 0, tail.len() == 0);
    let none = Seq::<u8>::empty();
    reveal_with_fuel(join, 4);
    assert(join(seq![none], COLON) == none);
    assert(seq![none, none].drop_last() == seq![none]);
    assert(join(seq![none, none], COLON) == seq![COLON]);
    assert(seq![none, none, none].drop_last() == seq![none, none]);
    assert(join(seq![none, none, none], COLON) == seq![COLON, COLON]);
    if head.len() == 0 && tail.len() == 0 {
        assert(gap == seq![none, none, none]);
        assert(h + gap + t == gap);
        assert(join(h, COLON) == none);
        assert(join(t, COLON) == none);
        assert(none.push(COLON).push(COLON) + none == seq![COLON, COLON]);
    } else if head.len() == 0 {
        assert(gap == seq![none, none]);
        assert(h + gap + t == gap + t);
        lemma_join_concat(gap, t, COLON);
        assert(join(h, COLON) == none);
        assert(seq![COLON].push(COLON) + join(t, COLON) == none.push(COLON).push(COLON) + join(
            t,
            COLON,
        ));
    } else if tail.len() == 0 {
        assert(gap == seq![none, none]);
        assert(h + gap + t == h + gap);
        lemma_join_concat(h, gap, COLON);
        assert(join(t, COLON) == none);
        assert(join(h, COLON).push(COLON) + seq![COLON] == join(h, COLON).push(COLON).push(COLON)
            + none);
    } else {
        assert(gap == seq![none]);
        lemma_join_concat(h, gap, COLON);
        lemma_join_concat(h + gap, t, COLON);
        assert(join(h, COLON).push(COLON) + none == join(h, COLON).push(COLON));
    }
}

/// The number of zero groups in a row from `s` on.
fn zero_run_len(g: &[u16; 8], s: usize) -> (n: usize)
    requires
        s <= 8,
    ensures
        n == zero_run_at(g@, s as int),
        s + n <= 8,
    decreases 8 - s,
{
    if s < 8 && g[s] == 0 {
        1 + zero_run_len(g, s + 1)
    } else {
        0
    }
}

/// The longest run of zero groups, and of several the first.
fn find_longest_run(g: &[u16; 8]) -> (r: (usize, usize))
    ensures
        (r.0 as int, r.1 as nat) == longest_run(g@, 8),
        r.0 + r.1 <= 8,
{
    let mut best: (usize, usize) = (0, 0);
    let mut s: usize = 0;
    while s < 8
        invariant
            s <= 8,
            (best.0 as int, best.1 as nat) == longest_run(g@, s as int),
            best.0 + best.1 <= 8,
        decreases 8 - s,
    {
        let here = zero_run_len(g, s);
        if here > best.1 {
            best = (s, here);
        }
        s = s + 1;
    }
    best
}

/// Appends the groups from `from` up to `to` in hexadecimal, with a colon
/// between each two of them.
fn push_groups(out: &mut Vec<u8>, g: &[u16; 8], from: usize, to: usize)
    requires
        from <= to <= 8,
    ensures
        final(out)@ == old(out)@ + join(hex_fields(g@.subrange(from as int, to as int)), COLON),
{
    let ghost before = out@;
    let mut i = from;
    assert(hex_fields(g@.subrange(from as int, from as int)) == Seq::<Seq<u8>>::empty());
    assert(before + Seq::<u8>::empty() == before);
    while i < to
        invariant
            from <= i <= to <= 8,
            out@ == before + join(hex_fields(g@.subrange(from as int, i as int)), COLON),
        decreases to - i,
    {
        if i > from {
            out.push(COLON);
        }
        push_digits(out, g[i] as u32, 16);
        proof {
            let done = hex_fields(g@.subrange(from as int, i as int));
            let next = hex_fields(g@.subrange(from as int, i + 1));
            assert(next.drop_last() == done);
            assert(next.last() == digits(g[i as int] as nat, 16));
            if i > from {
                assert(out@ == before + (join(done, COLON).push(COLON) + next.last()));
            } else {
                assert(join(done, COLON) == Seq::<u8>::empty());
                assert(out@ == before + next.last());
            }
        }
        i = i + 1;
    }
}

/// Whether `fields` are the fields `fs` of the text `t`.
spec fn are_fields(fields: Seq<Field>, t: Seq<u8>, fs: Seq<Seq<u8>>, base: nat) -> bool {
    &&& fields.len() == fs.len()
    &&& forall|j: int| 0 <= j < fs.len() ==> (#[trigger] fields[j]).is_field(t, fs[j], base)
}

/// The first field from `from` on that is filled, or that is empty, as
/// `filled` says.
fn first_with(
    fields: &Vec<Field>,
    from: usize,
    filled: bool,
    Ghost(t): Ghost<Seq<u8>>,
    Ghost(fs): Ghost<Seq<Seq<u8>>>,
) -> (k: usize)
    requires
        from <= fields@.len(),
        are_fields(fields@, t, fs, 16),
    ensures
        from <= k <= fields@.len(),
        k == (if filled {
            first_filled(fs, from as int)
        } else {
            first_empty(fs, from as int)
        }),
        forall|j: int| from <= j < k ==> ((#[trigger] fs[j]).len() > 0) != filled,
        k < fields@.len() ==> (fs[k as int].len() > 0) == filled,
{
    let mut k = from;
    while k < fields.len() && (fields[k].start < fields[k].end) != filled
        invariant
            from <= k <= fields@.len(),
            are_fields(fields@, t, fs, 16),
            first_filled(fs, from as int) == first_filled(fs, k as int) || !filled,
            first_empty(fs, from as int) == first_empty(fs, k as int) || filled,
            forall|j: int| from <= j < k ==> ((#[trigger] fs[j]).len() > 0) != filled,
        decreases fields@.len() - k,
    {
        assert(fields@[k as int].is_field(t, fs[k as int], 16));
        k = k + 1;
    }
    proof {
        if k < fields@.len() {
            assert(fields@[k as int].is_field(t, fs[k as int], 16));
        }
    }
    k
}

/// Appends the numbers of the fields from `from` up to `to`.
fn push_numbers(
    out: &mut Vec<u16>,
    fields: &Vec<Field>,
    from: usize,
    to: usize,
    Ghost(t): Ghost<Seq<u8>>,
    Ghost(fs): Ghost<Seq<Seq<u8>>>,
)
    requires
        from <= to <= fields@.len(),
        are_fields(fields@, t, fs, 16),
        forall|j: int| 0 <= j < fs.len() ==> digits_only(#[trigger] fs[j], 16, 4),
    ensures
        final(out)@.len() == old(out)@.len() + (to - from),
        forall|i: int| 0 <= i < old(out)@.len() ==> final(out)@[i] == old(out)@[i],
        forall|i: int|
            old(out)@.len() <= i < final(out)@.len() ==> (#[trigger] final(out)@[i]) as nat
                == number(fs[from + (i - old(out)@.len())], 16),
{
    let ghost before = out@;
    let mut i = from;
    while i < to
        invariant
            from <= i <= to <= fields@.len(),
            are_fields(fields@, t, fs, 16),
            forall|j: int| 0 <= j < fs.len() ==> digits_only(#[trigger] fs[j], 16, 4),
            out@.len() == before.len() + (i - from),
            forall|j: int| 0 <= j < before.len() ==> out@[j] == before[j],
            forall|j: int|
                before.len() <= j < out@.len() ==> (#[trigger] out@[j]) as nat == number(
                    fs[from + (j - before.len())],
                    16,
                ),
        decreases to - i,
    {
        proof {
            assert(fields@[i as int].is_field(t, fs[i as int], 16));
            assert(digits_only(fs[i as int], 16, 4));
            lemma_number_bound(fs[i as int], 16);
        }
        out.push(fields[i].value as u16);
        i = i + 1;
    }
}

/// The groups that `t` stands for as an IPv6 address.
fn parse_groups(t: &[u8]) -> (r: Option<Vec<u16>>)
    ensures
        match r {
            Some(g) => v6_groups(split(t@, COLON)) matches Some(d) && g@.len() == 8 && d.len() == 8
                && forall|i: int| 0 <= i < 8 ==> (#[trigger] g@[i]) as nat == d[i],
            None => v6_groups(split(t@, COLON)) is None,
        },
{
    let ghost fs = split(t@, COLON);
    let fields = match parse_fields(t, COLON, 16, 4) {
        Some(v) => v,
        None => {
            return None;
        },
    };
    let n = fields.len();
    let k = first_with(&fields, 0, false, Ghost(t@), Ghost(fs));
    let mut g: Vec<u16> = Vec::new();
    if k == n {
        if n != 8 {
            return None;
        }
        push_numbers(&mut g, &fields, 0, 8, Ghost(t@), Ghost(fs));
        assert(v6_groups(fs) == Some(numbers(fs, 16)));
        return Some(g);
    }
    let m = first_with(&fields, k, true, Ghost(t@), Ghost(fs));
    let e = first_with(&fields, m, false, Ghost(t@), Ghost(fs));
    let gap: usize = if k == 0 && m == n {
        3
    } else if k == 0 || m == n {
        2
    } else {
        1
    };
    if e != n || m - k != gap || k + (n - m) > 7 {
        return None;
    }
    let zeros = 8 - k - (n - m);
    push_numbers(&mut g, &fields, 0, k, Ghost(t@), Ghost(fs));
    let mut z: usize = 0;
    while z < zeros
        invariant
            z <= zeros,
            k <= fs.len(),
            g@.len() == k + z,
            forall|i: int| 0 <= i < k ==> (#[trigger] g@[i]) as nat == number(fs[i], 16),
            forall|i: int| k <= i < k + z ==> #[trigger] g@[i] == 0,
        decreases zeros - z,
    {
        g.push(0);
        z = z + 1;
    }
    let ghost mid = g@;
    push_numbers(&mut g, &fields, m, n, Ghost(t@), Ghost(fs));
    proof {
        let d = numbers(fs.take(k as int), 16) + Seq::new(zeros as nat, |i: int| 0nat) + numbers(
            fs.skip(m as int),
            16,
        );
        assert(v6_groups(fs) == Some(d));
        assert forall|i: int| 0 <= i < 8 implies (#[trigger] g@[i]) as nat == d[i] by {
            if i < k + zeros {
                assert(g@[i] == mid[i]);
            }
        }
    }
    Some(g)
}

/// Whether the field is an octet as text, and which.
fn octet_of(t: &[u8], field: &Field, Ghost(f): Ghost<Seq<u8>>) -> (r: Option<u8>)
    requires
        field.is_field(t@, f, 10),
        digits_only(f, 10, 3),
    ensures
        r is Some <==> is_octet_text(f),
        r matches Some(v) ==> v == number(f, 10),
{
    let len = field.end - field.start;
    if len == 0 || field.value > 255 {
        return None;
    }
    if len > 1 && t[field.start] == 48 {
        assert(f[0] == t@[field.start as int]);
        return None;
    }
    assert(len > 1 ==> f[0] == t@[field.start as int]);
    Some(field.value as u8)
}

/// The host that `t` stands for as an IPv4 address.
fn parse_octets(t: &[u8]) -> (r: Option<Host>)
    ensures
        r == (match v4_octets(split(t@, DOT)) {
            Some(g) => Some(Host::V4(g[0] as u8, g[1] as u8, g[2] as u8, g[3] as u8)),
            None => None,
        }),
{
    let ghost fs = split(t@, DOT);
    let fields = match parse_fields(t, DOT, 10, 3) {
        Some(v) => v,
        None => {
            assert(!(forall|j: int| 0 <= j < 4 ==> is_octet_text(#[trigger] fs[j])) || fs.len()
                != 4);
            return None;
        },
    };
    if fields.len() != 4 {
        return None;
    }
    proof {
        assert(fields@[0].is_field(t@, fs[0], 10));
        assert(fields@[1].is_field(t@, fs[1], 10));
        assert(fields@[2].is_field(t@, fs[2], 10));
        assert(fields@[3].is_field(t@, fs[3], 10));
        assert(digits_only(fs[0], 10, 3));
        assert(digits_only(fs[1], 10, 3));
        assert(digits_only(fs[2], 10, 3));
        assert(digits_only(fs[3], 10, 3));
    }
    let a = octet_of(t, &fields[0], Ghost(fs[0]));
    let b = octet_of(t, &fields[1], Ghost(fs[1]));
    let c = octet_of(t, &fields[2], Ghost(fs[2]));
    let d = octet_of(t, &fields[3], Ghost(fs[3]));
    match (a, b, c, d) {
        (Some(a), Some(b), Some(c), Some(d)) => {
            assert(v4_octets(fs) == Some(numbers(fs, 10)));
            Some(Host::V4(a, b, c, d))
        },
        _ => None,
    }
}

/// Whether `t` is the text `local`.
fn is_local(t: &[u8]) -> (r: bool)
    ensures
        r == (t@ == local_text()),
{
    let r = t.len() == 5 && t[0] == 108 && t[1] == 111 && t[2] == 99 && t[3] == 97 && t[4] == 108;
    proof {
        if r {
            assert(t@ =~= local_text());
        }
    }
    r
}

} // verus!
