//! Numbers as digits, and texts as fields between separators.

use vstd::prelude::*;

verus! {

/// The character of the digit `d`: `0` to `9`, then `a` to `f`.
pub open spec fn digit_char(d: nat) -> u8 {
    if d < 10 {
        (48 + d) as u8
    } else {
        (87 + d) as u8
    }
}

/// Whether `b` is the character of a digit below `base`. Above nine, a
/// digit is a letter from `a` on, small or capital.
pub open spec fn is_digit(b: u8, base: nat) -> bool {
    (48 <= b <= 57 && b - 48 < base) || (97 <= b <= 102 && b - 87 < base) || (65 <= b <= 70 && b
        - 55 < base)
}

/// The digit that the character `b` stands for.
pub open spec fn digit_value(b: u8) -> nat {
    if b <= 57 {
        (b - 48) as nat
    } else if b <= 70 {
        (b - 55) as nat
    } else {
        (b - 87) as nat
    }
}

/// The digits of `n` to the base `base`, which is ten or sixteen: the most
/// significant first, without leading zeros; `0` is the one digit `0`.
pub open spec fn digits(n: nat, base: nat) -> Seq<u8>
    decreases n,
{
    if n < base {
        seq![digit_char(n)]
    } else if base == 10 {
        digits(n / 10, base).push(digit_char(n % 10))
    } else if base == 16 {
        digits(n / 16, base).push(digit_char(n % 16))
    } else {
        Seq::empty()
    }
}

/// The last `width` decimal digits of `n`, with leading zeros.
pub open spec fn padded(n: nat, width: nat) -> Seq<u8>
    decreases width,
{
    if width == 0 {
        Seq::empty()
    } else {
        padded(n / 10, (width - 1) as nat).push(digit_char(n % 10))
    }
}

/// The number that the digits `ds` spell to the base `base`.
pub open spec fn number(ds: Seq<u8>, base: nat) -> nat
    decreases ds.len(),
{
    if ds.len() == 0 {
        0
    } else {
        number(ds.drop_last(), base) * base + digit_value(ds.last())
    }
}

/// Ten to the power `e`.
pub open spec fn pow10(e: nat) -> nat
    decreases e,
{
    if e == 0 {
        1
    } else {
        10 * pow10((e - 1) as nat)
    }
}

/// The fields of `s`: what stands between one `sep` and the next. A text
/// without `sep` is one field, and the empty text is one empty field.
pub open spec fn split(s: Seq<u8>, sep: u8) -> Seq<Seq<u8>>
    decreases s.len(),
{
    if s.len() == 0 {
        seq![Seq::empty()]
    } else {
        let before = split(s.drop_last(), sep);
        if s.last() == sep {
            before.push(Seq::empty())
        } else {
            before.update(before.len() - 1, before.last().push(s.last()))
        }
    }
}

/// The fields `fs` with one `sep` between each two of them.
pub open spec fn join(fs: Seq<Seq<u8>>, sep: u8) -> Seq<u8>
    decreases fs.len(),
{
    if fs.len() == 0 {
        Seq::empty()
    } else if fs.len() == 1 {
        fs[0]
    } else {
        join(fs.drop_last(), sep).push(sep) + fs.last()
    }
}

/// Whether `sep` does not occur in `s`.
pub open spec fn free_of(s: Seq<u8>, sep: u8) -> bool {
    forall|i: int| 0 <= i < s.len() ==> s[i] != sep
}

/// Whether `f` is made of at most `max` digits below `base`.
pub open spec fn digits_only(f: Seq<u8>, base: nat, max: nat) -> bool {
    f.len() <= max && forall|i: int| 0 <= i < f.len() ==> is_digit(#[trigger] f[i], base)
}

/// Whether every field of `t` is made of at most `max` digits below `base`.
pub open spec fn fields_of_digits(t: Seq<u8>, sep: u8, base: nat, max: nat) -> bool {
    forall|j: int| 0 <= j < split(t, sep).len() ==> digits_only(#[trigger] split(t, sep)[j], base, max)
}

/// A field of digits in a text: where it starts, where it ends, and the
/// number that it spells.
#[derive(Clone, Copy)]
pub struct Field {
    pub start: usize,
    pub end: usize,
    pub value: u32,
}

impl Field {
    /// Whether this is the field `field` of the text `t`.
    pub open spec fn is_field(self, t: Seq<u8>, field: Seq<u8>, base: nat) -> bool {
        &&& self.start <= self.end <= t.len()
        &&& field == t.subrange(self.start as int, self.end as int)
        &&& self.value == number(field, base)
    }
}

/// The digits of a number are digits, at least one of them, and spell it.
pub proof fn lemma_digits(n: nat, base: nat)
    requires
        base == 10 || base == 16,
    ensures
        digits(n, base).len() >= 1,
        forall|i: int| 0 <= i < digits(n, base).len() ==> is_digit(#[trigger] digits(n, base)[i], base),
        number(digits(n, base), base) == n,
        n > 0 ==> digits(n, base)[0] != 48,
    decreases n,
{
    if n < base {
        assert(digits(n, base) == seq![digit_char(n)]);
        assert(digits(n, base).drop_last() == Seq::<u8>::empty());
        assert(number(Seq::<u8>::empty(), base) == 0);
    } else {
        lemma_digits(n / base, base);
        let init = digits(n / base, base);
        assert(digits(n, base).drop_last() == init);
        assert(digits(n, base)[0] == init[0]);
        assert(n == (n / base) * base + n % base) by {
            if base == 10 {
                assert(n == (n / 10) * 10 + n % 10);
            } else {
                assert(n == (n / 16) * 16 + n % 16);
            }
        }
    }
}

/// A number below a power of the base has at most that many digits.
pub proof fn lemma_digits_len(n: nat, base: nat)
    requires
        base == 10 || base == 16,
    ensures
        n < base ==> digits(n, base).len() == 1,
        n < base * base ==> digits(n, base).len() <= 2,
        n < base * base * base ==> digits(n, base).len() <= 3,
        n < base * base * base * base ==> digits(n, base).len() <= 4,
{
    reveal_with_fuel(digits, 5);
    if base == 10 {
        assert(n < 10000 ==> n / 10 < 1000 && n / 10 / 10 < 100 && n / 10 / 10 / 10 < 10);
    } else {
        assert(n < 65536 ==> n / 16 < 4096 && n / 16 / 16 < 256 && n / 16 / 16 / 16 < 16);
    }
}

/// Padding yields `width` decimal digits, which spell the number where it
/// is below ten to the power `width`.
pub proof fn lemma_padded(n: nat, width: nat)
    ensures
        padded(n, width).len() == width,
        forall|i: int| 0 <= i < width ==> is_digit(#[trigger] padded(n, width)[i], 10),
        n < pow10(width) ==> number(padded(n, width), 10) == n,
    decreases width,
{
    if width > 0 {
        lemma_padded(n / 10, (width - 1) as nat);
        assert(padded(n, width).drop_last() == padded(n / 10, (width - 1) as nat));
        assert(n == (n / 10) * 10 + n % 10);
    }
}

/// Decimal digits are the padding of the number that they spell.
pub proof fn lemma_padded_of_number(ds: Seq<u8>)
    requires
        forall|i: int| 0 <= i < ds.len() ==> is_digit(#[trigger] ds[i], 10),
    ensures
        padded(number(ds, 10), ds.len()) == ds,
        number(ds, 10) < pow10(ds.len()),
    decreases ds.len(),
{
    if ds.len() > 0 {
        let init = ds.drop_last();
        lemma_padded_of_number(init);
        assert(is_digit(ds[ds.len() - 1], 10));
        let n = number(ds, 10);
        assert(n == number(init, 10) * 10 + digit_value(ds.last()));
        assert(n / 10 == number(init, 10));
        assert(n % 10 == digit_value(ds.last()));
        assert(digit_char(n % 10) == ds.last());
        assert(init.push(ds.last()) == ds);
    } else {
        assert(padded(0, 0) == ds);
    }
}

/// Four digits to a base of at most sixteen spell a number below 65536.
pub proof fn lemma_number_bound(ds: Seq<u8>, base: nat)
    requires
        base == 10 || base == 16,
        digits_only(ds, base, 4),
    ensures
        number(ds, base) < 65536,
        ds.len() <= 3 ==> number(ds, base) < 4096,
        ds.len() <= 2 ==> number(ds, base) < 256,
        ds.len() <= 1 ==> number(ds, base) < 16,
        ds.len() == 0 ==> number(ds, base) == 0,
    decreases ds.len(),
{
    if ds.len() > 0 {
        lemma_number_bound(ds.drop_last(), base);
        assert(is_digit(ds[ds.len() - 1], base));
        let init = number(ds.drop_last(), base);
        if base == 10 {
            assert(number(ds, base) == init * 10 + digit_value(ds.last()));
        } else {
            assert(number(ds, base) == init * 16 + digit_value(ds.last()));
        }
    }
}

/// A text always has at least one field.
pub proof fn lemma_split_nonempty(s: Seq<u8>, sep: u8)
    ensures
        split(s, sep).len() >= 1,
    decreases s.len(),
{
    if s.len() > 0 {
        lemma_split_nonempty(s.drop_last(), sep);
    }
}

/// Appending what holds no separator lengthens the last field.
pub proof fn lemma_split_append(x: Seq<u8>, y: Seq<u8>, sep: u8)
    requires
        free_of(y, sep),
    ensures
        split(x, sep).len() >= 1,
        split(x + y, sep) == split(x, sep).update(
            split(x, sep).len() - 1,
            split(x, sep).last() + y,
        ),
    decreases y.len(),
{
    lemma_split_nonempty(x, sep);
    let fx = split(x, sep);
    if y.len() == 0 {
        assert(x + y == x);
        assert(fx.last() + y == fx.last());
        assert(fx.update(fx.len() - 1, fx.last()) == fx);
    } else {
        let y0 = y.drop_last();
        lemma_split_append(x, y0, sep);
        assert((x + y).drop_last() == x + y0);
        assert((x + y).last() == y.last());
        assert(fx.last() + y == (fx.last() + y0).push(y.last()));
        let mid = fx.update(fx.len() - 1, fx.last() + y0);
        assert(mid.update(mid.len() - 1, mid.last().push(y.last())) == fx.update(
            fx.len() - 1,
            fx.last() + y,
        ));
    }
}

/// Splitting undoes joining, where no field holds the separator.
pub proof fn lemma_split_join(fs: Seq<Seq<u8>>, sep: u8)
    requires
        fs.len() >= 1,
        forall|j: int| 0 <= j < fs.len() ==> free_of(#[trigger] fs[j], sep),
    ensures
        split(join(fs, sep), sep) == fs,
    decreases fs.len(),
{
    if fs.len() == 1 {
        lemma_split_append(Seq::empty(), fs[0], sep);
        assert(Seq::<u8>::empty() + fs[0] == fs[0]);
        assert(split(Seq::<u8>::empty(), sep) == seq![Seq::<u8>::empty()]);
        assert(seq![Seq::<u8>::empty()].update(0, Seq::<u8>::empty() + fs[0]) == fs);
    } else {
        let init = fs.drop_last();
        lemma_split_join(init, sep);
        let head = join(init, sep).push(sep);
        assert(head.drop_last() == join(init, sep));
        assert(split(head, sep) == init.push(Seq::empty()));
        lemma_split_append(head, fs.last(), sep);
        assert(Seq::<u8>::empty() + fs.last() == fs.last());
        assert(init.push(Seq::empty()).update(init.len() as int, fs.last()) == fs);
    }
}

/// The fields of the first `i` characters are the fields of the whole text
/// up to there: all but the last of them are fields of the whole, and the
/// last is the beginning of one.
pub proof fn lemma_split_prefix(t: Seq<u8>, sep: u8, i: int)
    requires
        0 <= i <= t.len(),
    ensures
        ({
            let fp = split(t.take(i), sep);
            let ff = split(t, sep);
            &&& 1 <= fp.len() <= ff.len()
            &&& forall|j: int| 0 <= j < fp.len() - 1 ==> fp[j] == ff[j]
            &&& fp.last().len() <= ff[fp.len() - 1].len()
            &&& fp.last() == ff[fp.len() - 1].take(fp.last().len() as int)
        }),
    decreases t.len() - i,
{
    lemma_split_nonempty(t.take(i), sep);
    let fp = split(t.take(i), sep);
    let ff = split(t, sep);
    if i == t.len() {
        assert(t.take(i) == t);
        assert(ff.last().take(ff.last().len() as int) == ff.last());
    } else {
        lemma_split_prefix(t, sep, i + 1);
        let fq = split(t.take(i + 1), sep);
        assert(t.take(i + 1).drop_last() == t.take(i));
        assert(t.take(i + 1).last() == t[i]);
        if t[i] == sep {
            assert(fq == fp.push(Seq::empty()));
            assert(fp.last() == fq[fp.len() - 1]);
            assert(ff[fp.len() - 1].take(fp.last().len() as int) == ff[fp.len() - 1]);
        } else {
            assert(fq == fp.update(fp.len() - 1, fp.last().push(t[i])));
            let whole = ff[fp.len() - 1];
            let longer = fp.last().push(t[i]);
            assert(longer == whole.take(longer.len() as int));
            assert(fp.last() == whole.take(fp.last().len() as int)) by {
                assert(fp.last() == longer.take(fp.last().len() as int));
            }
        }
    }
}

/// Joining two rows of fields, one after the other, puts one separator
/// between what each of them joins to.
pub proof fn lemma_join_concat(x: Seq<Seq<u8>>, y: Seq<Seq<u8>>, sep: u8)
    requires
        x.len() >= 1,
        y.len() >= 1,
    ensures
        join(x + y, sep) == join(x, sep).push(sep) + join(y, sep),
    decreases y.len(),
{
    assert((x + y).drop_last() == x + y.drop_last());
    assert((x + y).last() == y.last());
    if y.len() == 1 {
        assert(x + y.drop_last() == x);
    } else {
        lemma_join_concat(x, y.drop_last(), sep);
        let a = join(x, sep).push(sep);
        let b = join(y.drop_last(), sep);
        assert((a + b).push(sep) + y.last() == a + (b.push(sep) + y.last()));
    }
}

/// What fields of digits join to is made of digits and separators; with two
/// fields or more, a separator is among them.
pub proof fn lemma_join_chars(fs: Seq<Seq<u8>>, sep: u8, base: nat, max: nat)
    requires
        forall|j: int| 0 <= j < fs.len() ==> digits_only(#[trigger] fs[j], base, max),
    ensures
        forall|i: int|
            0 <= i < join(fs, sep).len() ==> join(fs, sep)[i] == sep || is_digit(
                #[trigger] join(fs, sep)[i],
                base,
            ),
        fs.len() >= 2 ==> join(fs, sep).contains(sep),
    decreases fs.len(),
{
    if fs.len() >= 2 {
        let init = join(fs.drop_last(), sep);
        lemma_join_chars(fs.drop_last(), sep, base, max);
        assert forall|i: int| 0 <= i < join(fs, sep).len() implies join(fs, sep)[i] == sep
            || is_digit(#[trigger] join(fs, sep)[i], base) by {
            if i < init.len() {
                assert(join(fs, sep)[i] == init[i]);
            } else if i > init.len() {
                assert(join(fs, sep)[i] == fs.last()[i - init.len() - 1]);
            }
        }
        assert(join(fs, sep)[init.len() as int] == sep);
    }
}

/// Joining undoes splitting.
pub proof fn lemma_join_split(t: Seq<u8>, sep: u8)
    ensures
        join(split(t, sep), sep) == t,
    decreases t.len(),
{
    if t.len() == 0 {
        assert(split(t, sep) == seq![Seq::<u8>::empty()]);
        assert(join(split(t, sep), sep) =~= t);
    } else {
        let init = t.drop_last();
        let before = split(init, sep);
        lemma_join_split(init, sep);
        lemma_split_nonempty(init, sep);
        if t.last() == sep {
            let after = before.push(Seq::empty());
            assert(after.drop_last() == before);
            assert(join(after, sep) =~= join(before, sep).push(sep));
            assert(init.push(sep) =~= t);
        } else {
            let longer = before.last().push(t.last());
            let after = before.update(before.len() - 1, longer);
            if before.len() == 1 {
                assert(join(after, sep) =~= join(before, sep).push(t.last()));
            } else {
                assert(after.drop_last() == before.drop_last());
                assert(join(after, sep) =~= join(before, sep).push(t.last()));
            }
            assert(init.push(t.last()) =~= t);
        }
    }
}

/// The lengths of the fields from `from` up to `to`, together.
pub open spec fn lengths(fs: Seq<Seq<u8>>, from: int, to: int) -> int
    decreases to - from,
{
    if from >= to {
        0
    } else {
        lengths(fs, from, to - 1) + fs[to - 1].len()
    }
}

/// What fields join to is as long as the fields together and one separator
/// between each two of them.
pub proof fn lemma_join_lengths(fs: Seq<Seq<u8>>, sep: u8)
    requires
        fs.len() >= 1,
    ensures
        join(fs, sep).len() == lengths(fs, 0, fs.len() as int) + fs.len() - 1,
    decreases fs.len(),
{
    if fs.len() > 1 {
        lemma_join_lengths(fs.drop_last(), sep);
        lemma_lengths_same(fs, fs.drop_last(), 0, fs.len() - 1);
    } else {
        assert(lengths(fs, 0, 0) == 0);
    }
}

/// The lengths of a row of fields depend on these fields alone.
pub proof fn lemma_lengths_same(a: Seq<Seq<u8>>, b: Seq<Seq<u8>>, from: int, to: int)
    requires
        0 <= from <= to <= a.len(),
        to <= b.len(),
        forall|j: int| from <= j < to ==> a[j] == b[j],
    ensures
        lengths(a, from, to) == lengths(b, from, to),
    decreases to - from,
{
    if from < to {
        lemma_lengths_same(a, b, from, to - 1);
    }
}

/// The lengths of a row of fields of at most `max` characters are at most
/// `max` for each field; the lengths of two rows, one after the other, add
/// up.
pub proof fn lemma_lengths_bound(fs: Seq<Seq<u8>>, from: int, mid: int, to: int, max: int)
    requires
        0 <= from <= mid <= to <= fs.len(),
        0 <= max <= 4,
        forall|j: int| mid <= j < to ==> (#[trigger] fs[j]).len() <= max,
    ensures
        lengths(fs, from, to) <= lengths(fs, from, mid) + max * (to - mid),
        lengths(fs, from, to) >= lengths(fs, from, mid),
    decreases to - mid,
{
    if mid < to {
        lemma_lengths_bound(fs, from, mid, to - 1, max);
        assert(max * (to - mid) == max * (to - 1 - mid) + max) by (nonlinear_arith);
    } else {
        assert(max * (to - mid) == 0) by (nonlinear_arith)
            requires
                to == mid,
        ;
    }
}

/// A text whose fields are digits is made of digits and separators.
pub proof fn lemma_fields_chars(t: Seq<u8>, sep: u8, base: nat, max: nat)
    requires
        fields_of_digits(t, sep, base, max),
    ensures
        forall|i: int| 0 <= i < t.len() ==> t[i] == sep || is_digit(#[trigger] t[i], base),
    decreases t.len(),
{
    if t.len() > 0 {
        let init = t.drop_last();
        let fi = split(init, sep);
        let ft = split(t, sep);
        lemma_split_prefix(t, sep, t.len() - 1);
        assert(t.take(t.len() - 1) == init);
        assert forall|j: int| 0 <= j < fi.len() implies digits_only(#[trigger] fi[j], base, max) by {
            assert(digits_only(ft[j], base, max));
            if j == fi.len() - 1 {
                assert forall|k: int| 0 <= k < fi[j].len() implies is_digit(
                    #[trigger] fi[j][k],
                    base,
                ) by {
                    assert(fi[j][k] == ft[j][k]);
                }
            }
        }
        lemma_fields_chars(init, sep, base, max);
        if t.last() != sep {
            assert(ft == fi.update(fi.len() - 1, fi.last().push(t.last())));
            let last = ft[fi.len() - 1];
            assert(digits_only(last, base, max));
            assert(last[last.len() - 1] == t.last());
        }
        assert forall|i: int| 0 <= i < t.len() implies t[i] == sep || is_digit(
            #[trigger] t[i],
            base,
        ) by {
            if i < t.len() - 1 {
                assert(t[i] == init[i]);
            }
        }
    }
}

/// The character of a digit below sixteen.
pub(crate) fn digit_byte(d: u32) -> (b: u8)
    requires
        d < 16,
    ensures
        b == digit_char(d as nat),
{
    if d < 10 {
        48 + d as u8
    } else {
        87 + d as u8
    }
}

/// The digit below `base` that the character `b` stands for, if it stands
/// for one.
pub(crate) fn digit_of(b: u8, base: u32) -> (r: Option<u32>)
    requires
        base == 10 || base == 16,
    ensures
        match r {
            Some(d) => is_digit(b, base as nat) && d == digit_value(b) && d < base,
            None => !is_digit(b, base as nat),
        },
{
    if 48 <= b && b <= 57 {
        Some((b - 48) as u32)
    } else if base == 16 && 97 <= b && b <= 102 {
        Some((b - 87) as u32)
    } else if base == 16 && 65 <= b && b <= 70 {
        Some((b - 55) as u32)
    } else {
        None
    }
}

/// Appends the digits of `n` to the base `base`.
pub(crate) fn push_digits(out: &mut Vec<u8>, n: u32, base: u32)
    requires
        base == 10 || base == 16,
    ensures
        final(out)@ == old(out)@ + digits(n as nat, base as nat),
    decreases n,
{
    if n >= base {
        push_digits(out, n / base, base);
    }
    out.push(digit_byte(n % base));
    assert(final(out)@ == old(out)@ + digits(n as nat, base as nat));
}

/// Appends the last `width` decimal digits of `n`, with leading zeros.
pub(crate) fn push_padded(out: &mut Vec<u8>, n: u32, width: u32)
    ensures
        final(out)@ == old(out)@ + padded(n as nat, width as nat),
    decreases width,
{
    if width > 0 {
        push_padded(out, n / 10, width - 1);
        out.push(digit_byte(n % 10));
    }
    assert(final(out)@ == old(out)@ + padded(n as nat, width as nat));
}

/// The number that the `width` decimal digits of `t` from `from` on spell, if
/// they are digits.
pub(crate) fn parse_padded(t: &[u8], from: usize, width: usize) -> (r: Option<u64>)
    requires
        from + width <= t@.len(),
        width <= 10,
    ensures
        r is Some <==> digits_only(t@.subrange(from as int, from + width), 10, width as nat),
        r matches Some(v) ==> v == number(t@.subrange(from as int, from + width), 10),
{
    let mut v: u64 = 0;
    let mut i: usize = 0;
    let len = t.len();
    let ghost whole = t@.subrange(from as int, from + width);
    assert(t@.subrange(from as int, from as int) == Seq::<u8>::empty());
    while i < width
        invariant
            i <= width <= 10,
            from + width <= len == t@.len(),
            whole == t@.subrange(from as int, from + width),
            v == number(t@.subrange(from as int, from + i), 10),
            forall|j: int| from <= j < from + i ==> is_digit(#[trigger] t@[j], 10),
        decreases width - i,
    {
        let d = match digit_of(t[from + i], 10) {
            Some(d) => d,
            None => {
                assert(whole[i as int] == t@[from + i]);
                return None;
            },
        };
        proof {
            let done = t@.subrange(from as int, from + i);
            let next = t@.subrange(from as int, from + i + 1);
            assert(next.drop_last() == done);
            assert(forall|j: int| 0 <= j < done.len() ==> done[j] == t@[from + j]);
            lemma_padded_of_number(done);
            reveal_with_fuel(pow10, 11);
            assert(pow10(i as nat) <= 1_000_000_000) by {
                assert(i == 0 || i == 1 || i == 2 || i == 3 || i == 4 || i == 5 || i == 6 || i == 7
                    || i == 8 || i == 9);
            }
        }
        v = v * 10 + d as u64;
        i = i + 1;
    }
    assert forall|j: int| 0 <= j < whole.len() implies is_digit(#[trigger] whole[j], 10) by {
        assert(whole[j] == t@[from + j]);
    }
    Some(v)
}

/// The fields of `t` between the separators `sep`, where each of them is
/// made of at most `max` digits below `base`.
pub(crate) fn parse_fields(t: &[u8], sep: u8, base: u32, max: usize) -> (r: Option<Vec<Field>>)
    requires
        base == 10 || base == 16,
        max <= 4,
        !is_digit(sep, base as nat),
    ensures
        r is Some <==> fields_of_digits(t@, sep, base as nat, max as nat),
        r matches Some(v) ==> {
            &&& v@.len() == split(t@, sep).len()
            &&& forall|j: int|
                0 <= j < v@.len() ==> (#[trigger] v@[j]).is_field(t@, split(t@, sep)[j], base as nat)
        },
{
    let mut closed: Vec<Field> = Vec::new();
    let mut cur: u32 = 0;
    let mut start: usize = 0;
    let mut i: usize = 0;
    assert(t@.take(0) == Seq::<u8>::empty());
    assert(t@.subrange(0, 0) == Seq::<u8>::empty());
    while i < t.len()
        invariant
            base == 10 || base == 16,
            max <= 4,
            !is_digit(sep, base as nat),
            start <= i <= t.len(),
            closed@.len() + 1 == split(t@.take(i as int), sep).len(),
            forall|j: int|
                0 <= j < closed@.len() ==> digits_only(
                    #[trigger] split(t@.take(i as int), sep)[j],
                    base as nat,
                    max as nat,
                ),
            forall|j: int|
                0 <= j < closed@.len() ==> (#[trigger] closed@[j]).is_field(
                    t@,
                    split(t@.take(i as int), sep)[j],
                    base as nat,
                ),
            digits_only(split(t@.take(i as int), sep).last(), base as nat, max as nat),
            split(t@.take(i as int), sep).last() == t@.subrange(start as int, i as int),
            cur == number(split(t@.take(i as int), sep).last(), base as nat),
        decreases t.len() - i,
    {
        let b = t[i];
        let ghost fp = split(t@.take(i as int), sep);
        let ghost fq = split(t@.take(i + 1), sep);
        proof {
            assert(t@.take(i + 1).drop_last() == t@.take(i as int));
            assert(t@.take(i + 1).last() == b);
            lemma_number_bound(fp.last(), base as nat);
        }
        if b == sep {
            closed.push(Field { start, end: i, value: cur });
            cur = 0;
            start = i + 1;
            proof {
                assert(fq == fp.push(Seq::empty()));
                assert(fq.last() == Seq::<u8>::empty());
                assert(t@.subrange(i + 1, i + 1) == Seq::<u8>::empty());
                assert forall|j: int| 0 <= j < closed@.len() implies digits_only(
                    #[trigger] fq[j],
                    base as nat,
                    max as nat,
                ) && closed@[j].is_field(t@, fq[j], base as nat) by {
                    assert(fq[j] == fp[j]);
                }
            }
        } else {
            let d = digit_of(b, base);
            if d.is_none() || i - start >= max {
                proof {
                    let bad = fp.last().push(b);
                    assert(fq == fp.update(fp.len() - 1, bad));
                    assert(bad[bad.len() - 1] == b);
                    assert(!digits_only(bad, base as nat, max as nat));
                    lemma_split_prefix(t@, sep, i + 1);
                    let whole = split(t@, sep)[fq.len() - 1];
                    assert(bad == whole.take(bad.len() as int));
                    assert(whole[bad.len() - 1] == b);
                    assert(!digits_only(whole, base as nat, max as nat));
                }
                return None;
            }
            assert(cur * base <= 65535 * 16) by (nonlinear_arith)
                requires
                    cur <= 65535,
                    base <= 16,
            ;
            cur = cur * base + d.unwrap();
            proof {
                let longer = fp.last().push(b);
                assert(fq == fp.update(fp.len() - 1, longer));
                assert(longer.drop_last() == fp.last());
                assert(longer == t@.subrange(start as int, i + 1));
                assert forall|j: int| 0 <= j < closed@.len() implies digits_only(
                    #[trigger] fq[j],
                    base as nat,
                    max as nat,
                ) && closed@[j].is_field(t@, fq[j], base as nat) by {
                    assert(fq[j] == fp[j]);
                }
            }
        }
        i = i + 1;
    }
    proof {
        assert(t@.take(i as int) == t@);
    }
    closed.push(Field { start, end: i, value: cur });
    Some(closed)
}

/// Whether `b` occurs in `t`.
pub(crate) fn contains_byte(t: &[u8], b: u8) -> (r: bool)
    ensures
        r == t@.contains(b),
{
    let mut i: usize = 0;
    while i < t.len()
        invariant
            i <= t.len(),
            forall|j: int| 0 <= j < i ==> t@[j] != b,
        decreases t.len() - i,
    {
        if t[i] == b {
            return true;
        }
        i = i + 1;
    }
    false
}

} // verus!
