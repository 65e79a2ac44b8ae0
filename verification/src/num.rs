//! Canonical decimal text for fixed-point coordinates.
//!
//! A coordinate is an `i64` counting thousandths of a canvas unit, so the wire
//! text `1.5` stands for the value `1500`. `milli_chars` gives the canonical
//! spelling the encoder writes: no sign on zero, no leading zeros, and a
//! fractional part with no trailing zeros beyond the `.0` that a whole value
//! keeps. The parser reads more: `num_shape` admits every decimal a JSON
//! number writer produces short of exponents — an optional sign, an integer
//! part without leading zeros, and any nonempty run of fraction digits, of
//! which the first three are the thousandths and the rest are ignored.

use vstd::prelude::*;

verus! {

/// Largest coordinate magnitude, in thousandths, that the wire grammar
/// carries: twelve integer digits, and the three fraction digits that the
/// thousandths precision keeps.
pub const MAX_COORD_MILLI: i64 = 999_999_999_999_999;

pub open spec fn digit_char(d: int) -> char {
    ((48 + d) as u32) as char
}

pub open spec fn is_digit(c: char) -> bool {
    48 <= c as u32 <= 57
}

pub open spec fn digit_val(c: char) -> int {
    c as u32 - 48
}

/// Canonical decimal digits of `n`, most significant first.
pub open spec fn dec_digits(n: nat) -> Seq<char>
    decreases n,
{
    if n < 10 {
        seq![digit_char(n as int)]
    } else {
        dec_digits(n / 10).push(digit_char((n % 10) as int))
    }
}

/// The number a digit sequence denotes, most significant digit first.
pub open spec fn seq_val(ds: Seq<char>) -> int
    decreases ds.len(),
{
    if ds.len() == 0 {
        0
    } else {
        seq_val(ds.drop_last()) * 10 + digit_val(ds.last())
    }
}

pub open spec fn all_digits(ds: Seq<char>) -> bool {
    forall|i: int| 0 <= i < ds.len() ==> is_digit(#[trigger] ds[i])
}

pub open spec fn pow10(k: nat) -> nat
    decreases k,
{
    if k == 0 {
        1
    } else {
        10 * pow10((k - 1) as nat)
    }
}

/// Canonical text of a fractional part of `f` thousandths: one to three
/// digits, trailing zeros dropped. Meaningful for `1 <= f <= 999`.
pub open spec fn frac_digits(f: int) -> Seq<char> {
    if f % 10 == 0 {
        if (f / 10) % 10 == 0 {
            seq![digit_char(f / 100)]
        } else {
            seq![digit_char(f / 100), digit_char((f / 10) % 10)]
        }
    } else {
        seq![digit_char(f / 100), digit_char((f / 10) % 10), digit_char(f % 10)]
    }
}

/// Canonical text of a nonnegative coordinate of `a` thousandths. A whole
/// value keeps a `.0`, as a float encoder spells it.
pub open spec fn milli_mag_chars(a: int) -> Seq<char> {
    dec_digits((a / 1000) as nat) + seq!['.'] + frac_digits(a % 1000)
}

/// Canonical text of a coordinate of `m` thousandths.
pub open spec fn milli_chars(m: int) -> Seq<char> {
    if m < 0 {
        seq!['-'] + milli_mag_chars(-m)
    } else {
        milli_mag_chars(m)
    }
}

/// Two characters with the same code point are the same character.
pub proof fn lemma_char_code_inj(a: char, b: char)
    requires
        a as u32 == b as u32,
    ensures
        a == b,
{
    vstd::utf8::char_u32_cast(a, a as u32);
    vstd::utf8::char_u32_cast(b, b as u32);
}

pub proof fn lemma_digit_char_props(d: int)
    requires
        0 <= d < 10,
    ensures
        is_digit(digit_char(d)),
        digit_val(digit_char(d)) == d,
{
}

/// A digit character is the canonical character of its value.
pub proof fn lemma_digit_char_of_val(c: char)
    requires
        is_digit(c),
    ensures
        0 <= digit_val(c) < 10,
        digit_char(digit_val(c)) == c,
{
    vstd::utf8::char_u32_cast(c, c as u32);
}

pub proof fn lemma_dec_digits(n: nat)
    ensures
        dec_digits(n).len() >= 1,
        all_digits(dec_digits(n)),
        (dec_digits(n)[0] == '0') <==> (n == 0),
        seq_val(dec_digits(n)) == n,
        n < pow10(dec_digits(n).len()),
    decreases n,
{
    if n < 10 {
        assert(dec_digits(n) =~= seq![digit_char(n as int)]);
        assert(dec_digits(n).drop_last().len() == 0);
        assert(seq_val(dec_digits(n).drop_last()) == 0);
        assert(('0' as u32) == 48);
        assert(pow10(0) == 1);
        assert(pow10(1) == 10 * pow10(0));
    } else {
        lemma_dec_digits(n / 10);
        let pre = dec_digits(n / 10);
        let ds = dec_digits(n);
        assert(ds =~= pre.push(digit_char((n % 10) as int)));
        assert(ds.drop_last() =~= pre);
        assert(seq_val(ds) == seq_val(pre) * 10 + digit_val(digit_char((n % 10) as int)));
        assert(seq_val(ds) == (n / 10) * 10 + n % 10);
        assert(pow10(ds.len()) == 10 * pow10(pre.len()));
    }
}

/// A nonempty digit string with no leading zero is the canonical spelling of
/// its value.
pub proof fn lemma_canonical_digits(ds: Seq<char>)
    requires
        ds.len() >= 1,
        all_digits(ds),
        ds.len() == 1 || ds[0] != '0',
    ensures
        seq_val(ds) >= 0,
        dec_digits(seq_val(ds) as nat) == ds,
    decreases ds.len(),
{
    if ds.len() == 1 {
        assert(is_digit(ds[0]));
        let d = digit_val(ds[0]);
        assert(0 <= d < 10);
        assert(ds.drop_last().len() == 0);
        assert(seq_val(ds.drop_last()) == 0);
        assert(seq_val(ds) == d);
        assert(dec_digits(d as nat) =~= seq![digit_char(d)]);
        lemma_digit_char_of_val(ds[0]);
        assert(digit_char(d) == ds[0]);
        assert(dec_digits(seq_val(ds) as nat) =~= ds);
    } else {
        let pre = ds.drop_last();
        assert(pre[0] == ds[0]);
        assert(all_digits(pre));
        lemma_canonical_digits(pre);
        let v = seq_val(ds);
        let pv = seq_val(pre);
        lemma_no_leading_zero_nonzero(pre);
        assert(pv >= 1);
        assert(ds.last() == ds[ds.len() - 1]);
        assert(is_digit(ds[ds.len() - 1]));
        assert(v == pv * 10 + digit_val(ds.last()));
        assert(0 <= digit_val(ds.last()) < 10);
        assert(v >= 10);
        assert(v / 10 == pv && v % 10 == digit_val(ds.last()));
        assert(dec_digits(v as nat) == dec_digits(pv as nat).push(digit_char(digit_val(ds.last()))));
        lemma_digit_char_of_val(ds.last());
        assert(digit_char(digit_val(ds.last())) == ds.last());
        assert(dec_digits(v as nat) =~= ds);
    }
}

/// A digit string with no leading zero denotes a nonzero value.
pub proof fn lemma_no_leading_zero_nonzero(ds: Seq<char>)
    requires
        ds.len() >= 1,
        all_digits(ds),
        ds[0] != '0',
    ensures
        seq_val(ds) >= 1,
    decreases ds.len(),
{
    if ds.len() == 1 {
        assert(is_digit(ds[0]));
        assert(('0' as u32) == 48);
        if ds[0] as u32 == 48 {
            lemma_char_code_inj(ds[0], '0');
        }
        assert(ds.drop_last().len() == 0);
        assert(seq_val(ds.drop_last()) == 0);
        assert(digit_val(ds[0]) >= 1);
    } else {
        let pre = ds.drop_last();
        assert(pre[0] == ds[0]);
        lemma_no_leading_zero_nonzero(pre);
        assert(ds.last() == ds[ds.len() - 1]);
        assert(is_digit(ds[ds.len() - 1]));
        assert(digit_val(ds.last()) >= 0);
    }
}

pub proof fn lemma_pow10_12()
    ensures
        pow10(12) == 1000000000000,
{
    reveal_with_fuel(pow10, 13);
}

fn append_digit(out: &mut String, d: u64)
    requires
        d < 10,
    ensures
        final(out)@ == old(out)@ + seq![digit_char(d as int)],
{
    proof {
        reveal_strlit("0");
        reveal_strlit("1");
        reveal_strlit("2");
        reveal_strlit("3");
        reveal_strlit("4");
        reveal_strlit("5");
        reveal_strlit("6");
        reveal_strlit("7");
        reveal_strlit("8");
        reveal_strlit("9");
    }
    if d == 0 {
        out.append("0");
    } else if d == 1 {
        out.append("1");
    } else if d == 2 {
        out.append("2");
    } else if d == 3 {
        out.append("3");
    } else if d == 4 {
        out.append("4");
    } else if d == 5 {
        out.append("5");
    } else if d == 6 {
        out.append("6");
    } else if d == 7 {
        out.append("7");
    } else if d == 8 {
        out.append("8");
    } else {
        out.append("9");
    }
    proof {
        assert(out@ =~= old(out)@ + seq![digit_char(d as int)]);
    }
}

/// Appends the canonical decimal digits of `n`.
pub fn append_u64_dec(out: &mut String, n: u64)
    ensures
        final(out)@ == old(out)@ + dec_digits(n as nat),
    decreases n,
{
    if n < 10 {
        append_digit(out, n);
    } else {
        append_u64_dec(out, n / 10);
        append_digit(out, n % 10);
        proof {
            assert(out@ =~= old(out)@ + dec_digits(n as nat));
        }
    }
}

/// Appends the canonical decimal text of the coordinate of `m` thousandths.
pub fn append_milli(out: &mut String, m: i64)
    ensures
        final(out)@ == old(out)@ + milli_chars(m as int),
{
    let a: u64 = if m < 0 {
        (-(m as i128)) as u64
    } else {
        m as u64
    };
    assert(a as int == if m < 0 { -(m as int) } else { m as int });
    if m < 0 {
        proof {
            reveal_strlit("-");
        }
        out.append("-");
    }
    let ip: u64 = a / 1000;
    let fp: u64 = a % 1000;
    append_u64_dec(out, ip);
    proof {
        reveal_strlit(".");
    }
    out.append(".");
    let d1 = fp / 100;
    let d2 = (fp / 10) % 10;
    let d3 = fp % 10;
    append_digit(out, d1);
    if d3 == 0 {
        if d2 != 0 {
            append_digit(out, d2);
        }
    } else {
        append_digit(out, d2);
        append_digit(out, d3);
    }
    proof {
        assert(out@ =~= old(out)@ + milli_chars(m as int));
    }
}


pub proof fn lemma_dec_len_le(n: nat, k: nat)
    requires
        n < pow10(k),
        k >= 1,
    ensures
        dec_digits(n).len() <= k,
    decreases n,
{
    if n < 10 {
    } else {
        assert(pow10(k) == 10 * pow10((k - 1) as nat));
        assert(n / 10 < pow10((k - 1) as nat));
        assert(k - 1 >= 1) by {
            if k == 1 {
                assert(pow10(1) == 10 * pow10(0));
                assert(pow10(0) == 1);
            }
        };
        lemma_dec_len_le(n / 10, (k - 1) as nat);
    }
}


/// The integer parser accepts every canonical spelling that ends at the text
/// or a non-digit.
pub open spec fn parse_int_complete(sv: Seq<char>, start: int, n: int, r: Option<(u64, usize)>) -> bool {
    forall|v: u64, end: int|
        #![trigger dec_digits(v as nat), sv.subrange(start, end)]
        (start <= end <= n && v < 1000000000000 && sv.subrange(start, end) == dec_digits(v as nat)
            && (end == n || !is_digit(sv[end]))) ==> r == Some((v, end as usize))
}

/// The value, in thousandths, that a fraction's digit run denotes, read to
/// the grammar's precision: the first three digits; later digits are read
/// and ignored.
pub open spec fn frac_milli(fs: Seq<char>) -> int {
    (if fs.len() >= 1 {
        100 * digit_val(fs[0])
    } else {
        0
    }) + (if fs.len() >= 2 {
        10 * digit_val(fs[1])
    } else {
        0
    }) + (if fs.len() >= 3 {
        digit_val(fs[2])
    } else {
        0
    })
}

/// A JSON integer: at least one digit, with no leading zero unless it is
/// the single digit zero.
pub open spec fn is_json_int(ds: Seq<char>) -> bool {
    ds.len() >= 1 && all_digits(ds) && (ds.len() == 1 || ds[0] != '0')
}

/// How a number's text decomposes: an optional minus sign, integer digits,
/// and an optional dot-led nonempty digit run.
pub open spec fn num_shape(text: Seq<char>, neg: bool, ds: Seq<char>, fs: Seq<char>, hf: bool) -> bool {
    &&& text == (if neg {
        seq!['-']
    } else {
        Seq::<char>::empty()
    }) + ds + (if hf {
        seq!['.'] + fs
    } else {
        Seq::<char>::empty()
    })
    &&& is_json_int(ds)
    &&& (hf ==> fs.len() >= 1 && all_digits(fs))
    &&& (!hf ==> fs.len() == 0)
}

/// The value, in thousandths, of a decomposed number.
pub open spec fn num_val(neg: bool, ds: Seq<char>, fs: Seq<char>) -> int {
    (if neg {
        -1int
    } else {
        1int
    }) * (seq_val(ds) * 1000 + frac_milli(fs))
}

/// Whether a text is a number the wire grammar reads: a decomposable
/// decimal whose integer part stays within twelve digits.
pub open spec fn is_num_text(t: Seq<char>) -> bool {
    exists|neg: bool, ds: Seq<char>, fs: Seq<char>, hf: bool|
        #[trigger] num_shape(t, neg, ds, fs, hf) && ds.len() <= 12
}

/// The value, in thousandths, of a number text.
pub open spec fn num_text_milli(t: Seq<char>) -> int {
    let (neg, ds, fs, hf) = choose|neg: bool, ds: Seq<char>, fs: Seq<char>, hf: bool|
        #[trigger] num_shape(t, neg, ds, fs, hf) && ds.len() <= 12;
    num_val(neg, ds, fs)
}

/// The fraction parser reads every nonempty digit run that ends at the
/// text or a non-digit.
pub open spec fn parse_frac_complete(sv: Seq<char>, start: int, n: int, r: Option<(u64, usize)>) -> bool {
    forall|end: int|
        #![trigger sv.subrange(start, end)]
        (start < end <= n && all_digits(sv.subrange(start, end)) && (end == n || !is_digit(
            sv[end],
        ))) ==> r == Some((frac_milli(sv.subrange(start, end)) as u64, end as usize))
}

/// The coordinate parser reads every decomposable number spelling that ends
/// at the text or a character that neither extends the number nor begins
/// its fraction.
pub open spec fn parse_milli_complete(sv: Seq<char>, start: int, n: int, r: Option<(i64, usize)>) -> bool {
    forall|neg: bool, ds: Seq<char>, fs: Seq<char>, hf: bool, end: int|
        #![trigger num_shape(sv.subrange(start, end), neg, ds, fs, hf)]
        (start <= end <= n && num_shape(sv.subrange(start, end), neg, ds, fs, hf) && ds.len()
            <= 12 && (end == n || (!is_digit(sv[end]) && sv[end] != '.'))) ==> r == Some(
            (num_val(neg, ds, fs) as i64, end as usize),
        )
}

/// The digit value of a character, where it has one.
fn digit_of(c: char) -> (r: Option<u64>)
    ensures
        match r {
            Some(d) => is_digit(c) && d == digit_val(c) && d < 10,
            None => !is_digit(c),
        },
{
    let u = c as u32;
    if 48 <= u && u <= 57 {
        Some((u - 48) as u64)
    } else {
        None
    }
}

/// Whether the character at `i` is a decimal digit.
fn digit_at(s: &str, i: usize) -> (r: bool)
    requires
        i < s@.len(),
    ensures
        r == is_digit(s@[i as int]),
{
    let c = s.get_char(i);
    let u = c as u32;
    48 <= u && u <= 57
}

/// Parses a canonical unsigned decimal of at most twelve digits starting at
/// `start`: the unique `(v, end)` with the digits of `v` at
/// `start..end` followed by the end of the text or a non-digit, if there is
/// one.
pub fn parse_int(s: &str, start: usize, n: usize) -> (r: Option<(u64, usize)>)
    requires
        n == s@.len(),
        start <= n,
    ensures
        (match r {
            Some(p) => {
                &&& start < p.1 <= n
                &&& s@.subrange(start as int, p.1 as int) == dec_digits(p.0 as nat)
                &&& p.0 < 1000000000000
                &&& (p.1 == n || !is_digit(s@[p.1 as int]))
            },
            None => true,
        }),
        parse_int_complete(s@, start as int, n as int, r),
{
    proof {
        lemma_pow10_12();
    }
    if start >= n {
        proof {
            assert forall|v: u64, end: int|
                (start <= end <= n && v < 1000000000000 && s@.subrange(start as int, end)
                    == dec_digits(v as nat) && (end == n || !is_digit(s@[end])))
                implies false by {
                lemma_dec_digits(v as nat);
                assert(end - start >= 1);
            }
        }
        return None;
    }
    let c0 = s.get_char(start);
    let d0 = match digit_of(c0) {
        Some(d) => d,
        None => {
            proof {
                assert forall|v: u64, end: int|
                    (start <= end <= n && v < 1000000000000 && s@.subrange(start as int, end)
                        == dec_digits(v as nat) && (end == n || !is_digit(s@[end])))
                    implies false by {
                    lemma_dec_digits(v as nat);
                    assert(s@.subrange(start as int, end)[0] == c0);
                    assert(is_digit(dec_digits(v as nat)[0]));
                }
            }
            return None;
        },
    };
    if d0 == 0 {
        proof {
            lemma_digit_char_of_val(c0);
        }
        if start + 1 < n && digit_at(s, start + 1) {
            proof {
                assert forall|v: u64, end: int|
                    (start <= end <= n && v < 1000000000000 && s@.subrange(start as int, end)
                        == dec_digits(v as nat) && (end == n || !is_digit(s@[end])))
                    implies false by {
                    lemma_dec_digits(v as nat);
                    let ds = s@.subrange(start as int, end);
                    assert(ds[0] == c0);
                    assert(v == 0);
                    assert(ds.len() == 1);
                    assert(end == start + 1);
                }
            }
            return None;
        }
        proof {
            assert(s@.subrange(start as int, start + 1 as int) =~= dec_digits(0));
            assert forall|v: u64, end: int|
                (start <= end <= n && v < 1000000000000 && s@.subrange(start as int, end)
                    == dec_digits(v as nat) && (end == n || !is_digit(s@[end])))
                implies v == 0 && end == start + 1 by {
                lemma_dec_digits(v as nat);
                let ds = s@.subrange(start as int, end);
                assert(ds[0] == c0);
            }
        }
        return Some((0, start + 1));
    }
    let mut v: u64 = d0;
    let mut i: usize = start + 1;
    proof {
        assert(s@.subrange(start as int, start + 1) =~= seq![c0]);
        assert(seq![c0].drop_last().len() == 0);
        assert(seq_val(seq![c0].drop_last()) == 0);
        assert(pow10(1) == 10 * pow10(0));
        assert(pow10(0) == 1);
    }
    while i < n && digit_at(s, i)
        invariant
            n == s@.len(),
            start < i <= n,
            1 <= i - start <= 12,
            all_digits(s@.subrange(start as int, i as int)),
            s@[start as int] == c0,
            is_digit(c0),
            digit_val(c0) == d0,
            1 <= d0 < 10,
            v == seq_val(s@.subrange(start as int, i as int)),
            v < pow10((i - start) as nat),
            v < 1000000000000,
        decreases n - i,
    {
        let c = s.get_char(i);
        let d = match digit_of(c) {
            Some(d) => d,
            None => {
                proof {
                    assert(false);
                }
                return None;
            },
        };
        if i - start == 12 {
            proof {
                lemma_pow10_12();
                assert forall|w: u64, end: int|
                    (start <= end <= n && w < 1000000000000 && s@.subrange(start as int, end)
                        == dec_digits(w as nat) && (end == n || !is_digit(s@[end])))
                    implies false by {
                    lemma_dec_digits(w as nat);
                    lemma_dec_len_le(w as nat, 12);
                    let ds = s@.subrange(start as int, end);
                    assert(end - start <= 12);
                    if end < i {
                        assert(is_digit(s@.subrange(start as int, i as int)[end - start]));
                        assert(is_digit(s@[end]));
                    } else {
                        assert(end == i);
                        assert(is_digit(s@[i as int]));
                    }
                }
            }
            return None;
        }
        proof {
            let ds = s@.subrange(start as int, i as int);
            let ds2 = s@.subrange(start as int, i + 1 as int);
            assert(ds2.drop_last() =~= ds);
            assert(ds2.last() == s@[i as int]);
            assert(seq_val(ds2) == v * 10 + d);
            assert(pow10((i + 1 - start) as nat) == 10 * pow10((i - start) as nat));
            assert(forall|m: int|
                0 <= m < ds2.len() ==> is_digit(#[trigger] ds2[m]));
            lemma_pow10_12();
            lemma_pow10_le((i + 1 - start) as nat, 12);
        }
        v = v * 10 + d;
        i += 1;
    }
    proof {
        let ds = s@.subrange(start as int, i as int);
        assert(ds[0] == c0);
        if c0 == '0' {
            assert(digit_val(c0) == 0);
        }
        assert(ds[0] != '0');
        lemma_canonical_digits(ds);
        assert(dec_digits(v as nat) == ds);
        assert(i == n || !is_digit(s@[i as int]));
        assert forall|w: u64, end: int|
            (start <= end <= n && w < 1000000000000 && s@.subrange(start as int, end)
                == dec_digits(w as nat) && (end == n || !is_digit(s@[end])))
            implies w == v && end == i by {
            lemma_dec_digits(w as nat);
            let dw = s@.subrange(start as int, end);
            if end < i {
                assert(is_digit(s@.subrange(start as int, i as int)[end - start]));
                assert(is_digit(s@[end]));
                assert(false);
            }
            if end > i {
                assert(is_digit(dw[i - start]));
                assert(dw[i - start] == s@[i as int]);
                assert(false);
            }
            assert(end == i);
            assert(dw =~= ds);
            assert(seq_val(dec_digits(w as nat)) == w);
        }
    }
    Some((v, i))
}

pub proof fn lemma_pow10_le(a: nat, b: nat)
    requires
        a <= b,
    ensures
        pow10(a) <= pow10(b),
    decreases b,
{
    if a < b {
        lemma_pow10_le(a, (b - 1) as nat);
        assert(pow10(b) == 10 * pow10((b - 1) as nat));
    }
}

/// The magnitude of a coordinate value, in thousandths.
pub open spec fn milli_abs(m: i64) -> int {
    if m < 0 {
        -(m as int)
    } else {
        m as int
    }
}

/// Digit strings denote values bounded by a power of ten in their length.
pub proof fn lemma_seq_val_bound(ds: Seq<char>)
    requires
        all_digits(ds),
    ensures
        0 <= seq_val(ds) < pow10(ds.len()),
    decreases ds.len(),
{
    if ds.len() == 0 {
    } else {
        let pre = ds.drop_last();
        assert(all_digits(pre));
        lemma_seq_val_bound(pre);
        assert(ds.last() == ds[ds.len() - 1]);
        assert(is_digit(ds[ds.len() - 1]));
        assert(0 <= digit_val(ds.last()) < 10);
        assert(pow10(ds.len()) == 10 * pow10(pre.len()));
    }
}

/// A text decomposes as a number in at most one way.
pub proof fn lemma_num_shape_unique(
    t: Seq<char>,
    n1: bool,
    d1: Seq<char>,
    f1: Seq<char>,
    h1: bool,
    n2: bool,
    d2: Seq<char>,
    f2: Seq<char>,
    h2: bool,
)
    requires
        num_shape(t, n1, d1, f1, h1),
        num_shape(t, n2, d2, f2, h2),
    ensures
        n1 == n2,
        d1 == d2,
        f1 == f2,
        h1 == h2,
{
    assert(('-' as u32) == 45);
    assert(('.' as u32) == 46);
    assert(is_digit(d1[0]));
    assert(is_digit(d2[0]));
    if n1 {
        assert(t[0] == '-');
    } else {
        assert(t[0] == d1[0]);
    }
    if n2 {
        assert(t[0] == '-');
    } else {
        assert(t[0] == d2[0]);
    }
    assert(n1 == n2);
    let off: int = if n1 {
        1
    } else {
        0
    };
    let l1 = d1.len() as int;
    let l2 = d2.len() as int;
    assert(t.len() == off + l1 + (if h1 { 1 + f1.len() as int } else { 0 }));
    assert(t.len() == off + l2 + (if h2 { 1 + f2.len() as int } else { 0 }));
    if l1 < l2 {
        assert(t[off + l1] == d2[l1]);
        assert(is_digit(d2[l1]));
        if h1 {
            assert(t[off + l1] == '.');
        }
        assert(false);
    }
    if l2 < l1 {
        assert(t[off + l2] == d1[l2]);
        assert(is_digit(d1[l2]));
        if h2 {
            assert(t[off + l2] == '.');
        }
        assert(false);
    }
    assert(l1 == l2);
    assert forall|k: int| 0 <= k < l1 implies d1[k] == #[trigger] d2[k] by {
        assert(d1[k] == t[off + k]);
        assert(d2[k] == t[off + k]);
    }
    assert(d1 =~= d2);
    assert(h1 == h2);
    if h1 {
        assert forall|k: int| 0 <= k < f1.len() implies f1[k] == #[trigger] f2[k] by {
            assert(f1[k] == t[off + l1 + 1 + k]);
            assert(f2[k] == t[off + l1 + 1 + k]);
        }
        assert(f1 =~= f2);
    } else {
        assert(f1 =~= f2);
    }
}

/// A decomposable text is a number text, and its value is its
/// decomposition's value.
pub proof fn lemma_num_text_val(t: Seq<char>, neg: bool, ds: Seq<char>, fs: Seq<char>, hf: bool)
    requires
        num_shape(t, neg, ds, fs, hf),
        ds.len() <= 12,
    ensures
        is_num_text(t),
        num_text_milli(t) == num_val(neg, ds, fs),
{
    assert(is_num_text(t));
    let (n2, d2, f2, h2) = choose|n2: bool, d2: Seq<char>, f2: Seq<char>, h2: bool|
        #[trigger] num_shape(t, n2, d2, f2, h2) && d2.len() <= 12;
    lemma_num_shape_unique(t, neg, ds, fs, hf, n2, d2, f2, h2);
}

/// For any trim of its trailing zeros, a fraction's canonical digits read
/// back to its value.
pub proof fn lemma_frac_milli_of_digits(f: int)
    requires
        0 <= f <= 999,
    ensures
        frac_milli(frac_digits(f)) == f,
        all_digits(frac_digits(f)),
        1 <= frac_digits(f).len() <= 3,
{
    lemma_digit_char_props(f / 100);
    lemma_digit_char_props((f / 10) % 10);
    lemma_digit_char_props(f % 10);
    assert(f == (f / 100) * 100 + ((f / 10) % 10) * 10 + f % 10);
}

/// The canonical spelling of a coordinate is one of the texts the relaxed
/// number grammar reads, and it reads back to the same value.
pub proof fn lemma_canonical_num_text(m: i64)
    requires
        -MAX_COORD_MILLI <= m <= MAX_COORD_MILLI,
    ensures
        is_num_text(milli_chars(m as int)),
        num_text_milli(milli_chars(m as int)) == m as int,
{
    let a = milli_abs(m);
    let ds = dec_digits((a / 1000) as nat);
    let fs = frac_digits(a % 1000);
    lemma_dec_digits((a / 1000) as nat);
    lemma_pow10_12();
    lemma_dec_len_le((a / 1000) as nat, 12);
    lemma_frac_milli_of_digits(a % 1000);
    if a / 1000 == 0 {
        assert(ds =~= seq![digit_char(0)]);
    }
    assert(is_json_int(ds));
    assert(milli_chars(m as int) =~= (if m < 0 {
        seq!['-']
    } else {
        Seq::<char>::empty()
    }) + ds + (seq!['.'] + fs));
    assert(num_shape(milli_chars(m as int), m < 0, ds, fs, true));
    assert(seq_val(ds) == a / 1000);
    assert(frac_milli(fs) == a % 1000);
    assert(seq_val(ds) * 1000 + frac_milli(fs) == a);
    if m < 0 {
        assert(num_val(m < 0, ds, fs) == -1 * (seq_val(ds) * 1000 + frac_milli(fs)));
    } else {
        assert(num_val(m < 0, ds, fs) == 1 * (seq_val(ds) * 1000 + frac_milli(fs)));
    }
    assert(num_val(m < 0, ds, fs) == m as int);
    lemma_num_text_val(milli_chars(m as int), m < 0, ds, fs, true);
}

/// Reads a nonempty digit run to the grammar's thousandths precision.
pub fn parse_frac(s: &str, start: usize, n: usize) -> (r: Option<(u64, usize)>)
    requires
        n == s@.len(),
        start <= n,
    ensures
        (match r {
            Some(p) => {
                &&& start < p.1 <= n
                &&& all_digits(s@.subrange(start as int, p.1 as int))
                &&& p.0 == frac_milli(s@.subrange(start as int, p.1 as int))
                &&& p.0 <= 999
                &&& (p.1 == n || !is_digit(s@[p.1 as int]))
            },
            None => true,
        }),
        parse_frac_complete(s@, start as int, n as int, r),
{
    if start >= n || !digit_at(s, start) {
        proof {
            assert forall|end: int|
                #![trigger s@.subrange(start as int, end)]
                (start < end <= n && all_digits(s@.subrange(start as int, end)) && (end == n
                    || !is_digit(s@[end]))) implies false by {
                assert(is_digit(s@.subrange(start as int, end)[0]));
            }
        }
        return None;
    }
    let mut f: u64 = 0;
    let mut i: usize = start;
    while i < n && digit_at(s, i)
        invariant
            n == s@.len(),
            start <= i <= n,
            all_digits(s@.subrange(start as int, i as int)),
            f == frac_milli(s@.subrange(start as int, i as int)),
            f <= 999,
        decreases n - i,
    {
        let c = s.get_char(i);
        let d = match digit_of(c) {
            Some(d) => d,
            None => {
                proof {
                    assert(false);
                }
                return None;
            },
        };
        let ghost sub = s@.subrange(start as int, i as int);
        let ghost sub2 = s@.subrange(start as int, i + 1 as int);
        proof {
            assert(forall|m: int| 0 <= m < sub.len() ==> sub2[m] == #[trigger] sub[m]);
            assert(sub2[i - start] == s@[i as int]);
            assert(all_digits(sub2));
            assert(digit_val(s@[i as int]) == d);
        }
        if i == start {
            f = d * 100;
        } else if i - start == 1 {
            f = f + d * 10;
        } else if i - start == 2 {
            f = f + d;
        }
        proof {
            assert(f == frac_milli(sub2));
        }
        i += 1;
    }
    proof {
        assert forall|end: int|
            #![trigger s@.subrange(start as int, end)]
            (start < end <= n && all_digits(s@.subrange(start as int, end)) && (end == n
                || !is_digit(s@[end]))) implies end == i by {
            if end < i {
                assert(is_digit(s@.subrange(start as int, i as int)[end - start]));
                assert(is_digit(s@[end]));
            }
            if end > i {
                assert(is_digit(s@.subrange(start as int, end)[i - start]));
                assert(is_digit(s@[i as int]));
            }
        }
    }
    Some((f, i))
}

/// Decomposes a number's text around its sign, integer digits, dot and
/// fraction digits, placing each piece in the surrounding text.
proof fn lemma_num_parts(
    sv: Seq<char>,
    start: int,
    end: int,
    n: int,
    neg: bool,
    ds: Seq<char>,
    fs: Seq<char>,
    hf: bool,
    negx: bool,
    i0: int,
)
    requires
        n == sv.len(),
        0 <= start <= end <= n,
        num_shape(sv.subrange(start, end), neg, ds, fs, hf),
        end == n || (!is_digit(sv[end]) && sv[end] != '.'),
        negx == (start < n && sv[start] == '-'),
        i0 == if negx {
            start + 1
        } else {
            start
        },
    ensures
        negx == neg,
        i0 + ds.len() <= end,
        sv.subrange(i0, i0 + ds.len() as int) == ds,
        hf ==> i0 + ds.len() < n && sv[i0 + ds.len() as int] == '.' && end == i0 + ds.len() + 1
            + fs.len() && sv.subrange(i0 + ds.len() + 1 as int, end) == fs,
        !hf ==> end == i0 + ds.len(),
{
    let sub = sv.subrange(start, end);
    let off: int = if neg {
        1
    } else {
        0
    };
    assert(('-' as u32) == 45);
    assert(('.' as u32) == 46);
    assert(is_digit(ds[0]));
    assert(sub.len() == off + ds.len() + (if hf {
        1 + fs.len() as int
    } else {
        0
    }));
    if neg {
        assert(sub[0] == '-');
        assert(sv[start] == '-');
        assert(negx);
    } else {
        assert(sub[0] == ds[0]);
        assert(sv[start] != '-');
        assert(!negx);
    }
    assert forall|t: int| 0 <= t < ds.len() implies sv[i0 + t] == #[trigger] ds[t] by {
        assert(sv[i0 + t] == sub[off + t]);
        assert(sub[off + t] == ds[t]);
    }
    assert(sv.subrange(i0, i0 + ds.len() as int) =~= ds);
    if hf {
        assert(sv[i0 + ds.len() as int] == sub[off + ds.len() as int]);
        assert(sub[off + ds.len() as int] == '.');
        assert forall|t: int| 0 <= t < fs.len() implies sv[i0 + ds.len() + 1 + t]
            == #[trigger] fs[t] by {
            assert(sv[i0 + ds.len() + 1 + t] == sub[off + ds.len() + 1 + t]);
            assert(sub[off + ds.len() + 1 + t] == fs[t]);
        }
        assert(sv.subrange(i0 + ds.len() + 1 as int, end) =~= fs);
    }
}

/// What the integer parser must have returned when a decomposable number
/// sits at `start..end`.
proof fn lemma_num_complete_int(
    sv: Seq<char>,
    start: int,
    end: int,
    n: int,
    neg: bool,
    ds: Seq<char>,
    fs: Seq<char>,
    hf: bool,
    negx: bool,
    i0: int,
    rint: Option<(u64, usize)>,
)
    requires
        n == sv.len(),
        0 <= start <= end <= n,
        num_shape(sv.subrange(start, end), neg, ds, fs, hf),
        ds.len() <= 12,
        end == n || (!is_digit(sv[end]) && sv[end] != '.'),
        negx == (start < n && sv[start] == '-'),
        i0 == if negx {
            start + 1
        } else {
            start
        },
        parse_int_complete(sv, i0, n, rint),
    ensures
        0 <= seq_val(ds) < 1000000000000,
        i0 + ds.len() <= end,
        rint == Some::<(u64, usize)>((seq_val(ds) as u64, (i0 + ds.len()) as usize)),
{
    lemma_num_parts(sv, start, end, n, neg, ds, fs, hf, negx, i0);
    lemma_canonical_digits(ds);
    lemma_seq_val_bound(ds);
    lemma_pow10_le(ds.len() as nat, 12);
    lemma_pow10_12();
    let v: u64 = seq_val(ds) as u64;
    assert(ds == dec_digits(v as nat));
    assert(sv.subrange(i0, i0 + ds.len() as int) == dec_digits(v as nat));
    assert(('.' as u32) == 46);
    if hf {
        assert(!is_digit(sv[i0 + ds.len() as int]));
    }
}

/// What the fraction parser must have returned when a decomposable number
/// with a fraction sits at `start..end`.
proof fn lemma_num_complete_frac(
    sv: Seq<char>,
    start: int,
    end: int,
    n: int,
    neg: bool,
    ds: Seq<char>,
    fs: Seq<char>,
    negx: bool,
    i0: int,
    rfrac: Option<(u64, usize)>,
)
    requires
        n == sv.len(),
        0 <= start <= end <= n,
        num_shape(sv.subrange(start, end), neg, ds, fs, true),
        end == n || (!is_digit(sv[end]) && sv[end] != '.'),
        negx == (start < n && sv[start] == '-'),
        i0 == if negx {
            start + 1
        } else {
            start
        },
        parse_frac_complete(sv, i0 + ds.len() + 1, n, rfrac),
    ensures
        rfrac == Some::<(u64, usize)>((frac_milli(fs) as u64, end as usize)),
{
    lemma_num_parts(sv, start, end, n, neg, ds, fs, true, negx, i0);
    assert(sv.subrange(i0 + ds.len() + 1 as int, end) == fs);
    assert(0 <= frac_milli(fs) <= 999) by {
        assert(fs.len() >= 1);
        assert(is_digit(fs[0]));
        if fs.len() >= 2 {
            assert(is_digit(fs[1]));
        }
        if fs.len() >= 3 {
            assert(is_digit(fs[2]));
        }
    }
}

/// Parses one number starting at `start`: the unique `(m, end)` such that a
/// decomposable decimal spelling of `m` thousandths sits at `start..end`,
/// provided the spelling ends there — at the end of the frame or before a
/// character that neither extends the number nor begins its fraction.
#[verifier::rlimit(100)]
pub fn parse_milli(s: &str, start: usize, n: usize) -> (r: Option<(i64, usize)>)
    requires
        n == s@.len(),
        start <= n,
    ensures
        (match r {
            Some(p) => {
                &&& start < p.1 <= n
                &&& is_num_text(s@.subrange(start as int, p.1 as int))
                &&& p.0 as int == num_text_milli(s@.subrange(start as int, p.1 as int))
                &&& -MAX_COORD_MILLI <= p.0 <= MAX_COORD_MILLI
            },
            None => true,
        }),
        parse_milli_complete(s@, start as int, n as int, r),
{
    proof {
        lemma_pow10_12();
        assert(('-' as u32) == 45);
        assert(('.' as u32) == 46);
    }
    let neg = start < n && s.get_char(start) == '-';
    let i0 = if neg {
        start + 1
    } else {
        start
    };
    let parsed_int = parse_int(s, i0, n);
    let (ip, j) = match parsed_int {
        Some(p) => p,
        None => {
            proof {
                assert forall|negw: bool, dsw: Seq<char>, fsw: Seq<char>, hfw: bool, endw: int|
                    #![trigger num_shape(s@.subrange(start as int, endw), negw, dsw, fsw, hfw)]
                    (start <= endw <= n && num_shape(
                        s@.subrange(start as int, endw),
                        negw,
                        dsw,
                        fsw,
                        hfw,
                    ) && dsw.len() <= 12 && (endw == n || (!is_digit(s@[endw]) && s@[endw]
                        != '.'))) implies false by {
                    lemma_num_complete_int(
                        s@,
                        start as int,
                        endw,
                        n as int,
                        negw,
                        dsw,
                        fsw,
                        hfw,
                        neg,
                        i0 as int,
                        parsed_int,
                    );
                }
            }
            return None;
        },
    };
    let has_frac = j < n && s.get_char(j) == '.';
    let parsed_frac = if has_frac {
        parse_frac(s, j + 1, n)
    } else {
        None
    };
    let (fp, end) = if has_frac {
        match parsed_frac {
            Some(p) => p,
            None => {
                proof {
                    assert forall|negw: bool, dsw: Seq<char>, fsw: Seq<char>, hfw: bool, endw: int|
                        #![trigger num_shape(s@.subrange(start as int, endw), negw, dsw, fsw, hfw)]
                        (start <= endw <= n && num_shape(
                            s@.subrange(start as int, endw),
                            negw,
                            dsw,
                            fsw,
                            hfw,
                        ) && dsw.len() <= 12 && (endw == n || (!is_digit(s@[endw]) && s@[endw]
                            != '.'))) implies false by {
                        lemma_num_complete_int(
                            s@,
                            start as int,
                            endw,
                            n as int,
                            negw,
                            dsw,
                            fsw,
                            hfw,
                            neg,
                            i0 as int,
                            parsed_int,
                        );
                        assert(j == i0 + dsw.len());
                        if hfw {
                            lemma_num_complete_frac(
                                s@,
                                start as int,
                                endw,
                                n as int,
                                negw,
                                dsw,
                                fsw,
                                neg,
                                i0 as int,
                                parsed_frac,
                            );
                        } else {
                            lemma_num_parts(
                                s@,
                                start as int,
                                endw,
                                n as int,
                                negw,
                                dsw,
                                fsw,
                                hfw,
                                neg,
                                i0 as int,
                            );
                            assert(endw == j);
                            assert(s@[j as int] == '.');
                        }
                    }
                }
                return None;
            },
        }
    } else {
        (0u64, j)
    };
    let a: u64 = ip * 1000 + fp;
    let m: i64 = if neg {
        -(a as i64)
    } else {
        a as i64
    };
    proof {
        let sub = s@.subrange(start as int, end as int);
        let dsw = dec_digits(ip as nat);
        lemma_dec_digits(ip as nat);
        lemma_dec_len_le(ip as nat, 12);
        if ip == 0 {
            assert(dsw =~= seq![digit_char(0)]);
        }
        assert(is_json_int(dsw));
        let fsw = if has_frac {
            s@.subrange(j + 1 as int, end as int)
        } else {
            Seq::<char>::empty()
        };
        assert(sub =~= (if neg {
            seq!['-']
        } else {
            Seq::<char>::empty()
        }) + dsw + (if has_frac {
            seq!['.'] + fsw
        } else {
            Seq::<char>::empty()
        }));
        assert(num_shape(sub, neg, dsw, fsw, has_frac));
        assert(seq_val(dsw) == ip as int);
        assert(frac_milli(fsw) == fp as int);
        assert(seq_val(dsw) * 1000 + frac_milli(fsw) == a as int);
        assert(m as int == if neg {
            -(a as int)
        } else {
            a as int
        });
        if neg {
            assert(num_val(neg, dsw, fsw) == -1 * (seq_val(dsw) * 1000 + frac_milli(fsw)));
        } else {
            assert(num_val(neg, dsw, fsw) == 1 * (seq_val(dsw) * 1000 + frac_milli(fsw)));
        }
        assert(num_val(neg, dsw, fsw) == m as int);
        lemma_num_text_val(sub, neg, dsw, fsw, has_frac);
        assert forall|negw: bool, dsw2: Seq<char>, fsw2: Seq<char>, hfw: bool, endw: int|
            #![trigger num_shape(s@.subrange(start as int, endw), negw, dsw2, fsw2, hfw)]
            (start <= endw <= n && num_shape(
                s@.subrange(start as int, endw),
                negw,
                dsw2,
                fsw2,
                hfw,
            ) && dsw2.len() <= 12 && (endw == n || (!is_digit(s@[endw]) && s@[endw] != '.')))
            implies num_val(negw, dsw2, fsw2) == m as int && endw == end by {
            lemma_num_complete_int(
                s@,
                start as int,
                endw,
                n as int,
                negw,
                dsw2,
                fsw2,
                hfw,
                neg,
                i0 as int,
                parsed_int,
            );
            assert(seq_val(dsw2) == ip && j == i0 + dsw2.len());
            lemma_num_parts(
                s@,
                start as int,
                endw,
                n as int,
                negw,
                dsw2,
                fsw2,
                hfw,
                neg,
                i0 as int,
            );
            if hfw {
                assert(s@[j as int] == '.');
                assert(has_frac);
                lemma_num_complete_frac(
                    s@,
                    start as int,
                    endw,
                    n as int,
                    negw,
                    dsw2,
                    fsw2,
                    neg,
                    i0 as int,
                    parsed_frac,
                );
                assert(fp == frac_milli(fsw2) && endw == end);
            } else {
                assert(endw == j);
                assert(!has_frac);
                assert(end == j);
                assert(frac_milli(fsw2) == 0);
            }
            assert(negw == neg);
        }
    }
    Some((m, end))
}

} // verus!
