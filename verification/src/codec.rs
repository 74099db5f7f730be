//! The persistence codec: one lossless text snapshot of the whole game
//! state. The format is fixed-width decimal fields, single-character
//! tags, and length-prefixed raw text; nothing else. The decoding
//! functions promise both directions: any blob the encoding functions
//! produce reads back to an observationally equal state, and anything
//! they accept at all is the encoding of the very state they return —
//! a corrupt blob is reported as unreadable, never invented from.

use vstd::prelude::*;
use crate::messages::spec_digit;
use crate::messages::push_char;

verus! {

/// The value of a digit character, ten for anything else.
pub open spec fn digit_val(c: char) -> int {
    if c == '0' { 0 }
    else if c == '1' { 1 }
    else if c == '2' { 2 }
    else if c == '3' { 3 }
    else if c == '4' { 4 }
    else if c == '5' { 5 }
    else if c == '6' { 6 }
    else if c == '7' { 7 }
    else if c == '8' { 8 }
    else if c == '9' { 9 }
    else { 10 }
}

/// Ten to the `w`.
pub open spec fn pow10(w: nat) -> int
    decreases w,
{
    if w == 0 {
        1
    } else {
        10 * pow10((w - 1) as nat)
    }
}

/// Powers of ten are positive.
pub proof fn lemma_pow10_pos(w: nat)
    ensures
        pow10(w) >= 1,
    decreases w,
{
    if w > 0 {
        lemma_pow10_pos((w - 1) as nat);
    }
}

/// Powers of ten grow with the exponent.
pub proof fn lemma_pow10_le(a: nat, b: nat)
    requires
        a <= b,
    ensures
        pow10(a) <= pow10(b),
    decreases b,
{
    if a < b {
        lemma_pow10_le(a, (b - 1) as nat);
        lemma_pow10_pos((b - 1) as nat);
    }
}

/// The numeric values of the widths in use.
pub proof fn lemma_pow10_vals()
    ensures
        pow10(9) == 1000000000,
        pow10(10) == 10000000000,
{
    assert(pow10(0) == 1);
    assert(pow10(1) == 10);
    assert(pow10(2) == 100);
    assert(pow10(3) == 1000);
    assert(pow10(4) == 10000);
    assert(pow10(5) == 100000);
    assert(pow10(6) == 1000000);
    assert(pow10(7) == 10000000);
    assert(pow10(8) == 100000000);
    assert(pow10(9) == 1000000000);
    assert(pow10(10) == 10000000000);
}

/// The last `w` decimal digits of `n`, most significant first.
pub open spec fn enc_digits(n: nat, w: nat) -> Seq<char>
    decreases w,
{
    if w == 0 {
        Seq::empty()
    } else {
        enc_digits(n / 10, (w - 1) as nat).push(spec_digit((n % 10) as int))
    }
}

/// A fixed-width run of digits is exactly that wide, holds only digit
/// characters, and reads back to the encoded value when it fits.
pub proof fn lemma_enc_digits(n: nat, w: nat)
    ensures
        enc_digits(n, w).len() == w,
        forall|i: int| 0 <= i < w ==> digit_val(#[trigger] enc_digits(n, w)[i]) < 10,
    decreases w,
{
    if w > 0 {
        lemma_enc_digits(n / 10, (w - 1) as nat);
        assert forall|i: int| 0 <= i < w implies digit_val(#[trigger] enc_digits(n, w)[i])
            < 10 by {
            if i < w - 1 {
                assert(enc_digits(n, w)[i] == enc_digits(n / 10, (w - 1) as nat)[i]);
            } else {
                assert(enc_digits(n, w)[i] == spec_digit((n % 10) as int));
            }
        }
    }
}

/// The value a digit run stands for (left-to-right base ten).
pub open spec fn digits_value(s: Seq<char>) -> int
    decreases s.len(),
{
    if s.len() == 0 {
        0
    } else {
        digits_value(s.drop_last()) * 10 + digit_val(s.last())
    }
}

/// Reading the digits of `n` back yields `n`, whenever `n` fits the width.
pub proof fn lemma_digits_round_trip(n: nat, w: nat)
    requires
        n < pow10(w),
    ensures
        digits_value(enc_digits(n, w)) == n,
    decreases w,
{
    if w == 0 {
        assert(n == 0);
    } else {
        lemma_enc_digits(n / 10, (w - 1) as nat);
        assert(enc_digits(n, w).drop_last() =~= enc_digits(n / 10, (w - 1) as nat));
        assert(digit_val(spec_digit((n % 10) as int)) == n % 10);
        assert(n / 10 < pow10((w - 1) as nat)) by {
            vstd::arithmetic::div_mod::lemma_fundamental_div_mod(n as int, 10);
        };
        lemma_digits_round_trip(n / 10, (w - 1) as nat);
        vstd::arithmetic::div_mod::lemma_fundamental_div_mod(n as int, 10);
    }
}

/// The blob holds exactly `e` starting at `pos`.
pub open spec fn starts(s: Seq<char>, pos: int, e: Seq<char>) -> bool {
    &&& 0 <= pos
    &&& pos + e.len() <= s.len()
    &&& s.subrange(pos, pos + e.len()) == e
}

/// A match on a concatenation is a match on each part in turn.
pub proof fn lemma_starts_concat(s: Seq<char>, pos: int, e1: Seq<char>, e2: Seq<char>)
    requires
        starts(s, pos, e1 + e2),
    ensures
        starts(s, pos, e1),
        starts(s, pos + e1.len(), e2),
{
    let both = e1 + e2;
    assert(s.subrange(pos, pos + e1.len()) =~= e1) by {
        assert forall|i: int| 0 <= i < e1.len() implies s.subrange(pos, pos + e1.len())[i]
            == e1[i] by {
            assert(s.subrange(pos, pos + both.len() as int)[i] == both[i]);
            assert(s[pos + i] == both[i]);
        }
    }
    assert(s.subrange(pos + e1.len(), pos + e1.len() + e2.len()) =~= e2) by {
        assert forall|i: int|
            0 <= i < e2.len() implies s.subrange(pos + e1.len(), pos + e1.len() + e2.len())[i]
            == e2[i] by {
            assert(s.subrange(pos, pos + both.len() as int)[e1.len() + i] == both[e1.len() + i]);
            assert(s[pos + e1.len() + i] == both[e1.len() + i]);
        }
    }
}

/// Matches on two adjacent parts join into a match on their concatenation.
pub proof fn lemma_starts_join(s: Seq<char>, pos: int, e1: Seq<char>, e2: Seq<char>)
    requires
        starts(s, pos, e1),
        starts(s, pos + e1.len(), e2),
    ensures
        starts(s, pos, e1 + e2),
{
    assert(s.subrange(pos, pos + (e1 + e2).len()) =~= e1 + e2) by {
        assert forall|i: int| 0 <= i < e1.len() + e2.len() implies s.subrange(
            pos,
            pos + (e1 + e2).len(),
        )[i] == (e1 + e2)[i] by {
            if i < e1.len() {
                assert(s.subrange(pos, pos + e1.len())[i] == e1[i]);
            } else {
                assert(s.subrange(pos + e1.len(), pos + e1.len() + e2.len())[i - e1.len()] == e2[i
                    - e1.len()]);
            }
        }
    }
}

/// A blob starts with the one character standing at the position.
pub proof fn lemma_starts_one(s: Seq<char>, pos: int)
    requires
        0 <= pos < s.len(),
    ensures
        starts(s, pos, seq![s[pos]]),
{
    assert(s.subrange(pos, pos + 1) =~= seq![s[pos]]);
}

/// A digit character is its value's digit.
proof fn lemma_digit_char_inverse(c: char)
    requires
        digit_val(c) < 10,
    ensures
        spec_digit(digit_val(c)) == c,
{
}

/// Fixed-width decimal is a bijection: an all-digit run is the encoding
/// of the value it reads to.
pub proof fn lemma_digits_unique(d: Seq<char>)
    requires
        forall|j: int| 0 <= j < d.len() ==> digit_val(#[trigger] d[j]) < 10,
    ensures
        digits_value(d) >= 0,
        d == enc_digits(digits_value(d) as nat, d.len()),
    decreases d.len(),
{
    lemma_digits_value_nonneg(d);
    if d.len() > 0 {
        let q = d.drop_last();
        assert forall|j: int| 0 <= j < q.len() implies digit_val(#[trigger] q[j]) < 10 by {
            assert(q[j] == d[j]);
        }
        lemma_digits_unique(q);
        let v = digits_value(d);
        let qv = digits_value(q);
        let last = digit_val(d.last());
        assert(v == qv * 10 + last);
        assert(v % 10 == last && v / 10 == qv) by {
            vstd::arithmetic::div_mod::lemma_fundamental_div_mod_converse(
                v as int,
                10,
                qv as int,
                last as int,
            );
        }
        lemma_digit_char_inverse(d.last());
        lemma_enc_digits(v as nat, d.len());
        lemma_enc_digits(qv as nat, q.len());
        assert(d =~= enc_digits(v as nat, d.len()));
    } else {
        assert(d =~= enc_digits(0, 0));
    }
}

/// Append the last `w` digits of `n`, most significant first.
fn write_digits(n: u64, w: usize, out: &mut String)
    ensures
        final(out)@ == old(out)@ + enc_digits(n as nat, w as nat),
    decreases w,
{
    if w == 0 {
        proof {
            assert(final(out)@ =~= old(out)@ + enc_digits(n as nat, 0));
        }
    } else {
        write_digits(n / 10, w - 1, out);
        let d = (n % 10) as u32;
        push_char(out, crate::messages::digit_char(d));
        proof {
            assert(out@ =~= old(out)@ + enc_digits(n as nat, w as nat));
        }
    }
}

/// Read a fixed-width digit run as a number.
fn read_digits(s: &str, pos: usize, w: usize) -> (r: Option<(u64, usize)>)
    requires
        w <= 10,
    ensures
        forall|n: u64|
            (n < 10000000000u64 || w < 10) && starts(s@, pos as int, enc_digits(n as nat, w as nat))
                && digits_value(enc_digits(n as nat, w as nat)) == n ==> r == Some(
                (n, (pos + w) as usize),
            ),
        r matches Some((n, p)) ==> p == pos + w && pos + w <= s@.len() && n < pow10(w as nat)
            && starts(s@, pos as int, enc_digits(n as nat, w as nat)),
{
    let n = s.unicode_len();
    if n < w || pos > n - w {
        proof {
            assert forall|v: u64|
                (v < 10000000000u64 || w < 10) && starts(
                    s@,
                    pos as int,
                    enc_digits(v as nat, w as nat),
                ) && digits_value(enc_digits(v as nat, w as nat)) == v implies false by {
                lemma_enc_digits(v as nat, w as nat);
            }
        }
        return None;
    }
    let mut acc: u64 = 0;
    let mut i: usize = 0;
    while i < w
        invariant
            w <= 10,
            i <= w,
            pos + w <= s@.len(),
            pos + w <= usize::MAX,
            acc as int == digits_value(s@.subrange(pos as int, pos as int + i as int)),
            acc < 10000000000u64,
            forall|j: int| pos <= j < pos + i ==> digit_val(s@[j]) < 10,
        decreases w - i,
    {
        let c = s.get_char(pos + i);
        let d: u64 = match c {
            '0' => 0,
            '1' => 1,
            '2' => 2,
            '3' => 3,
            '4' => 4,
            '5' => 5,
            '6' => 6,
            '7' => 7,
            '8' => 8,
            '9' => 9,
            _ => 10,
        };
        if d == 10 {
            proof {
                assert forall|v: u64|
                    (v < 10000000000u64 || w < 10) && starts(
                        s@,
                        pos as int,
                        enc_digits(v as nat, w as nat),
                    ) && digits_value(enc_digits(v as nat, w as nat)) == v implies false by {
                    lemma_enc_digits(v as nat, w as nat);
                    assert(s@[pos + i] == enc_digits(v as nat, w as nat)[i as int]);
                    assert(digit_val(s@[pos + i]) < 10);
                }
            }
            return None;
        }
        proof {
            assert(digit_val(c) == d);
            assert(s@.subrange(pos as int, pos as int + i + 1).drop_last() =~= s@.subrange(
                pos as int,
                pos as int + i,
            ));
            assert(s@.subrange(pos as int, pos as int + i + 1).last() == c);
            assert(acc * 10 + d < 100000000000u64) by {
                assert(acc <= 9999999999u64);
            }
        }
        let next = acc * 10 + d;
        if next >= 10000000000u64 {
            proof {
                assert forall|v: u64|
                    (v < 10000000000u64 || w < 10) && starts(
                        s@,
                        pos as int,
                        enc_digits(v as nat, w as nat),
                    ) && digits_value(enc_digits(v as nat, w as nat)) == v implies false by {
                    lemma_enc_digits(v as nat, w as nat);
                    assert(s@.subrange(pos as int, pos + w as int) =~= enc_digits(
                        v as nat,
                        w as nat,
                    ));
                    assert forall|j: int| pos <= j < pos + w implies digit_val(s@[j]) < 10 by {
                        assert(s@[j] == enc_digits(v as nat, w as nat)[j - pos]);
                    }
                    lemma_digits_prefix_bound(s@, pos as int, i as int + 1, w as int);
                    lemma_digits_value_bound(s@.subrange(pos as int, pos + w as int));
                    lemma_pow10_le(w as nat, 10);
                    lemma_pow10_vals();
                }
            }
            return None;
        }
        acc = next;
        i = i + 1;
    }
    proof {
        assert forall|v: u64|
            (v < 10000000000u64 || w < 10) && starts(s@, pos as int, enc_digits(v as nat, w as nat))
                && digits_value(enc_digits(v as nat, w as nat)) == v implies acc == v by {
            lemma_enc_digits(v as nat, w as nat);
            assert(s@.subrange(pos as int, pos as int + w as int) =~= enc_digits(
                v as nat,
                w as nat,
            ));
        }
        let d = s@.subrange(pos as int, pos as int + w as int);
        assert forall|j: int| 0 <= j < d.len() implies digit_val(#[trigger] d[j]) < 10 by {
            assert(d[j] == s@[pos + j]);
        }
        lemma_digits_unique(d);
        lemma_digits_value_bound(d);
        assert(starts(s@, pos as int, enc_digits(acc as nat, w as nat)));
    }
    Some((acc, pos + w))
}

/// A partial digit run reads to at most what the full run reads to.
proof fn lemma_digits_prefix_bound(s: Seq<char>, pos: int, k: int, w: int)
    requires
        0 <= pos,
        0 <= k <= w,
        pos + w <= s.len(),
        forall|j: int| pos <= j < pos + w ==> digit_val(s[j]) < 10,
    ensures
        digits_value(s.subrange(pos, pos + k)) <= digits_value(s.subrange(pos, pos + w)),
    decreases w - k,
{
    if k < w {
        assert(s.subrange(pos, pos + k + 1).drop_last() =~= s.subrange(pos, pos + k));
        assert(digit_val(s.subrange(pos, pos + k + 1).last()) >= 0);
        assert(digits_value(s.subrange(pos, pos + k)) * 10 >= digits_value(
            s.subrange(pos, pos + k),
        )) by {
            lemma_digits_value_nonneg(s.subrange(pos, pos + k));
        }
        lemma_digits_prefix_bound(s, pos, k + 1, w);
    }
}

/// A digit run's value is never negative.
proof fn lemma_digits_value_nonneg(s: Seq<char>)
    ensures
        digits_value(s) >= 0,
    decreases s.len(),
{
    if s.len() > 0 {
        lemma_digits_value_nonneg(s.drop_last());
        assert(digit_val(s.last()) >= 0);
    }
}


/// A run of digit characters reads to less than ten to its length.
pub proof fn lemma_digits_value_bound(s: Seq<char>)
    requires
        forall|j: int| 0 <= j < s.len() ==> digit_val(#[trigger] s[j]) < 10,
    ensures
        digits_value(s) < pow10(s.len()),
    decreases s.len(),
{
    if s.len() > 0 {
        assert forall|j: int| 0 <= j < s.drop_last().len() implies digit_val(
            #[trigger] s.drop_last()[j],
        ) < 10 by {
            assert(s.drop_last()[j] == s[j]);
        }
        lemma_digits_value_bound(s.drop_last());
        lemma_digits_value_nonneg(s.drop_last());
        assert(digit_val(s.last()) < 10);
    }
}


/// The encoding of a signed number: a sign, then ten digits.
pub open spec fn enc_i32(n: int) -> Seq<char> {
    seq![if n < 0 { '-' } else { '+' }] + enc_digits((if n < 0 { -n } else { n }) as nat, 10)
}

/// The encoding of a truth value.
pub open spec fn enc_bool(b: bool) -> Seq<char> {
    seq![if b { 'T' } else { 'F' }]
}

/// The encoding of a piece of text: nine digits of length, then the
/// characters themselves.
pub open spec fn enc_str(t: Seq<char>) -> Seq<char> {
    enc_digits(t.len(), 9) + t
}

/// Append one raw character.
fn write_char(c: char, out: &mut String)
    ensures
        final(out)@ == old(out)@ + seq![c],
{
    push_char(out, c);
    proof {
        assert(out@ =~= old(out)@ + seq![c]);
    }
}

/// Read one raw character.
fn read_char(s: &str, pos: usize) -> (r: Option<(char, usize)>)
    ensures
        r matches Some((c, p)) ==> p == pos + 1 && pos < s@.len() && c == s@[pos as int],
        pos < s@.len() ==> r is Some,
{
    if pos < s.unicode_len() {
        Some((s.get_char(pos), pos + 1))
    } else {
        None
    }
}

/// Append a signed number.
fn write_i32(n: i32, out: &mut String)
    ensures
        final(out)@ == old(out)@ + enc_i32(n as int),
{
    if n < 0 {
        push_char(out, '-');
        let mag = (-(n as i64)) as u64;
        write_digits(mag, 10, out);
    } else {
        push_char(out, '+');
        write_digits(n as u64, 10, out);
    }
    proof {
        assert(out@ =~= old(out)@ + enc_i32(n as int));
    }
}

/// Read a signed number.
fn read_i32(s: &str, pos: usize) -> (r: Option<(i32, usize)>)
    ensures
        forall|v: i32|
            starts(s@, pos as int, enc_i32(v as int)) ==> r == Some((v, (pos + 11) as usize)),
        r matches Some((v, p)) ==> p == pos + 11 && pos + 11 <= s@.len() && starts(
            s@,
            pos as int,
            enc_i32(v as int),
        ),
{
    proof {
        assert forall|v: i32| starts(s@, pos as int, enc_i32(v as int)) implies s@[pos as int] == (
        if v < 0 {
            '-'
        } else {
            '+'
        }) && starts(
            s@,
            pos + 1,
            enc_digits((if v < 0 { -v } else { v as int }) as nat, 10),
        ) by {
            lemma_starts_concat(
                s@,
                pos as int,
                seq![if v < 0 { '-' } else { '+' }],
                enc_digits((if v < 0 { -v } else { v as int }) as nat, 10),
            );
            assert(s@.subrange(pos as int, pos as int + 1) == seq![if v < 0 { '-' } else { '+' }]);
            assert(s@.subrange(pos as int, pos as int + 1)[0] == s@[pos as int]);
        }
        assert forall|v: i32| starts(s@, pos as int, enc_i32(v as int)) implies digits_value(
            enc_digits((if v < 0 { -v } else { v as int }) as nat, 10),
        ) == (if v < 0 { -v } else { v as int }) by {
            lemma_pow10_vals();
            lemma_digits_round_trip((if v < 0 { -v } else { v as int }) as nat, 10);
        }
    }
    let sign = match read_char(s, pos) {
        Some((c, _)) => c,
        None => {
            return None;
        },
    };
    if sign != '-' && sign != '+' {
        return None;
    }
    let (mag, p) = match read_digits(s, pos + 1, 10) {
        Some(x) => x,
        None => {
            return None;
        },
    };
    proof {
        lemma_starts_one(s@, pos as int);
    }
    if sign == '-' {
        if mag > 2147483648u64 || mag == 0 {
            return None;
        }
        let out = (-(mag as i64)) as i32;
        proof {
            lemma_starts_join(s@, pos as int, seq![s@[pos as int]], enc_digits(mag as nat, 10));
            assert(seq![s@[pos as int]] + enc_digits(mag as nat, 10) =~= enc_i32(out as int));
        }
        Some((out, p))
    } else {
        if mag > 2147483647u64 {
            return None;
        }
        let out = mag as i32;
        proof {
            lemma_starts_join(s@, pos as int, seq![s@[pos as int]], enc_digits(mag as nat, 10));
            assert(seq![s@[pos as int]] + enc_digits(mag as nat, 10) =~= enc_i32(out as int));
        }
        Some((out, p))
    }
}

/// Append a truth value.
fn write_bool(b: bool, out: &mut String)
    ensures
        final(out)@ == old(out)@ + enc_bool(b),
{
    write_char(if b { 'T' } else { 'F' }, out);
}

/// Read a truth value.
fn read_bool(s: &str, pos: usize) -> (r: Option<(bool, usize)>)
    ensures
        forall|v: bool| starts(s@, pos as int, enc_bool(v)) ==> r == Some((v, (pos + 1) as usize)),
        r matches Some((v, p)) ==> p == pos + 1 && pos + 1 <= s@.len() && starts(
            s@,
            pos as int,
            enc_bool(v),
        ),
{
    proof {
        if pos < s@.len() {
            lemma_starts_one(s@, pos as int);
        }
    }
    proof {
        assert forall|v: bool| starts(s@, pos as int, enc_bool(v)) implies s@[pos as int] == (if v {
            'T'
        } else {
            'F'
        }) by {
            assert(s@.subrange(pos as int, pos as int + 1) == enc_bool(v));
            assert(s@.subrange(pos as int, pos as int + 1)[0] == s@[pos as int]);
            assert(enc_bool(v)[0] == (if v { 'T' } else { 'F' }));
        }
    }
    match read_char(s, pos) {
        Some(('T', p)) => Some((true, p)),
        Some(('F', p)) => Some((false, p)),
        _ => None,
    }
}

/// Append a piece of text, length first.
fn write_str(t: &str, out: &mut String)
    requires
        t@.len() < 1000000000,
    ensures
        final(out)@ == old(out)@ + enc_str(t@),
{
    let n = t.unicode_len();
    write_digits(n as u64, 9, out);
    out.append(t);
    proof {
        assert(out@ =~= old(out)@ + enc_str(t@));
    }
}

/// Read a piece of text.
fn read_str(s: &str, pos: usize) -> (r: Option<(String, usize)>)
    ensures
        forall|t: Seq<char>|
            t.len() < 1000000000 && starts(s@, pos as int, enc_str(t)) ==> (r matches Some((u, p))
                && u@ == t && p == pos + 9 + t.len()),
        r matches Some((u, p)) ==> pos <= p <= s@.len() && u@.len() < 1000000000 && p == pos + 9
            + u@.len() && starts(s@, pos as int, enc_str(u@)),
{
    proof {
        assert forall|t: Seq<char>|
            t.len() < 1000000000 && starts(s@, pos as int, enc_str(t)) implies starts(
            s@,
            pos as int,
            enc_digits(t.len(), 9),
        ) && starts(s@, pos + 9, t) && digits_value(enc_digits(t.len(), 9)) == t.len() by {
            lemma_starts_concat(s@, pos as int, enc_digits(t.len(), 9), t);
            lemma_enc_digits(t.len(), 9);
            lemma_pow10_vals();
            lemma_digits_round_trip(t.len(), 9);
        }
    }
    let (n, p1) = match read_digits(s, pos, 9) {
        Some(x) => x,
        None => {
            return None;
        },
    };
    let slen = s.unicode_len();
    if n > (usize::MAX - p1) as u64 {
        return None;
    }
    let end = p1 + n as usize;
    if end > slen {
        proof {
            assert forall|t: Seq<char>|
                t.len() < 1000000000 && starts(s@, pos as int, enc_str(t)) implies false by {
                lemma_enc_digits(t.len(), 9);
            }
        }
        return None;
    }
    let sub = s.substring_char(p1, end);
    let owned = sub.to_owned();
    proof {
        assert forall|t: Seq<char>|
            t.len() < 1000000000 && starts(s@, pos as int, enc_str(t)) implies owned@ == t && end
            == pos + 9 + t.len() by {
            assert(s@.subrange(p1 as int, p1 as int + t.len()) =~= t);
        }
        lemma_pow10_vals();
        assert(owned@ == s@.subrange(p1 as int, p1 as int + n as int));
        assert(starts(s@, p1 as int, owned@));
        assert(n as nat == owned@.len());
        lemma_enc_digits(owned@.len(), 9);
        lemma_starts_join(s@, pos as int, enc_digits(owned@.len(), 9), owned@);
    }
    Some((owned, end))
}


/// The tag character of a palette entry.
pub open spec fn color_char(c: crate::messages::ColorCode) -> char {
    match c {
        crate::messages::ColorCode::White => 'W',
        crate::messages::ColorCode::Red => 'R',
        crate::messages::ColorCode::DarkRed => 'd',
        crate::messages::ColorCode::Green => 'G',
        crate::messages::ColorCode::DesaturatedGreen => 'g',
        crate::messages::ColorCode::DarkerGreen => 'e',
        crate::messages::ColorCode::LightGreen => 'l',
        crate::messages::ColorCode::Yellow => 'Y',
        crate::messages::ColorCode::LightYellow => 'y',
        crate::messages::ColorCode::Orange => 'O',
        crate::messages::ColorCode::Gold => 'o',
        crate::messages::ColorCode::Violet => 'V',
        crate::messages::ColorCode::LightViolet => 'v',
        crate::messages::ColorCode::LightBlue => 'B',
        crate::messages::ColorCode::LightCyan => 'C',
    }
}

/// The encoding of a palette entry.
pub open spec fn enc_color(c: crate::messages::ColorCode) -> Seq<char> {
    seq![color_char(c)]
}

/// Append a palette entry.
fn write_color(c: crate::messages::ColorCode, out: &mut String)
    ensures
        final(out)@ == old(out)@ + enc_color(c),
{
    let ch = match c {
        crate::messages::ColorCode::White => 'W',
        crate::messages::ColorCode::Red => 'R',
        crate::messages::ColorCode::DarkRed => 'd',
        crate::messages::ColorCode::Green => 'G',
        crate::messages::ColorCode::DesaturatedGreen => 'g',
        crate::messages::ColorCode::DarkerGreen => 'e',
        crate::messages::ColorCode::LightGreen => 'l',
        crate::messages::ColorCode::Yellow => 'Y',
        crate::messages::ColorCode::LightYellow => 'y',
        crate::messages::ColorCode::Orange => 'O',
        crate::messages::ColorCode::Gold => 'o',
        crate::messages::ColorCode::Violet => 'V',
        crate::messages::ColorCode::LightViolet => 'v',
        crate::messages::ColorCode::LightBlue => 'B',
        crate::messages::ColorCode::LightCyan => 'C',
    };
    write_char(ch, out);
}

/// Read a palette entry.
fn read_color(s: &str, pos: usize) -> (r: Option<(crate::messages::ColorCode, usize)>)
    ensures
        forall|v: crate::messages::ColorCode|
            starts(s@, pos as int, enc_color(v)) ==> r == Some((v, (pos + 1) as usize)),
        r matches Some((v, p)) ==> p == pos + 1 && pos + 1 <= s@.len() && starts(
            s@,
            pos as int,
            enc_color(v),
        ),
{
    proof {
        if pos < s@.len() {
            lemma_starts_one(s@, pos as int);
        }
    }
    proof {
        assert forall|v: crate::messages::ColorCode|
            starts(s@, pos as int, enc_color(v)) implies s@[pos as int] == color_char(v) by {
            assert(s@.subrange(pos as int, pos as int + 1) == enc_color(v));
            assert(s@.subrange(pos as int, pos as int + 1)[0] == s@[pos as int]);
            assert(enc_color(v)[0] == color_char(v));
        }
    }
    let c = match read_char(s, pos) {
        Some((c, _)) => c,
        None => {
            return None;
        },
    };
    let v = match c {
        'W' => crate::messages::ColorCode::White,
        'R' => crate::messages::ColorCode::Red,
        'd' => crate::messages::ColorCode::DarkRed,
        'G' => crate::messages::ColorCode::Green,
        'g' => crate::messages::ColorCode::DesaturatedGreen,
        'e' => crate::messages::ColorCode::DarkerGreen,
        'l' => crate::messages::ColorCode::LightGreen,
        'Y' => crate::messages::ColorCode::Yellow,
        'y' => crate::messages::ColorCode::LightYellow,
        'O' => crate::messages::ColorCode::Orange,
        'o' => crate::messages::ColorCode::Gold,
        'V' => crate::messages::ColorCode::Violet,
        'v' => crate::messages::ColorCode::LightViolet,
        'B' => crate::messages::ColorCode::LightBlue,
        'C' => crate::messages::ColorCode::LightCyan,
        _ => {
            return None;
        },
    };
    Some((v, pos + 1))
}

/// The tag character of a death transition.
pub open spec fn cb_char(c: crate::object::DeathCallback) -> char {
    match c {
        crate::object::DeathCallback::Player => 'P',
        crate::object::DeathCallback::Monster => 'M',
    }
}

/// The encoding of a death transition.
pub open spec fn enc_cb(c: crate::object::DeathCallback) -> Seq<char> {
    seq![cb_char(c)]
}

/// Append a death transition.
fn write_cb(c: crate::object::DeathCallback, out: &mut String)
    ensures
        final(out)@ == old(out)@ + enc_cb(c),
{
    let ch = match c {
        crate::object::DeathCallback::Player => 'P',
        crate::object::DeathCallback::Monster => 'M',
    };
    write_char(ch, out);
}

/// Read a death transition.
fn read_cb(s: &str, pos: usize) -> (r: Option<(crate::object::DeathCallback, usize)>)
    ensures
        forall|v: crate::object::DeathCallback|
            starts(s@, pos as int, enc_cb(v)) ==> r == Some((v, (pos + 1) as usize)),
        r matches Some((v, p)) ==> p == pos + 1 && pos + 1 <= s@.len() && starts(
            s@,
            pos as int,
            enc_cb(v),
        ),
{
    proof {
        if pos < s@.len() {
            lemma_starts_one(s@, pos as int);
        }
    }
    proof {
        assert forall|v: crate::object::DeathCallback|
            starts(s@, pos as int, enc_cb(v)) implies s@[pos as int] == cb_char(v) by {
            assert(s@.subrange(pos as int, pos as int + 1) == enc_cb(v));
            assert(s@.subrange(pos as int, pos as int + 1)[0] == s@[pos as int]);
            assert(enc_cb(v)[0] == cb_char(v));
        }
    }
    match read_char(s, pos) {
        Some(('P', p)) => Some((crate::object::DeathCallback::Player, p)),
        Some(('M', p)) => Some((crate::object::DeathCallback::Monster, p)),
        _ => None,
    }
}

/// The tag character of an item kind.
pub open spec fn item_char(i: crate::object::Item) -> char {
    match i {
        crate::object::Item::Heal => 'h',
        crate::object::Item::Lightning => 'z',
        crate::object::Item::Confuse => 'c',
        crate::object::Item::Fireball => 'f',
    }
}

/// The encoding of an item kind.
pub open spec fn enc_item(i: crate::object::Item) -> Seq<char> {
    seq![item_char(i)]
}

/// Append an item kind.
fn write_item(i: crate::object::Item, out: &mut String)
    ensures
        final(out)@ == old(out)@ + enc_item(i),
{
    let ch = match i {
        crate::object::Item::Heal => 'h',
        crate::object::Item::Lightning => 'z',
        crate::object::Item::Confuse => 'c',
        crate::object::Item::Fireball => 'f',
    };
    write_char(ch, out);
}

/// Read an item kind.
fn read_item(s: &str, pos: usize) -> (r: Option<(crate::object::Item, usize)>)
    ensures
        forall|v: crate::object::Item|
            starts(s@, pos as int, enc_item(v)) ==> r == Some((v, (pos + 1) as usize)),
        r matches Some((v, p)) ==> p == pos + 1 && pos + 1 <= s@.len() && starts(
            s@,
            pos as int,
            enc_item(v),
        ),
{
    proof {
        if pos < s@.len() {
            lemma_starts_one(s@, pos as int);
        }
    }
    proof {
        assert forall|v: crate::object::Item|
            starts(s@, pos as int, enc_item(v)) implies s@[pos as int] == item_char(v) by {
            assert(s@.subrange(pos as int, pos as int + 1) == enc_item(v));
            assert(s@.subrange(pos as int, pos as int + 1)[0] == s@[pos as int]);
            assert(enc_item(v)[0] == item_char(v));
        }
    }
    match read_char(s, pos) {
        Some(('h', p)) => Some((crate::object::Item::Heal, p)),
        Some(('z', p)) => Some((crate::object::Item::Lightning, p)),
        Some(('c', p)) => Some((crate::object::Item::Confuse, p)),
        Some(('f', p)) => Some((crate::object::Item::Fireball, p)),
        _ => None,
    }
}

/// The encoding of combat statistics.
pub open spec fn enc_fighter(f: crate::object::Fighter) -> Seq<char> {
    enc_i32(f.max_hp as int) + (enc_i32(f.hp as int) + (enc_i32(f.defense as int) + (enc_i32(
        f.power as int,
    ) + (enc_i32(f.xp as int) + enc_cb(f.on_death)))))
}

/// Append combat statistics.
fn write_fighter(f: &crate::object::Fighter, out: &mut String)
    ensures
        final(out)@ == old(out)@ + enc_fighter(*f),
{
    write_i32(f.max_hp, out);
    write_i32(f.hp, out);
    write_i32(f.defense, out);
    write_i32(f.power, out);
    write_i32(f.xp, out);
    write_cb(f.on_death, out);
    proof {
        assert(out@ =~= old(out)@ + enc_fighter(*f));
    }
}

/// Read combat statistics.
fn read_fighter(s: &str, pos: usize) -> (r: Option<(crate::object::Fighter, usize)>)
    ensures
        forall|v: crate::object::Fighter|
            starts(s@, pos as int, enc_fighter(v)) ==> (r matches Some((u, p)) && u == v && p
                == pos + enc_fighter(v).len()),
        r matches Some((v, p)) ==> pos < p <= s@.len() && p == pos + 56 && starts(
            s@,
            pos as int,
            enc_fighter(v),
        ),
{
    proof {
        assert forall|v: crate::object::Fighter|
            starts(s@, pos as int, enc_fighter(v)) implies starts(
            s@,
            pos as int,
            enc_i32(v.max_hp as int),
        ) && starts(s@, pos + 11, enc_i32(v.hp as int)) && starts(
            s@,
            pos + 22,
            enc_i32(v.defense as int),
        ) && starts(s@, pos + 33, enc_i32(v.power as int)) && starts(
            s@,
            pos + 44,
            enc_i32(v.xp as int),
        ) && starts(s@, pos + 55, enc_cb(v.on_death)) && enc_fighter(v).len() == 56 by {
            lemma_enc_digits((if v.max_hp < 0 { -v.max_hp } else { v.max_hp as int }) as nat, 10);
            lemma_enc_digits((if v.hp < 0 { -v.hp } else { v.hp as int }) as nat, 10);
            lemma_enc_digits((if v.defense < 0 { -v.defense } else { v.defense as int }) as nat, 10);
            lemma_enc_digits((if v.power < 0 { -v.power } else { v.power as int }) as nat, 10);
            lemma_enc_digits((if v.xp < 0 { -v.xp } else { v.xp as int }) as nat, 10);
            lemma_starts_concat(
                s@,
                pos as int,
                enc_i32(v.max_hp as int),
                enc_i32(v.hp as int) + (enc_i32(v.defense as int) + (enc_i32(v.power as int) + (
                enc_i32(v.xp as int) + enc_cb(v.on_death)))),
            );
            lemma_starts_concat(
                s@,
                pos + 11,
                enc_i32(v.hp as int),
                enc_i32(v.defense as int) + (enc_i32(v.power as int) + (enc_i32(v.xp as int)
                    + enc_cb(v.on_death))),
            );
            lemma_starts_concat(
                s@,
                pos + 22,
                enc_i32(v.defense as int),
                enc_i32(v.power as int) + (enc_i32(v.xp as int) + enc_cb(v.on_death)),
            );
            lemma_starts_concat(
                s@,
                pos + 33,
                enc_i32(v.power as int),
                enc_i32(v.xp as int) + enc_cb(v.on_death),
            );
            lemma_starts_concat(s@, pos + 44, enc_i32(v.xp as int), enc_cb(v.on_death));
        }
    }
    let (max_hp, p1) = match read_i32(s, pos) {
        Some(x) => x,
        None => {
            return None;
        },
    };
    let (hp, p2) = match read_i32(s, p1) {
        Some(x) => x,
        None => {
            return None;
        },
    };
    let (defense, p3) = match read_i32(s, p2) {
        Some(x) => x,
        None => {
            return None;
        },
    };
    let (power, p4) = match read_i32(s, p3) {
        Some(x) => x,
        None => {
            return None;
        },
    };
    let (xp, p5) = match read_i32(s, p4) {
        Some(x) => x,
        None => {
            return None;
        },
    };
    let (on_death, p6) = match read_cb(s, p5) {
        Some(x) => x,
        None => {
            return None;
        },
    };
    proof {
        lemma_enc_digits((if max_hp < 0 { -max_hp } else { max_hp as int }) as nat, 10);
        lemma_enc_digits((if hp < 0 { -hp } else { hp as int }) as nat, 10);
        lemma_enc_digits((if defense < 0 { -defense } else { defense as int }) as nat, 10);
        lemma_enc_digits((if power < 0 { -power } else { power as int }) as nat, 10);
        lemma_enc_digits((if xp < 0 { -xp } else { xp as int }) as nat, 10);
        lemma_starts_join(s@, pos + 44, enc_i32(xp as int), enc_cb(on_death));
        lemma_starts_join(
            s@,
            pos + 33,
            enc_i32(power as int),
            enc_i32(xp as int) + enc_cb(on_death),
        );
        lemma_starts_join(
            s@,
            pos + 22,
            enc_i32(defense as int),
            enc_i32(power as int) + (enc_i32(xp as int) + enc_cb(on_death)),
        );
        lemma_starts_join(
            s@,
            pos + 11,
            enc_i32(hp as int),
            enc_i32(defense as int) + (enc_i32(power as int) + (enc_i32(xp as int) + enc_cb(
                on_death,
            ))),
        );
        lemma_starts_join(
            s@,
            pos as int,
            enc_i32(max_hp as int),
            enc_i32(hp as int) + (enc_i32(defense as int) + (enc_i32(power as int) + (enc_i32(
                xp as int,
            ) + enc_cb(on_death)))),
        );
    }
    Some((crate::object::Fighter { max_hp, hp, defense, power, xp, on_death }, p6))
}


/// The encoding of an optional fighter component.
pub open spec fn enc_opt_fighter(o: Option<crate::object::Fighter>) -> Seq<char> {
    match o {
        None => seq!['N'],
        Some(f) => seq!['S'] + enc_fighter(f),
    }
}

/// Append an optional fighter component.
fn write_opt_fighter(o: &Option<crate::object::Fighter>, out: &mut String)
    ensures
        final(out)@ == old(out)@ + enc_opt_fighter(*o),
{
    match o {
        None => write_char('N', out),
        Some(f) => {
            write_char('S', out);
            write_fighter(f, out);
            proof {
                assert(out@ =~= old(out)@ + enc_opt_fighter(*o));
            }
        },
    }
}

/// Read an optional fighter component.
fn read_opt_fighter(s: &str, pos: usize) -> (r: Option<(Option<crate::object::Fighter>, usize)>)
    ensures
        forall|v: Option<crate::object::Fighter>|
            starts(s@, pos as int, enc_opt_fighter(v)) ==> (r matches Some((u, p)) && u == v && p
                == pos + enc_opt_fighter(v).len()),
        r matches Some((v, p)) ==> pos < p <= s@.len() && p == pos + enc_opt_fighter(v).len()
            && starts(s@, pos as int, enc_opt_fighter(v)),
{
    proof {
        if pos < s@.len() {
            lemma_starts_one(s@, pos as int);
        }
    }
    proof {
        assert forall|v: Option<crate::object::Fighter>|
            starts(s@, pos as int, enc_opt_fighter(v)) implies s@[pos as int] == (match v {
            None => 'N',
            Some(_) => 'S',
        }) && (v matches Some(f) ==> starts(s@, pos + 1, enc_fighter(f))) by {
            match v {
                None => {
                    assert(s@.subrange(pos as int, pos as int + 1) == enc_opt_fighter(v));
                    assert(s@.subrange(pos as int, pos as int + 1)[0] == s@[pos as int]);
                },
                Some(f) => {
                    lemma_starts_concat(s@, pos as int, seq!['S'], enc_fighter(f));
                    assert(s@.subrange(pos as int, pos as int + 1) == seq!['S']);
                    assert(s@.subrange(pos as int, pos as int + 1)[0] == s@[pos as int]);
                },
            }
        }
    }
    match read_char(s, pos) {
        Some(('N', p)) => Some((None, p)),
        Some(('S', p)) => {
            match read_fighter(s, p) {
                Some((f, p2)) => {
                    proof {
                        lemma_starts_join(s@, pos as int, seq![s@[pos as int]], enc_fighter(f));
                        assert(seq![s@[pos as int]] + enc_fighter(f) =~= enc_opt_fighter(Some(f)));
                    }
                    Some((Some(f), p2))
                },
                None => None,
            }
        },
        _ => None,
    }
}

/// The encoding of a behaviour state: confusion carries its countdown
/// and, recursively, the owned prior state.
pub open spec fn enc_ai(a: crate::object::Ai) -> Seq<char>
    decreases a,
{
    match a {
        crate::object::Ai::Basic => seq!['B'],
        crate::object::Ai::Confused { previous_ai, num_turns } => seq!['C'] + (enc_i32(
            num_turns as int,
        ) + enc_ai(*previous_ai)),
    }
}

/// Append a behaviour state.
fn write_ai(a: &crate::object::Ai, out: &mut String)
    ensures
        final(out)@ == old(out)@ + enc_ai(*a),
    decreases *a,
{
    match a {
        crate::object::Ai::Basic => write_char('B', out),
        crate::object::Ai::Confused { previous_ai, num_turns } => {
            write_char('C', out);
            write_i32(*num_turns, out);
            write_ai(previous_ai, out);
            proof {
                assert(out@ =~= old(out)@ + enc_ai(*a));
            }
        },
    }
}

/// Read a behaviour state.
fn read_ai(s: &str, pos: usize) -> (r: Option<(crate::object::Ai, usize)>)
    ensures
        forall|v: crate::object::Ai|
            starts(s@, pos as int, enc_ai(v)) ==> (r matches Some((u, p)) && u == v && p == pos
                + enc_ai(v).len()),
        r matches Some((u, p)) ==> pos < p <= s@.len() && p == pos + enc_ai(u).len() && starts(
            s@,
            pos as int,
            enc_ai(u),
        ),
    decreases s@.len() - pos,
{
    proof {
        if pos < s@.len() {
            lemma_starts_one(s@, pos as int);
        }
    }
    proof {
        assert forall|v: crate::object::Ai|
            starts(s@, pos as int, enc_ai(v)) implies s@[pos as int] == (match v {
            crate::object::Ai::Basic => 'B',
            crate::object::Ai::Confused { .. } => 'C',
        }) && (v matches crate::object::Ai::Confused { previous_ai, num_turns } ==> starts(
            s@,
            pos + 1,
            enc_i32(num_turns as int),
        ) && starts(s@, pos + 12, enc_ai(*previous_ai)) && enc_ai(v).len() == 12 + enc_ai(
            *previous_ai,
        ).len()) by {
            match v {
                crate::object::Ai::Basic => {
                    assert(s@.subrange(pos as int, pos as int + 1) == enc_ai(v));
                    assert(s@.subrange(pos as int, pos as int + 1)[0] == s@[pos as int]);
                },
                crate::object::Ai::Confused { previous_ai, num_turns } => {
                    lemma_starts_concat(
                        s@,
                        pos as int,
                        seq!['C'],
                        enc_i32(num_turns as int) + enc_ai(*previous_ai),
                    );
                    lemma_starts_concat(
                        s@,
                        pos + 1,
                        enc_i32(num_turns as int),
                        enc_ai(*previous_ai),
                    );
                    lemma_enc_digits(
                        (if num_turns < 0 { -num_turns } else { num_turns as int }) as nat,
                        10,
                    );
                    assert(s@.subrange(pos as int, pos as int + 1) == seq!['C']);
                    assert(s@.subrange(pos as int, pos as int + 1)[0] == s@[pos as int]);
                },
            }
        }
    }
    match read_char(s, pos) {
        Some(('B', p)) => Some((crate::object::Ai::Basic, p)),
        Some(('C', _)) => {
            let (num_turns, p1) = match read_i32(s, pos + 1) {
                Some(x) => x,
                None => {
                    return None;
                },
            };
            let (previous, p2) = match read_ai(s, p1) {
                Some(x) => x,
                None => {
                    return None;
                },
            };
            proof {
                let out = crate::object::Ai::Confused {
                    previous_ai: Box::new(previous),
                    num_turns,
                };
                lemma_enc_digits(
                    (if num_turns < 0 { -num_turns } else { num_turns as int }) as nat,
                    10,
                );
                lemma_starts_join(s@, pos + 1, enc_i32(num_turns as int), enc_ai(previous));
                lemma_starts_join(
                    s@,
                    pos as int,
                    seq![s@[pos as int]],
                    enc_i32(num_turns as int) + enc_ai(previous),
                );
                assert(seq![s@[pos as int]] + (enc_i32(num_turns as int) + enc_ai(previous)) =~= enc_ai(out));
            }
            Some(
                (
                    crate::object::Ai::Confused {
                        previous_ai: Box::new(previous),
                        num_turns,
                    },
                    p2,
                ),
            )
        },
        _ => None,
    }
}

/// The encoding of an optional behaviour state.
pub open spec fn enc_opt_ai(o: Option<crate::object::Ai>) -> Seq<char> {
    match o {
        None => seq!['N'],
        Some(a) => seq!['S'] + enc_ai(a),
    }
}

/// Append an optional behaviour state.
fn write_opt_ai(o: &Option<crate::object::Ai>, out: &mut String)
    ensures
        final(out)@ == old(out)@ + enc_opt_ai(*o),
{
    match o {
        None => write_char('N', out),
        Some(a) => {
            write_char('S', out);
            write_ai(a, out);
            proof {
                assert(out@ =~= old(out)@ + enc_opt_ai(*o));
            }
        },
    }
}

/// Read an optional behaviour state.
fn read_opt_ai(s: &str, pos: usize) -> (r: Option<(Option<crate::object::Ai>, usize)>)
    ensures
        forall|v: Option<crate::object::Ai>|
            starts(s@, pos as int, enc_opt_ai(v)) ==> (r matches Some((u, p)) && u == v && p == pos
                + enc_opt_ai(v).len()),
        r matches Some((u, p)) ==> pos < p <= s@.len() && p == pos + enc_opt_ai(u).len() && starts(
            s@,
            pos as int,
            enc_opt_ai(u),
        ),
{
    proof {
        if pos < s@.len() {
            lemma_starts_one(s@, pos as int);
        }
    }
    proof {
        assert forall|v: Option<crate::object::Ai>|
            starts(s@, pos as int, enc_opt_ai(v)) implies s@[pos as int] == (match v {
            None => 'N',
            Some(_) => 'S',
        }) && (v matches Some(a) ==> starts(s@, pos + 1, enc_ai(a))) by {
            match v {
                None => {
                    assert(s@.subrange(pos as int, pos as int + 1) == enc_opt_ai(v));
                    assert(s@.subrange(pos as int, pos as int + 1)[0] == s@[pos as int]);
                },
                Some(a) => {
                    lemma_starts_concat(s@, pos as int, seq!['S'], enc_ai(a));
                    assert(s@.subrange(pos as int, pos as int + 1) == seq!['S']);
                    assert(s@.subrange(pos as int, pos as int + 1)[0] == s@[pos as int]);
                },
            }
        }
    }
    match read_char(s, pos) {
        Some(('N', p)) => Some((None, p)),
        Some(('S', p)) => {
            match read_ai(s, p) {
                Some((a, p2)) => {
                    proof {
                        lemma_starts_join(s@, pos as int, seq![s@[pos as int]], enc_ai(a));
                        assert(seq![s@[pos as int]] + enc_ai(a) =~= enc_opt_ai(Some(a)));
                    }
                    Some((Some(a), p2))
                },
                None => None,
            }
        },
        _ => None,
    }
}

/// The encoding of an optional item kind.
pub open spec fn enc_opt_item(o: Option<crate::object::Item>) -> Seq<char> {
    match o {
        None => seq!['N'],
        Some(i) => seq!['S'] + enc_item(i),
    }
}

/// Append an optional item kind.
fn write_opt_item(o: &Option<crate::object::Item>, out: &mut String)
    ensures
        final(out)@ == old(out)@ + enc_opt_item(*o),
{
    match o {
        None => write_char('N', out),
        Some(i) => {
            write_char('S', out);
            write_item(*i, out);
            proof {
                assert(out@ =~= old(out)@ + enc_opt_item(*o));
            }
        },
    }
}

/// Read an optional item kind.
fn read_opt_item(s: &str, pos: usize) -> (r: Option<(Option<crate::object::Item>, usize)>)
    ensures
        forall|v: Option<crate::object::Item>|
            starts(s@, pos as int, enc_opt_item(v)) ==> (r matches Some((u, p)) && u == v && p
                == pos + enc_opt_item(v).len()),
        r matches Some((u, p)) ==> pos < p <= s@.len() && p == pos + enc_opt_item(u).len()
            && starts(s@, pos as int, enc_opt_item(u)),
{
    proof {
        if pos < s@.len() {
            lemma_starts_one(s@, pos as int);
        }
    }
    proof {
        assert forall|v: Option<crate::object::Item>|
            starts(s@, pos as int, enc_opt_item(v)) implies s@[pos as int] == (match v {
            None => 'N',
            Some(_) => 'S',
        }) && (v matches Some(i) ==> starts(s@, pos + 1, enc_item(i))) by {
            match v {
                None => {
                    assert(s@.subrange(pos as int, pos as int + 1) == enc_opt_item(v));
                    assert(s@.subrange(pos as int, pos as int + 1)[0] == s@[pos as int]);
                },
                Some(i) => {
                    lemma_starts_concat(s@, pos as int, seq!['S'], enc_item(i));
                    assert(s@.subrange(pos as int, pos as int + 1) == seq!['S']);
                    assert(s@.subrange(pos as int, pos as int + 1)[0] == s@[pos as int]);
                },
            }
        }
    }
    match read_char(s, pos) {
        Some(('N', p)) => Some((None, p)),
        Some(('S', p)) => {
            match read_item(s, p) {
                Some((i, p2)) => {
                    proof {
                        lemma_starts_join(s@, pos as int, seq![s@[pos as int]], enc_item(i));
                        assert(seq![s@[pos as int]] + enc_item(i) =~= enc_opt_item(Some(i)));
                    }
                    Some((Some(i), p2))
                },
                None => None,
            }
        },
        _ => None,
    }
}


/// The encoding of an entity's fixed-width head: position, glyph,
/// color, and the two flags.
pub open spec fn enc_obj_head(o: crate::object::Object) -> Seq<char> {
    enc_i32(o.x as int) + (enc_i32(o.y as int) + (seq![o.glyph] + (enc_color(o.color) + (enc_bool(
        o.blocks,
    ) + enc_bool(o.alive)))))
}

/// The encoding of an entity's tail: the remaining flag, the three
/// optional components, and the level.
pub open spec fn enc_obj_tail(o: crate::object::Object) -> Seq<char> {
    enc_bool(o.always_visible) + (enc_opt_fighter(o.fighter) + (enc_opt_ai(o.ai) + (enc_opt_item(
        o.item,
    ) + enc_i32(o.level as int))))
}

/// The encoding of one entity.
pub open spec fn enc_object(o: crate::object::Object) -> Seq<char> {
    enc_obj_head(o) + (enc_str(o.name@) + enc_obj_tail(o))
}

/// Observational equality of entities: every simulation-relevant field,
/// the name by its text.
pub open spec fn obj_matches(a: crate::object::Object, b: crate::object::Object) -> bool {
    &&& a.x == b.x
    &&& a.y == b.y
    &&& a.glyph == b.glyph
    &&& a.color == b.color
    &&& a.blocks == b.blocks
    &&& a.alive == b.alive
    &&& a.name@ == b.name@
    &&& a.always_visible == b.always_visible
    &&& a.fighter == b.fighter
    &&& a.ai == b.ai
    &&& a.item == b.item
    &&& a.level == b.level
}

/// Append an entity's head fields.
fn write_obj_head(o: &crate::object::Object, out: &mut String)
    ensures
        final(out)@ == old(out)@ + enc_obj_head(*o),
{
    write_i32(o.x, out);
    write_i32(o.y, out);
    write_char(o.glyph, out);
    write_color(o.color, out);
    write_bool(o.blocks, out);
    write_bool(o.alive, out);
    proof {
        assert(out@ =~= old(out)@ + enc_obj_head(*o));
    }
}

/// Append an entity's tail fields.
fn write_obj_tail(o: &crate::object::Object, out: &mut String)
    ensures
        final(out)@ == old(out)@ + enc_obj_tail(*o),
{
    write_bool(o.always_visible, out);
    write_opt_fighter(&o.fighter, out);
    write_opt_ai(&o.ai, out);
    write_opt_item(&o.item, out);
    write_i32(o.level, out);
    proof {
        assert(out@ =~= old(out)@ + enc_obj_tail(*o));
    }
}

/// Append one entity.
fn write_object(o: &crate::object::Object, out: &mut String)
    requires
        o.name@.len() < 1000000000,
    ensures
        final(out)@ == old(out)@ + enc_object(*o),
{
    write_obj_head(o, out);
    write_str(o.name.as_str(), out);
    write_obj_tail(o, out);
    proof {
        assert(out@ =~= old(out)@ + enc_object(*o));
    }
}

/// Read an entity's head fields.
#[verifier::rlimit(100)]
#[verifier::spinoff_prover]
fn read_obj_head(s: &str, pos: usize) -> (r: Option<((i32, i32, char, crate::messages::ColorCode, bool, bool), usize)>)
    ensures
        forall|v: crate::object::Object|
            starts(s@, pos as int, enc_obj_head(v)) ==> (r matches Some((u, p)) && u == (
            v.x,
            v.y,
            v.glyph,
            v.color,
            v.blocks,
            v.alive,
        ) && p == pos + 26),
        r matches Some((v, p)) ==> pos < p <= s@.len() && p == pos + 26 && starts(
            s@,
            pos as int,
            enc_i32(v.0 as int) + (enc_i32(v.1 as int) + (seq![v.2] + (enc_color(v.3) + (enc_bool(
                v.4,
            ) + enc_bool(v.5))))),
        ),
{
    proof {
        assert forall|v: crate::object::Object|
            starts(s@, pos as int, enc_obj_head(v)) implies {
            &&& starts(s@, pos as int, enc_i32(v.x as int))
            &&& starts(s@, pos + 11, enc_i32(v.y as int))
            &&& starts(s@, pos + 22, seq![v.glyph])
            &&& s@[pos + 22] == v.glyph
            &&& starts(s@, pos + 23, enc_color(v.color))
            &&& starts(s@, pos + 24, enc_bool(v.blocks))
            &&& starts(s@, pos + 25, enc_bool(v.alive))
            &&& enc_obj_head(v).len() == 26
        } by {
            lemma_enc_digits((if v.x < 0 { -v.x } else { v.x as int }) as nat, 10);
            lemma_enc_digits((if v.y < 0 { -v.y } else { v.y as int }) as nat, 10);
            let e6 = enc_bool(v.alive);
            let e5 = enc_bool(v.blocks) + e6;
            let e4 = enc_color(v.color) + e5;
            let e3 = seq![v.glyph] + e4;
            let e2 = enc_i32(v.y as int) + e3;
            lemma_starts_concat(s@, pos as int, enc_i32(v.x as int), e2);
            lemma_starts_concat(s@, pos + 11, enc_i32(v.y as int), e3);
            lemma_starts_concat(s@, pos + 22, seq![v.glyph], e4);
            lemma_starts_concat(s@, pos + 23, enc_color(v.color), e5);
            lemma_starts_concat(s@, pos + 24, enc_bool(v.blocks), e6);
            assert(s@.subrange(pos + 22, pos + 23) == seq![v.glyph]);
            assert(s@.subrange(pos + 22, pos + 23)[0] == s@[pos + 22]);
        }
    }
    let (x, p1) = match read_i32(s, pos) {
        Some(v) => v,
        None => {
            return None;
        },
    };
    let (y, p2) = match read_i32(s, p1) {
        Some(v) => v,
        None => {
            return None;
        },
    };
    let (glyph, p3) = match read_char(s, p2) {
        Some(v) => v,
        None => {
            return None;
        },
    };
    let (color, p4) = match read_color(s, p3) {
        Some(v) => v,
        None => {
            return None;
        },
    };
    let (blocks, p5) = match read_bool(s, p4) {
        Some(v) => v,
        None => {
            return None;
        },
    };
    let (alive, p6) = match read_bool(s, p5) {
        Some(v) => v,
        None => {
            return None;
        },
    };
    proof {
        lemma_enc_digits((if x < 0 { -x } else { x as int }) as nat, 10);
        lemma_enc_digits((if y < 0 { -y } else { y as int }) as nat, 10);
        lemma_starts_one(s@, p2 as int);
        lemma_starts_join(s@, p4 as int, enc_bool(blocks), enc_bool(alive));
        lemma_starts_join(s@, p3 as int, enc_color(color), enc_bool(blocks) + enc_bool(alive));
        lemma_starts_join(
            s@,
            p2 as int,
            seq![glyph],
            enc_color(color) + (enc_bool(blocks) + enc_bool(alive)),
        );
        lemma_starts_join(
            s@,
            p1 as int,
            enc_i32(y as int),
            seq![glyph] + (enc_color(color) + (enc_bool(blocks) + enc_bool(alive))),
        );
        lemma_starts_join(
            s@,
            pos as int,
            enc_i32(x as int),
            enc_i32(y as int) + (seq![glyph] + (enc_color(color) + (enc_bool(blocks) + enc_bool(
                alive,
            )))),
        );
    }
    Some(((x, y, glyph, color, blocks, alive), p6))
}

/// Read an entity's tail fields.
#[verifier::rlimit(100)]
#[verifier::spinoff_prover]
fn read_obj_tail(s: &str, pos: usize) -> (r: Option<((bool, Option<crate::object::Fighter>, Option<
    crate::object::Ai,
>, Option<crate::object::Item>, i32), usize)>)
    ensures
        forall|v: crate::object::Object|
            starts(s@, pos as int, enc_obj_tail(v)) ==> (r matches Some((u, p)) && u.0
                == v.always_visible && u.1 == v.fighter && u.2 == v.ai && u.3 == v.item && u.4
                == v.level && p == pos + enc_obj_tail(v).len()),
        r matches Some((v, p)) ==> pos < p <= s@.len() && starts(
            s@,
            pos as int,
            enc_bool(v.0) + (enc_opt_fighter(v.1) + (enc_opt_ai(v.2) + (enc_opt_item(v.3)
                + enc_i32(v.4 as int)))),
        ) && p == pos + 1 + enc_opt_fighter(v.1).len() + enc_opt_ai(v.2).len() + enc_opt_item(
            v.3,
        ).len() + 11,
{
    proof {
        assert forall|v: crate::object::Object|
            starts(s@, pos as int, enc_obj_tail(v)) implies ({
            let q2 = pos + 1;
            let q3 = q2 + enc_opt_fighter(v.fighter).len();
            let q4 = q3 + enc_opt_ai(v.ai).len();
            let q5 = q4 + enc_opt_item(v.item).len();
            &&& starts(s@, pos as int, enc_bool(v.always_visible))
            &&& starts(s@, q2, enc_opt_fighter(v.fighter))
            &&& starts(s@, q3, enc_opt_ai(v.ai))
            &&& starts(s@, q4, enc_opt_item(v.item))
            &&& starts(s@, q5, enc_i32(v.level as int))
            &&& enc_obj_tail(v).len() == q5 + 11 - pos
        }) by {
            lemma_enc_digits((if v.level < 0 { -v.level } else { v.level as int }) as nat, 10);
            let e5 = enc_i32(v.level as int);
            let e4 = enc_opt_item(v.item) + e5;
            let e3 = enc_opt_ai(v.ai) + e4;
            let e2 = enc_opt_fighter(v.fighter) + e3;
            lemma_starts_concat(s@, pos as int, enc_bool(v.always_visible), e2);
            lemma_starts_concat(s@, pos + 1, enc_opt_fighter(v.fighter), e3);
            lemma_starts_concat(s@, pos + 1 + enc_opt_fighter(v.fighter).len(), enc_opt_ai(v.ai), e4);
            lemma_starts_concat(
                s@,
                pos + 1 + enc_opt_fighter(v.fighter).len() + enc_opt_ai(v.ai).len(),
                enc_opt_item(v.item),
                e5,
            );
        }
    }
    let (always_visible, p1) = match read_bool(s, pos) {
        Some(v) => v,
        None => {
            return None;
        },
    };
    let (fighter, p2) = match read_opt_fighter(s, p1) {
        Some(v) => v,
        None => {
            return None;
        },
    };
    let (ai, p3) = match read_opt_ai(s, p2) {
        Some(v) => v,
        None => {
            return None;
        },
    };
    let (item, p4) = match read_opt_item(s, p3) {
        Some(v) => v,
        None => {
            return None;
        },
    };
    let (level, p5) = match read_i32(s, p4) {
        Some(v) => v,
        None => {
            return None;
        },
    };
    proof {
        lemma_starts_join(s@, p3 as int, enc_opt_item(item), enc_i32(level as int));
        lemma_starts_join(
            s@,
            p2 as int,
            enc_opt_ai(ai),
            enc_opt_item(item) + enc_i32(level as int),
        );
        lemma_starts_join(
            s@,
            p1 as int,
            enc_opt_fighter(fighter),
            enc_opt_ai(ai) + (enc_opt_item(item) + enc_i32(level as int)),
        );
        lemma_starts_join(
            s@,
            pos as int,
            enc_bool(always_visible),
            enc_opt_fighter(fighter) + (enc_opt_ai(ai) + (enc_opt_item(item) + enc_i32(
                level as int,
            ))),
        );
    }
    Some(((always_visible, fighter, ai, item, level), p5))
}

/// Read one entity.
#[verifier::rlimit(100)]
#[verifier::spinoff_prover]
fn read_object(s: &str, pos: usize) -> (r: Option<(crate::object::Object, usize)>)
    ensures
        forall|v: crate::object::Object|
            v.name@.len() < 1000000000 && starts(s@, pos as int, enc_object(v)) ==> (r matches Some(
                (u, p),
            ) && obj_matches(u, v) && p == pos + enc_object(v).len()),
        r matches Some((u, p)) ==> pos < p <= s@.len() && u.name@.len() < 1000000000 && p == pos
            + enc_object(u).len() && starts(s@, pos as int, enc_object(u)),
{
    proof {
        assert forall|v: crate::object::Object|
            v.name@.len() < 1000000000 && starts(s@, pos as int, enc_object(v)) implies {
            &&& starts(s@, pos as int, enc_obj_head(v))
            &&& starts(s@, pos + 26, enc_str(v.name@))
            &&& starts(s@, pos + 26 + 9 + v.name@.len(), enc_obj_tail(v))
            &&& enc_object(v).len() == 26 + 9 + v.name@.len() + enc_obj_tail(v).len()
        } by {
            lemma_starts_concat(s@, pos as int, enc_obj_head(v), enc_str(v.name@) + enc_obj_tail(v));
            assert(enc_obj_head(v).len() == 26) by {
                lemma_enc_digits((if v.x < 0 { -v.x } else { v.x as int }) as nat, 10);
                lemma_enc_digits((if v.y < 0 { -v.y } else { v.y as int }) as nat, 10);
            }
            lemma_starts_concat(s@, pos + 26, enc_str(v.name@), enc_obj_tail(v));
            assert(enc_str(v.name@).len() == 9 + v.name@.len()) by {
                lemma_enc_digits(v.name@.len(), 9);
            }
        }
    }
    let (head, p1) = match read_obj_head(s, pos) {
        Some(v) => v,
        None => {
            return None;
        },
    };
    proof {
        assert forall|v: crate::object::Object|
            v.name@.len() < 1000000000 && starts(s@, pos as int, enc_object(v)) implies p1 == pos
            + 26 && starts(s@, p1 as int, enc_str(v.name@)) by {
            assert(starts(s@, pos as int, enc_obj_head(v)));
        }
    }
    let (name, p2) = match read_str(s, p1) {
        Some(v) => v,
        None => {
            return None;
        },
    };
    proof {
        assert forall|v: crate::object::Object|
            v.name@.len() < 1000000000 && starts(s@, pos as int, enc_object(v)) implies p2 == pos
            + 35 + v.name@.len() && name@ == v.name@ && starts(
            s@,
            p2 as int,
            enc_obj_tail(v),
        ) by {
            assert(starts(s@, p1 as int, enc_str(v.name@)));
        }
    }
    let (tail, p3) = match read_obj_tail(s, p2) {
        Some(v) => v,
        None => {
            return None;
        },
    };
    let (x, y, glyph, color, blocks, alive) = head;
    let (always_visible, fighter, ai, item, level) = tail;
    let out = crate::object::Object {
        x,
        y,
        glyph,
        color,
        blocks,
        alive,
        name,
        always_visible,
        fighter,
        ai,
        item,
        level,
    };
    proof {
        assert(enc_obj_head(out) == enc_i32(x as int) + (enc_i32(y as int) + (seq![glyph] + (
        enc_color(color) + (enc_bool(blocks) + enc_bool(alive))))));
        assert(enc_obj_tail(out) == enc_bool(always_visible) + (enc_opt_fighter(fighter) + (
        enc_opt_ai(ai) + (enc_opt_item(item) + enc_i32(level as int)))));
        lemma_enc_digits(out.name@.len(), 9);
        lemma_enc_digits((if level < 0 { -level } else { level as int }) as nat, 10);
        lemma_starts_join(s@, p1 as int, enc_str(out.name@), enc_obj_tail(out));
        assert(enc_obj_head(out).len() == 26) by {
            lemma_enc_digits((if x < 0 { -x } else { x as int }) as nat, 10);
            lemma_enc_digits((if y < 0 { -y } else { y as int }) as nat, 10);
        }
        lemma_starts_join(s@, pos as int, enc_obj_head(out), enc_str(out.name@) + enc_obj_tail(out));
    }
    Some((out, p3))
}


/// The encoding of a run of entities, one after the other.
pub open spec fn enc_object_list(vs: Seq<crate::object::Object>) -> Seq<char>
    decreases vs.len(),
{
    if vs.len() == 0 {
        Seq::empty()
    } else {
        enc_object(vs.first()) + enc_object_list(vs.drop_first())
    }
}

/// The encoding of an entity list: nine digits of count, then the run.
pub open spec fn enc_objects(vs: Seq<crate::object::Object>) -> Seq<char> {
    enc_digits(vs.len(), 9) + enc_object_list(vs)
}

/// Whether an entity list fits the format's bounds.
pub open spec fn objects_encodable(vs: Seq<crate::object::Object>) -> bool {
    &&& vs.len() < 1000000000
    &&& forall|i: int| 0 <= i < vs.len() ==> (#[trigger] vs[i]).name@.len() < 1000000000
}

/// Observational equality of entity lists, pointwise.
pub open spec fn objs_equiv(a: Seq<crate::object::Object>, b: Seq<crate::object::Object>) -> bool {
    &&& a.len() == b.len()
    &&& forall|i: int| 0 <= i < a.len() ==> obj_matches(#[trigger] a[i], #[trigger] b[i])
}

/// Append a run of entities, from index `i` on.
fn write_objects_from(vs: &Vec<crate::object::Object>, i: usize, out: &mut String)
    requires
        i <= vs@.len(),
        objects_encodable(vs@),
    ensures
        final(out)@ == old(out)@ + enc_object_list(vs@.skip(i as int)),
    decreases vs@.len() - i,
{
    if i < vs.len() {
        write_object(&vs[i], out);
        write_objects_from(vs, i + 1, out);
        proof {
            assert(vs@.skip(i as int).first() == vs@[i as int]);
            assert(vs@.skip(i as int).drop_first() =~= vs@.skip(i as int + 1));
            assert(out@ =~= old(out)@ + enc_object_list(vs@.skip(i as int)));
        }
    } else {
        proof {
            assert(vs@.skip(i as int) =~= Seq::<crate::object::Object>::empty());
            assert(final(out)@ =~= old(out)@ + enc_object_list(vs@.skip(i as int)));
        }
    }
}

/// Append an entity list, count first.
fn write_objects(vs: &Vec<crate::object::Object>, out: &mut String)
    requires
        objects_encodable(vs@),
    ensures
        final(out)@ == old(out)@ + enc_objects(vs@),
{
    write_digits(vs.len() as u64, 9, out);
    write_objects_from(vs, 0, out);
    proof {
        assert(vs@.skip(0) =~= vs@);
        assert(out@ =~= old(out)@ + enc_objects(vs@));
    }
}

/// Read exactly `n` entities.
#[verifier::rlimit(100)]
#[verifier::spinoff_prover]
fn read_objects_n(s: &str, pos: usize, n: u64) -> (r: Option<(Vec<crate::object::Object>, usize)>)
    requires
        pos <= s@.len(),
    ensures
        forall|vs: Seq<crate::object::Object>|
            vs.len() == n && objects_encodable(vs) && starts(s@, pos as int, enc_object_list(vs))
                ==> (r matches Some((u, p)) && objs_equiv(u@, vs) && p == pos + enc_object_list(
                vs,
            ).len()),
        r matches Some((u, p)) ==> pos <= p <= s@.len() && u@.len() == n && (forall|i: int|
            0 <= i < u@.len() ==> (#[trigger] u@[i]).name@.len() < 1000000000) && p == pos
            + enc_object_list(u@).len() && starts(s@, pos as int, enc_object_list(u@)),
    decreases n,
{
    if n == 0 {
        let empty: Vec<crate::object::Object> = Vec::new();
        proof {
            assert forall|vs: Seq<crate::object::Object>|
                vs.len() == 0 implies enc_object_list(vs).len() == 0 by {}
            assert(empty@ =~= Seq::<crate::object::Object>::empty());
            assert(s@.subrange(pos as int, pos as int) =~= enc_object_list(empty@));
        }
        return Some((empty, pos));
    }
    proof {
        assert forall|vs: Seq<crate::object::Object>|
            vs.len() == n && objects_encodable(vs) && starts(s@, pos as int, enc_object_list(vs))
            implies vs.first().name@.len() < 1000000000 && starts(
            s@,
            pos as int,
            enc_object(vs.first()),
        ) && starts(s@, pos + enc_object(vs.first()).len(), enc_object_list(vs.drop_first()))
            && objects_encodable(vs.drop_first()) by {
            lemma_starts_concat(
                s@,
                pos as int,
                enc_object(vs.first()),
                enc_object_list(vs.drop_first()),
            );
            assert(vs[0].name@.len() < 1000000000);
            assert forall|i: int| 0 <= i < vs.drop_first().len() implies (#[trigger] vs.drop_first()[
            i]).name@.len() < 1000000000 by {
                assert(vs.drop_first()[i] == vs[i + 1]);
            }
        }
    }
    let (first, p1) = match read_object(s, pos) {
        Some(v) => v,
        None => {
            return None;
        },
    };
    let (rest, p2) = match read_objects_n(s, p1, n - 1) {
        Some(v) => v,
        None => {
            return None;
        },
    };
    let mut combined = rest;
    combined.insert(0, first);
    proof {
        assert forall|vs: Seq<crate::object::Object>|
            vs.len() == n && objects_encodable(vs) && starts(s@, pos as int, enc_object_list(vs))
            implies objs_equiv(combined@, vs) && p2 == pos + enc_object_list(vs).len() by {
            assert(obj_matches(first, vs.first()));
            assert(objs_equiv(rest@, vs.drop_first()));
            assert forall|i: int| 0 <= i < vs.len() implies obj_matches(
                #[trigger] combined@[i],
                #[trigger] vs[i],
            ) by {
                if i == 0 {
                    assert(combined@[0] == first);
                } else {
                    assert(combined@[i] == rest@[i - 1]);
                    assert(vs.drop_first()[i - 1] == vs[i]);
                }
            }
        }
        assert(combined@.first() == first);
        assert(combined@.drop_first() =~= rest@);
        assert(enc_object_list(combined@) == enc_object(first) + enc_object_list(rest@));
        lemma_starts_join(s@, pos as int, enc_object(first), enc_object_list(rest@));
        assert forall|i: int| 0 <= i < combined@.len() implies (#[trigger] combined@[i]).name@.len()
            < 1000000000 by {
            if i > 0 {
                assert(combined@[i] == rest@[i - 1]);
            }
        }
    }
    Some((combined, p2))
}

/// Read an entity list.
fn read_objects(s: &str, pos: usize) -> (r: Option<(Vec<crate::object::Object>, usize)>)
    ensures
        forall|vs: Seq<crate::object::Object>|
            objects_encodable(vs) && starts(s@, pos as int, enc_objects(vs)) ==> (r matches Some(
                (u, p),
            ) && objs_equiv(u@, vs) && p == pos + enc_objects(vs).len()),
        r matches Some((u, p)) ==> pos <= p <= s@.len() && objects_encodable(u@) && p == pos
            + enc_objects(u@).len() && starts(s@, pos as int, enc_objects(u@)),
{
    proof {
        assert forall|vs: Seq<crate::object::Object>|
            objects_encodable(vs) && starts(s@, pos as int, enc_objects(vs)) implies starts(
            s@,
            pos as int,
            enc_digits((vs.len() as u64) as nat, 9),
        ) && starts(s@, pos + 9, enc_object_list(vs)) && digits_value(
            enc_digits((vs.len() as u64) as nat, 9),
        ) == vs.len() as u64 && enc_objects(vs).len() == 9 + enc_object_list(vs).len() by {
            lemma_starts_concat(s@, pos as int, enc_digits(vs.len(), 9), enc_object_list(vs));
            lemma_enc_digits(vs.len(), 9);
            lemma_pow10_vals();
            lemma_digits_round_trip(vs.len(), 9);
            assert((vs.len() as u64) as nat == vs.len());
        }
    }
    let (count, p1) = match read_digits(s, pos, 9) {
        Some(v) => v,
        None => {
            return None;
        },
    };
    match read_objects_n(s, p1, count) {
        Some((u, p2)) => {
            proof {
                lemma_pow10_vals();
                assert(count as nat == u@.len());
                lemma_enc_digits(u@.len(), 9);
                lemma_starts_join(s@, pos as int, enc_digits(u@.len(), 9), enc_object_list(u@));
            }
            Some((u, p2))
        },
        None => None,
    }
}

/// The encoding of one tile: its three flags.
pub open spec fn enc_tile(t: crate::tile::Tile) -> Seq<char> {
    enc_bool(t.blocked) + (enc_bool(t.explored) + enc_bool(t.block_sight))
}

/// The encoding of a run of tiles.
pub open spec fn enc_tile_list(ts: Seq<crate::tile::Tile>) -> Seq<char>
    decreases ts.len(),
{
    if ts.len() == 0 {
        Seq::empty()
    } else {
        enc_tile(ts.first()) + enc_tile_list(ts.drop_first())
    }
}

/// The encoding of the tile grid, column after column.
pub open spec fn enc_map_cols(cols: Seq<Vec<crate::tile::Tile>>) -> Seq<char>
    decreases cols.len(),
{
    if cols.len() == 0 {
        Seq::empty()
    } else {
        enc_tile_list(cols.first()@) + enc_map_cols(cols.drop_first())
    }
}

/// The encoding of a whole level map.
pub open spec fn enc_map(m: crate::tile::TileMap) -> Seq<char> {
    enc_map_cols(m.tiles@)
}

/// A run of tiles encodes to three characters each.
pub proof fn lemma_enc_tile_list_len(ts: Seq<crate::tile::Tile>)
    ensures
        enc_tile_list(ts).len() == 3 * ts.len(),
    decreases ts.len(),
{
    if ts.len() > 0 {
        lemma_enc_tile_list_len(ts.drop_first());
    }
}

/// Append one tile.
fn write_tile(t: crate::tile::Tile, out: &mut String)
    ensures
        final(out)@ == old(out)@ + enc_tile(t),
{
    write_bool(t.blocked, out);
    write_bool(t.explored, out);
    write_bool(t.block_sight, out);
    proof {
        assert(out@ =~= old(out)@ + enc_tile(t));
    }
}

/// Read one tile.
fn read_tile(s: &str, pos: usize) -> (r: Option<(crate::tile::Tile, usize)>)
    ensures
        forall|v: crate::tile::Tile|
            starts(s@, pos as int, enc_tile(v)) ==> r == Some((v, (pos + 3) as usize)),
        r matches Some((v, p)) ==> p == pos + 3 && pos + 3 <= s@.len() && starts(
            s@,
            pos as int,
            enc_tile(v),
        ),
{
    proof {
        assert forall|v: crate::tile::Tile| starts(s@, pos as int, enc_tile(v)) implies starts(
            s@,
            pos as int,
            enc_bool(v.blocked),
        ) && starts(s@, pos + 1, enc_bool(v.explored)) && starts(
            s@,
            pos + 2,
            enc_bool(v.block_sight),
        ) by {
            lemma_starts_concat(
                s@,
                pos as int,
                enc_bool(v.blocked),
                enc_bool(v.explored) + enc_bool(v.block_sight),
            );
            lemma_starts_concat(s@, pos + 1, enc_bool(v.explored), enc_bool(v.block_sight));
        }
    }
    let (blocked, p1) = match read_bool(s, pos) {
        Some(v) => v,
        None => {
            return None;
        },
    };
    let (explored, p2) = match read_bool(s, p1) {
        Some(v) => v,
        None => {
            return None;
        },
    };
    let (block_sight, p3) = match read_bool(s, p2) {
        Some(v) => v,
        None => {
            return None;
        },
    };
    proof {
        lemma_starts_join(s@, p1 as int, enc_bool(explored), enc_bool(block_sight));
        lemma_starts_join(
            s@,
            pos as int,
            enc_bool(blocked),
            enc_bool(explored) + enc_bool(block_sight),
        );
    }
    Some((crate::tile::Tile { blocked, explored, block_sight }, p3))
}

/// Append a run of tiles, from index `i` on.
fn write_tiles_from(ts: &Vec<crate::tile::Tile>, i: usize, out: &mut String)
    requires
        i <= ts@.len(),
    ensures
        final(out)@ == old(out)@ + enc_tile_list(ts@.skip(i as int)),
    decreases ts@.len() - i,
{
    if i < ts.len() {
        write_tile(ts[i], out);
        write_tiles_from(ts, i + 1, out);
        proof {
            assert(ts@.skip(i as int).first() == ts@[i as int]);
            assert(ts@.skip(i as int).drop_first() =~= ts@.skip(i as int + 1));
            assert(out@ =~= old(out)@ + enc_tile_list(ts@.skip(i as int)));
        }
    } else {
        proof {
            assert(ts@.skip(i as int) =~= Seq::<crate::tile::Tile>::empty());
            assert(final(out)@ =~= old(out)@ + enc_tile_list(ts@.skip(i as int)));
        }
    }
}

/// Read exactly `n` tiles.
fn read_tiles_n(s: &str, pos: usize, n: usize) -> (r: Option<(Vec<crate::tile::Tile>, usize)>)
    requires
        pos <= s@.len(),
    ensures
        forall|ts: Seq<crate::tile::Tile>|
            ts.len() == n && starts(s@, pos as int, enc_tile_list(ts)) ==> (r matches Some((u, p))
                && u@ == ts && p == pos + 3 * n),
        r matches Some((u, p)) ==> pos <= p <= s@.len() && u@.len() == n && p == pos + 3 * n
            && starts(s@, pos as int, enc_tile_list(u@)),
    decreases n,
{
    if n == 0 {
        let empty: Vec<crate::tile::Tile> = Vec::new();
        proof {
            assert forall|ts: Seq<crate::tile::Tile>| ts.len() == 0 implies enc_tile_list(ts).len()
                == 0 by {}
            assert(empty@ =~= Seq::<crate::tile::Tile>::empty());
            assert(s@.subrange(pos as int, pos as int) =~= enc_tile_list(empty@));
        }
        return Some((empty, pos));
    }
    proof {
        assert forall|ts: Seq<crate::tile::Tile>|
            ts.len() == n && starts(s@, pos as int, enc_tile_list(ts)) implies starts(
            s@,
            pos as int,
            enc_tile(ts.first()),
        ) && starts(s@, pos + 3, enc_tile_list(ts.drop_first())) by {
            lemma_starts_concat(s@, pos as int, enc_tile(ts.first()), enc_tile_list(ts.drop_first()));
        }
    }
    let (first, p1) = match read_tile(s, pos) {
        Some(v) => v,
        None => {
            return None;
        },
    };
    let (rest, p2) = match read_tiles_n(s, p1, n - 1) {
        Some(v) => v,
        None => {
            return None;
        },
    };
    let mut combined = rest;
    combined.insert(0, first);
    proof {
        assert forall|ts: Seq<crate::tile::Tile>|
            ts.len() == n && starts(s@, pos as int, enc_tile_list(ts)) implies combined@ == ts
            && p2 == pos + 3 * n by {
            assert(rest@ == ts.drop_first());
            assert(combined@ =~= ts);
        }
        assert(combined@.first() == first);
        assert(combined@.drop_first() =~= rest@);
        assert(enc_tile_list(combined@) == enc_tile(first) + enc_tile_list(rest@));
        lemma_starts_join(s@, pos as int, enc_tile(first), enc_tile_list(rest@));
    }
    Some((combined, p2))
}


/// Append a column of tiles.
fn write_map_col(col: &Vec<crate::tile::Tile>, out: &mut String)
    ensures
        final(out)@ == old(out)@ + enc_tile_list(col@),
{
    write_tiles_from(col, 0, out);
    proof {
        assert(col@.skip(0) =~= col@);
    }
}

/// Append the columns of the grid, from index `i` on.
fn write_map_cols_from(cols: &Vec<Vec<crate::tile::Tile>>, i: usize, out: &mut String)
    requires
        i <= cols@.len(),
    ensures
        final(out)@ == old(out)@ + enc_map_cols(cols@.skip(i as int)),
    decreases cols@.len() - i,
{
    if i < cols.len() {
        write_map_col(&cols[i], out);
        write_map_cols_from(cols, i + 1, out);
        proof {
            assert(cols@.skip(i as int).first() == cols@[i as int]);
            assert(cols@.skip(i as int).drop_first() =~= cols@.skip(i as int + 1));
            assert(out@ =~= old(out)@ + enc_map_cols(cols@.skip(i as int)));
        }
    } else {
        proof {
            assert(cols@.skip(i as int) =~= Seq::<Vec<crate::tile::Tile>>::empty());
            assert(final(out)@ =~= old(out)@ + enc_map_cols(cols@.skip(i as int)));
        }
    }
}

/// Append a whole level map.
fn write_map(m: &crate::tile::TileMap, out: &mut String)
    ensures
        final(out)@ == old(out)@ + enc_map(*m),
{
    write_map_cols_from(&m.tiles, 0, out);
    proof {
        assert(m.tiles@.skip(0) =~= m.tiles@);
    }
}

/// Read exactly `n` columns of the fixed height each.
#[verifier::rlimit(100)]
fn read_map_cols_n(s: &str, pos: usize, n: usize) -> (r: Option<(Vec<Vec<crate::tile::Tile>>, usize)>)
    requires
        pos <= s@.len(),
    ensures
        forall|cols: Seq<Vec<crate::tile::Tile>>|
            cols.len() == n && (forall|i: int|
                0 <= i < cols.len() ==> (#[trigger] cols[i])@.len() == crate::MAP_HEIGHT) && starts(
                s@,
                pos as int,
                enc_map_cols(cols),
            ) ==> (r matches Some((u, p)) && u@.len() == n && (forall|i: int|
                0 <= i < n ==> (#[trigger] u@[i])@ == cols[i]@) && p == pos + n * 129),
        r matches Some((u, p)) ==> pos <= p <= s@.len() && u@.len() == n && (forall|i: int|
            0 <= i < n ==> (#[trigger] u@[i])@.len() == crate::MAP_HEIGHT) && p == pos + n * 129
            && starts(s@, pos as int, enc_map_cols(u@)),
    decreases n,
{
    if n == 0 {
        let empty: Vec<Vec<crate::tile::Tile>> = Vec::new();
        proof {
            assert forall|cols: Seq<Vec<crate::tile::Tile>>| cols.len() == 0 implies enc_map_cols(
                cols,
            ).len() == 0 by {}
            assert(empty@ =~= Seq::<Vec<crate::tile::Tile>>::empty());
            assert(s@.subrange(pos as int, pos as int) =~= enc_map_cols(empty@));
        }
        return Some((empty, pos));
    }
    proof {
        assert forall|cols: Seq<Vec<crate::tile::Tile>>|
            cols.len() == n && (forall|i: int|
                0 <= i < cols.len() ==> (#[trigger] cols[i])@.len() == crate::MAP_HEIGHT) && starts(
                s@,
                pos as int,
                enc_map_cols(cols),
            ) implies starts(s@, pos as int, enc_tile_list(cols.first()@)) && starts(
            s@,
            pos + 129,
            enc_map_cols(cols.drop_first()),
        ) && cols.first()@.len() == crate::MAP_HEIGHT && (forall|i: int|
            0 <= i < cols.drop_first().len() ==> (#[trigger] cols.drop_first()[i])@.len()
                == crate::MAP_HEIGHT) by {
            lemma_starts_concat(
                s@,
                pos as int,
                enc_tile_list(cols.first()@),
                enc_map_cols(cols.drop_first()),
            );
            assert(cols[0]@.len() == crate::MAP_HEIGHT);
            lemma_enc_tile_list_len(cols.first()@);
            assert forall|i: int|
                0 <= i < cols.drop_first().len() implies (#[trigger] cols.drop_first()[i])@.len()
                == crate::MAP_HEIGHT by {
                assert(cols.drop_first()[i] == cols[i + 1]);
            }
        }
    }
    let (first, p1) = match read_tiles_n(s, pos, crate::MAP_HEIGHT as usize) {
        Some(v) => v,
        None => {
            return None;
        },
    };
    let (rest, p2) = match read_map_cols_n(s, p1, n - 1) {
        Some(v) => v,
        None => {
            return None;
        },
    };
    let mut combined = rest;
    combined.insert(0, first);
    proof {
        assert forall|cols: Seq<Vec<crate::tile::Tile>>|
            cols.len() == n && (forall|i: int|
                0 <= i < cols.len() ==> (#[trigger] cols[i])@.len() == crate::MAP_HEIGHT) && starts(
                s@,
                pos as int,
                enc_map_cols(cols),
            ) implies (forall|i: int| 0 <= i < n ==> (#[trigger] combined@[i])@ == cols[i]@) && p2
            == pos + n * 129 by {
            assert(first@ == cols.first()@);
            assert forall|i: int| 0 <= i < n implies (#[trigger] combined@[i])@ == cols[i]@ by {
                if i == 0 {
                    assert(combined@[0] == first);
                } else {
                    assert(combined@[i] == rest@[i - 1]);
                    assert(cols.drop_first()[i - 1] == cols[i]);
                }
            }
        }
        assert forall|i: int| 0 <= i < n implies (#[trigger] combined@[i])@.len()
            == crate::MAP_HEIGHT by {
            if i == 0 {
                assert(combined@[0] == first);
            } else {
                assert(combined@[i] == rest@[i - 1]);
            }
        }
        assert(combined@.first() == first);
        assert(combined@.drop_first() =~= rest@);
        assert(enc_map_cols(combined@) == enc_tile_list(first@) + enc_map_cols(rest@));
        lemma_enc_tile_list_len(first@);
        lemma_starts_join(s@, pos as int, enc_tile_list(first@), enc_map_cols(rest@));
    }
    Some((combined, p2))
}

/// Read a whole level map.
fn read_map(s: &str, pos: usize) -> (r: Option<(crate::tile::TileMap, usize)>)
    requires
        pos <= s@.len(),
    ensures
        forall|m: crate::tile::TileMap|
            m.wf() && starts(s@, pos as int, enc_map(m)) ==> (r matches Some((u, p)) && u.wf() && (
            forall|x: int, y: int|
                crate::tile::in_bounds(x, y) ==> #[trigger] u.at(x, y) == m.at(x, y)) && p == pos
                + enc_map(m).len()),
        r matches Some((u, p)) ==> pos <= p <= s@.len() && u.wf() && p == pos + enc_map(u).len()
            && starts(s@, pos as int, enc_map(u)),
{
    proof {
        assert forall|m: crate::tile::TileMap|
            m.wf() && starts(s@, pos as int, enc_map(m)) implies m.tiles@.len() == crate::MAP_WIDTH
            && enc_map(m).len() == crate::MAP_WIDTH * 129 by {
            lemma_enc_map_cols_len(m.tiles@);
        }
    }
    let (tiles, p) = match read_map_cols_n(s, pos, crate::MAP_WIDTH as usize) {
        Some(v) => v,
        None => {
            return None;
        },
    };
    let out = crate::tile::TileMap { tiles };
    proof {
        assert forall|m: crate::tile::TileMap|
            m.wf() && starts(s@, pos as int, enc_map(m)) implies (forall|x: int, y: int|
            crate::tile::in_bounds(x, y) ==> #[trigger] out.at(x, y) == m.at(x, y)) by {
            assert forall|x: int, y: int| crate::tile::in_bounds(x, y) implies #[trigger] out.at(
                x,
                y,
            ) == m.at(x, y) by {
                assert(out.tiles@[x]@ == m.tiles@[x]@);
            }
        }
        assert(enc_map(out) == enc_map_cols(tiles@));
        lemma_enc_map_cols_len(out.tiles@);
    }
    Some((out, p))
}

/// Each well-sized column adds the same fixed run of characters.
proof fn lemma_enc_map_cols_len(cols: Seq<Vec<crate::tile::Tile>>)
    requires
        forall|i: int| 0 <= i < cols.len() ==> (#[trigger] cols[i])@.len() == crate::MAP_HEIGHT,
    ensures
        enc_map_cols(cols).len() == cols.len() * 129,
    decreases cols.len(),
{
    if cols.len() > 0 {
        lemma_enc_tile_list_len(cols.first()@);
        assert forall|i: int|
            0 <= i < cols.drop_first().len() implies (#[trigger] cols.drop_first()[i])@.len()
            == crate::MAP_HEIGHT by {
            assert(cols.drop_first()[i] == cols[i + 1]);
        }
        lemma_enc_map_cols_len(cols.drop_first());
    }
}

/// The encoding of one log entry: its text, then its color.
pub open spec fn enc_entry(e: (String, crate::messages::ColorCode)) -> Seq<char> {
    enc_str(e.0@) + enc_color(e.1)
}

/// The encoding of a run of log entries.
pub open spec fn enc_entry_list(es: Seq<(String, crate::messages::ColorCode)>) -> Seq<char>
    decreases es.len(),
{
    if es.len() == 0 {
        Seq::empty()
    } else {
        enc_entry(es.first()) + enc_entry_list(es.drop_first())
    }
}

/// The encoding of the whole log: nine digits of count, then the run.
pub open spec fn enc_messages(m: crate::messages::Messages) -> Seq<char> {
    enc_digits(m.messages@.len(), 9) + enc_entry_list(m.messages@)
}

/// Whether a log fits the format's bounds.
pub open spec fn messages_encodable(m: crate::messages::Messages) -> bool {
    &&& m.messages@.len() < 1000000000
    &&& forall|i: int|
        0 <= i < m.messages@.len() ==> (#[trigger] m.messages@[i]).0@.len() < 1000000000
}

/// Observational equality of logs: texts and colors, pointwise.
pub open spec fn msgs_equiv(
    a: Seq<(String, crate::messages::ColorCode)>,
    b: Seq<(String, crate::messages::ColorCode)>,
) -> bool {
    &&& a.len() == b.len()
    &&& forall|i: int|
        0 <= i < a.len() ==> (#[trigger] a[i]).0@ == (#[trigger] b[i]).0@ && a[i].1 == b[i].1
}

/// Append a run of log entries, from index `i` on.
fn write_entries_from(
    es: &Vec<(String, crate::messages::ColorCode)>,
    i: usize,
    out: &mut String,
)
    requires
        i <= es@.len(),
        forall|k: int| 0 <= k < es@.len() ==> (#[trigger] es@[k]).0@.len() < 1000000000,
    ensures
        final(out)@ == old(out)@ + enc_entry_list(es@.skip(i as int)),
    decreases es@.len() - i,
{
    if i < es.len() {
        let entry = &es[i];
        write_str(entry.0.as_str(), out);
        write_color(entry.1, out);
        write_entries_from(es, i + 1, out);
        proof {
            assert(es@.skip(i as int).first() == es@[i as int]);
            assert(es@.skip(i as int).drop_first() =~= es@.skip(i as int + 1));
            assert(out@ =~= old(out)@ + enc_entry_list(es@.skip(i as int)));
        }
    } else {
        proof {
            assert(es@.skip(i as int) =~= Seq::<(String, crate::messages::ColorCode)>::empty());
            assert(final(out)@ =~= old(out)@ + enc_entry_list(es@.skip(i as int)));
        }
    }
}

/// Append the whole log.
fn write_messages(m: &crate::messages::Messages, out: &mut String)
    requires
        messages_encodable(*m),
    ensures
        final(out)@ == old(out)@ + enc_messages(*m),
{
    write_digits(m.messages.len() as u64, 9, out);
    write_entries_from(&m.messages, 0, out);
    proof {
        assert(m.messages@.skip(0) =~= m.messages@);
        assert(out@ =~= old(out)@ + enc_messages(*m));
    }
}

/// Read exactly `n` log entries.
#[verifier::rlimit(100)]
fn read_entries_n(s: &str, pos: usize, n: u64) -> (r: Option<(Vec<
    (String, crate::messages::ColorCode),
>, usize)>)
    requires
        pos <= s@.len(),
    ensures
        forall|es: Seq<(String, crate::messages::ColorCode)>|
            es.len() == n && (forall|k: int|
                0 <= k < es.len() ==> (#[trigger] es[k]).0@.len() < 1000000000) && starts(
                s@,
                pos as int,
                enc_entry_list(es),
            ) ==> (r matches Some((u, p)) && msgs_equiv(u@, es) && p == pos + enc_entry_list(
                es,
            ).len()),
        r matches Some((u, p)) ==> pos <= p <= s@.len() && u@.len() == n && (forall|i: int|
            0 <= i < u@.len() ==> (#[trigger] u@[i]).0@.len() < 1000000000) && p == pos
            + enc_entry_list(u@).len() && starts(s@, pos as int, enc_entry_list(u@)),
    decreases n,
{
    if n == 0 {
        let empty: Vec<(String, crate::messages::ColorCode)> = Vec::new();
        proof {
            assert forall|es: Seq<(String, crate::messages::ColorCode)>|
                es.len() == 0 implies enc_entry_list(es).len() == 0 by {}
            assert(empty@ =~= Seq::<(String, crate::messages::ColorCode)>::empty());
            assert(s@.subrange(pos as int, pos as int) =~= enc_entry_list(empty@));
        }
        return Some((empty, pos));
    }
    proof {
        assert forall|es: Seq<(String, crate::messages::ColorCode)>|
            es.len() == n && (forall|k: int|
                0 <= k < es.len() ==> (#[trigger] es[k]).0@.len() < 1000000000) && starts(
                s@,
                pos as int,
                enc_entry_list(es),
            ) implies es.first().0@.len() < 1000000000 && starts(
            s@,
            pos as int,
            enc_str(es.first().0@),
        ) && starts(s@, pos + 9 + es.first().0@.len(), enc_color(es.first().1)) && starts(
            s@,
            pos + 9 + es.first().0@.len() + 1,
            enc_entry_list(es.drop_first()),
        ) && (forall|k: int|
            0 <= k < es.drop_first().len() ==> (#[trigger] es.drop_first()[k]).0@.len()
                < 1000000000) && enc_entry_list(es).len() == 10 + es.first().0@.len()
            + enc_entry_list(es.drop_first()).len() by {
            lemma_starts_concat(s@, pos as int, enc_entry(es.first()), enc_entry_list(es.drop_first()));
            lemma_starts_concat(
                s@,
                pos as int,
                enc_str(es.first().0@),
                enc_color(es.first().1),
            );
            lemma_enc_digits(es.first().0@.len(), 9);
            assert(es[0].0@.len() < 1000000000);
            assert forall|k: int|
                0 <= k < es.drop_first().len() implies (#[trigger] es.drop_first()[k]).0@.len()
                < 1000000000 by {
                assert(es.drop_first()[k] == es[k + 1]);
            }
        }
    }
    let (text, p1) = match read_str(s, pos) {
        Some(v) => v,
        None => {
            return None;
        },
    };
    let (color, p2) = match read_color(s, p1) {
        Some(v) => v,
        None => {
            return None;
        },
    };
    let (rest, p3) = match read_entries_n(s, p2, n - 1) {
        Some(v) => v,
        None => {
            return None;
        },
    };
    let mut combined = rest;
    combined.insert(0, (text, color));
    proof {
        assert forall|es: Seq<(String, crate::messages::ColorCode)>|
            es.len() == n && (forall|k: int|
                0 <= k < es.len() ==> (#[trigger] es[k]).0@.len() < 1000000000) && starts(
                s@,
                pos as int,
                enc_entry_list(es),
            ) implies msgs_equiv(combined@, es) && p3 == pos + enc_entry_list(es).len() by {
            assert(msgs_equiv(rest@, es.drop_first()));
            assert forall|i: int|
                0 <= i < es.len() implies (#[trigger] combined@[i]).0@ == (#[trigger] es[i]).0@
                && combined@[i].1 == es[i].1 by {
                if i == 0 {
                    assert(combined@[0] == (text, color));
                } else {
                    assert(combined@[i] == rest@[i - 1]);
                    assert(es.drop_first()[i - 1] == es[i]);
                }
            }
        }
        assert(combined@.first() == (text, color));
        assert(combined@.drop_first() =~= rest@);
        assert(enc_entry_list(combined@) == enc_entry((text, color)) + enc_entry_list(rest@));
        lemma_enc_digits(text@.len(), 9);
        lemma_starts_join(s@, pos as int, enc_str(text@), enc_color(color));
        assert(enc_entry((text, color)) == enc_str(text@) + enc_color(color));
        lemma_starts_join(s@, pos as int, enc_entry((text, color)), enc_entry_list(rest@));
        assert forall|i: int| 0 <= i < combined@.len() implies (#[trigger] combined@[i]).0@.len()
            < 1000000000 by {
            if i > 0 {
                assert(combined@[i] == rest@[i - 1]);
            }
        }
    }
    Some((combined, p3))
}

/// Read the whole log.
fn read_messages(s: &str, pos: usize) -> (r: Option<(crate::messages::Messages, usize)>)
    ensures
        forall|m: crate::messages::Messages|
            messages_encodable(m) && starts(s@, pos as int, enc_messages(m)) ==> (r matches Some(
                (u, p),
            ) && msgs_equiv(u.messages@, m.messages@) && p == pos + enc_messages(m).len()),
        r matches Some((u, p)) ==> pos <= p <= s@.len() && messages_encodable(u) && p == pos
            + enc_messages(u).len() && starts(s@, pos as int, enc_messages(u)),
{
    proof {
        assert forall|m: crate::messages::Messages|
            messages_encodable(m) && starts(s@, pos as int, enc_messages(m)) implies starts(
            s@,
            pos as int,
            enc_digits((m.messages@.len() as u64) as nat, 9),
        ) && starts(s@, pos + 9, enc_entry_list(m.messages@)) && digits_value(
            enc_digits((m.messages@.len() as u64) as nat, 9),
        ) == m.messages@.len() as u64 && enc_messages(m).len() == 9 + enc_entry_list(
            m.messages@,
        ).len() by {
            lemma_starts_concat(
                s@,
                pos as int,
                enc_digits(m.messages@.len(), 9),
                enc_entry_list(m.messages@),
            );
            lemma_enc_digits(m.messages@.len(), 9);
            lemma_pow10_vals();
            lemma_digits_round_trip(m.messages@.len(), 9);
            assert((m.messages@.len() as u64) as nat == m.messages@.len());
        }
    }
    let (count, p1) = match read_digits(s, pos, 9) {
        Some(v) => v,
        None => {
            return None;
        },
    };
    match read_entries_n(s, p1, count) {
        Some((entries, p2)) => {
            let out = crate::messages::Messages { messages: entries };
            proof {
                lemma_pow10_vals();
                assert(count as nat == entries@.len());
                lemma_enc_digits(entries@.len(), 9);
                assert(enc_messages(out) == enc_digits(entries@.len(), 9) + enc_entry_list(
                    entries@,
                ));
                lemma_starts_join(
                    s@,
                    pos as int,
                    enc_digits(entries@.len(), 9),
                    enc_entry_list(entries@),
                );
            }
            Some((out, p2))
        },
        None => None,
    }
}


/// The encoding of the full session snapshot: map, log, inventory,
/// depth, and the object list, in that order.
pub open spec fn enc_state(game: crate::game::Game, objs: Seq<crate::object::Object>) -> Seq<
    char,
> {
    enc_map(game.map) + (enc_messages(game.messages) + (enc_objects(game.inventory@) + (enc_digits(
        game.dungeon_level as nat,
        10,
    ) + enc_objects(objs))))
}

/// Whether a snapshot fits the format's bounds: a well-formed grid and
/// every list and text under the length fields' capacity.
pub open spec fn state_encodable(game: crate::game::Game, objs: Seq<crate::object::Object>) -> bool {
    &&& game.map.wf()
    &&& messages_encodable(game.messages)
    &&& objects_encodable(game.inventory@)
    &&& objects_encodable(objs)
}

/// Observational equality of snapshots: tile grid, message log,
/// inventory, depth, and entity list, component by component.
pub open spec fn state_equiv(
    g1: crate::game::Game,
    o1: Seq<crate::object::Object>,
    g2: crate::game::Game,
    o2: Seq<crate::object::Object>,
) -> bool {
    &&& g1.map.wf() && g2.map.wf()
    &&& forall|x: int, y: int|
        crate::tile::in_bounds(x, y) ==> #[trigger] g1.map.at(x, y) == g2.map.at(x, y)
    &&& msgs_equiv(g1.messages.messages@, g2.messages.messages@)
    &&& objs_equiv(g1.inventory@, g2.inventory@)
    &&& g1.dungeon_level == g2.dungeon_level
    &&& objs_equiv(o1, o2)
}

/// Serialize the whole session to one text blob.
pub fn save(game: &crate::game::Game, objects: &Vec<crate::object::Object>) -> (r: String)
    requires
        state_encodable(*game, objects@),
    ensures
        r@ == enc_state(*game, objects@),
{
    let mut out = String::new();
    write_map(&game.map, &mut out);
    write_messages(&game.messages, &mut out);
    write_objects(&game.inventory, &mut out);
    write_digits(game.dungeon_level as u64, 10, &mut out);
    write_objects(objects, &mut out);
    proof {
        assert(out@ =~= enc_state(*game, objects@));
    }
    out
}

/// Deserialize a session from a text blob. This is the round-trip
/// promise of the codec: for every snapshot within the format's bounds,
/// a blob that `save` produced for it — any blob beginning with its
/// encoding — loads back to an observationally equal snapshot. And the
/// converse: a successful load means the blob begins with the encoding
/// of exactly the snapshot returned, so nothing is ever fabricated from
/// a corrupt blob — that is reported as unreadable, never a crash.
#[verifier::rlimit(100)]
#[verifier::spinoff_prover]
pub fn load(blob: &str) -> (r: Option<(crate::game::Game, Vec<crate::object::Object>)>)
    ensures
        forall|g: crate::game::Game, o: Seq<crate::object::Object>|
            state_encodable(g, o) && starts(blob@, 0, enc_state(g, o)) ==> (r matches Some(
                (g2, o2),
            ) && state_equiv(g, o, g2, o2@)),
        r matches Some((g2, o2)) ==> state_encodable(g2, o2@) && starts(
            blob@,
            0,
            enc_state(g2, o2@),
        ),
{
    proof {
        assert forall|g: crate::game::Game, o: Seq<crate::object::Object>|
            state_encodable(g, o) && starts(blob@, 0, enc_state(g, o)) implies ({
            let q2 = enc_map(g.map).len() as int;
            let q3 = q2 + enc_messages(g.messages).len();
            let q4 = q3 + enc_objects(g.inventory@).len();
            let q5 = q4 + 10;
            &&& starts(blob@, 0, enc_map(g.map))
            &&& starts(blob@, q2, enc_messages(g.messages))
            &&& starts(blob@, q3, enc_objects(g.inventory@))
            &&& starts(blob@, q4, enc_digits((g.dungeon_level as u64) as nat, 10))
            &&& digits_value(enc_digits((g.dungeon_level as u64) as nat, 10))
                == g.dungeon_level as u64
            &&& starts(blob@, q5, enc_objects(o))
        }) by {
            let e5 = enc_objects(o);
            let e4 = enc_digits(g.dungeon_level as nat, 10) + e5;
            let e3 = enc_objects(g.inventory@) + e4;
            let e2 = enc_messages(g.messages) + e3;
            lemma_starts_concat(blob@, 0, enc_map(g.map), e2);
            lemma_starts_concat(blob@, enc_map(g.map).len() as int, enc_messages(g.messages), e3);
            lemma_starts_concat(
                blob@,
                enc_map(g.map).len() as int + enc_messages(g.messages).len() as int,
                enc_objects(g.inventory@),
                e4,
            );
            lemma_starts_concat(
                blob@,
                enc_map(g.map).len() as int + enc_messages(g.messages).len() as int + enc_objects(
                    g.inventory@,
                ).len() as int,
                enc_digits(g.dungeon_level as nat, 10),
                e5,
            );
            lemma_enc_digits(g.dungeon_level as nat, 10);
            lemma_pow10_vals();
            lemma_digits_round_trip(g.dungeon_level as nat, 10);
            assert((g.dungeon_level as u64) as nat == g.dungeon_level as nat);
        }
    }
    let (map, p1) = match read_map(blob, 0) {
        Some(v) => v,
        None => {
            return None;
        },
    };
    let (messages, p2) = match read_messages(blob, p1) {
        Some(v) => v,
        None => {
            return None;
        },
    };
    let (inventory, p3) = match read_objects(blob, p2) {
        Some(v) => v,
        None => {
            return None;
        },
    };
    let (level_raw, p4) = match read_digits(blob, p3, 10) {
        Some(v) => v,
        None => {
            return None;
        },
    };
    if level_raw > u32::MAX as u64 {
        return None;
    }
    let (objects, _p5) = match read_objects(blob, p4) {
        Some(v) => v,
        None => {
            return None;
        },
    };
    let game = crate::game::Game {
        map,
        messages,
        inventory,
        dungeon_level: level_raw as u32,
    };
    proof {
        assert((game.dungeon_level as u64) as nat == level_raw as nat);
        lemma_enc_digits(game.dungeon_level as nat, 10);
        lemma_starts_join(
            blob@,
            p3 as int,
            enc_digits(game.dungeon_level as nat, 10),
            enc_objects(objects@),
        );
        lemma_starts_join(
            blob@,
            p2 as int,
            enc_objects(game.inventory@),
            enc_digits(game.dungeon_level as nat, 10) + enc_objects(objects@),
        );
        lemma_starts_join(
            blob@,
            p1 as int,
            enc_messages(game.messages),
            enc_objects(game.inventory@) + (enc_digits(game.dungeon_level as nat, 10)
                + enc_objects(objects@)),
        );
        lemma_starts_join(
            blob@,
            0,
            enc_map(game.map),
            enc_messages(game.messages) + (enc_objects(game.inventory@) + (enc_digits(
                game.dungeon_level as nat,
                10,
            ) + enc_objects(objects@))),
        );
        assert(starts(blob@, 0, enc_state(game, objects@)));
    }
    Some((game, objects))
}

} // verus!
