//! The message log, the palette its entries are tagged with, and the
//! decimal rendering of numbers that message texts embed.

use vstd::prelude::*;

verus! {

/// The palette of the game. Presentation metadata, opaque to the logic:
/// what each code looks like on screen is the renderer's business.
#[derive(Clone, Copy, Debug, PartialEq, Eq, Structural)]
pub enum ColorCode {
    White,
    Red,
    DarkRed,
    Green,
    DesaturatedGreen,
    DarkerGreen,
    LightGreen,
    Yellow,
    LightYellow,
    Orange,
    Gold,
    Violet,
    LightViolet,
    LightBlue,
    LightCyan,
}

/// The ordered, append-only message log.
#[derive(Debug, PartialEq)]
pub struct Messages {
    pub messages: Vec<(String, ColorCode)>,
}

impl Messages {
    pub fn new() -> (r: Messages)
        ensures
            r.messages@ =~= Seq::<(String, ColorCode)>::empty(),
    {
        Messages { messages: Vec::new() }
    }

    /// Append one message; everything already logged stays as it is.
    pub fn add(&mut self, message: String, color: ColorCode)
        ensures
            final(self).messages@ == old(self).messages@.push((message, color)),
    {
        self.messages.push((message, color));
    }

    pub fn len(&self) -> (n: usize)
        ensures
            n == self.messages@.len(),
    {
        self.messages.len()
    }

    pub fn get(&self, i: usize) -> (m: &(String, ColorCode))
        requires
            i < self.messages@.len(),
        ensures
            *m == self.messages@[i as int],
    {
        &self.messages[i]
    }
}

/// The digit character for `d`.
pub open spec fn spec_digit(d: int) -> char {
    if d == 0 { '0' }
    else if d == 1 { '1' }
    else if d == 2 { '2' }
    else if d == 3 { '3' }
    else if d == 4 { '4' }
    else if d == 5 { '5' }
    else if d == 6 { '6' }
    else if d == 7 { '7' }
    else if d == 8 { '8' }
    else { '9' }
}

/// The decimal digits of `n`, most significant first.
pub open spec fn spec_dec_nat(n: nat) -> Seq<char>
    decreases n,
{
    if n < 10 {
        seq![spec_digit(n as int)]
    } else {
        spec_dec_nat(n / 10).push(spec_digit((n % 10) as int))
    }
}

/// The decimal rendering of `n`, with a leading minus sign if negative.
pub open spec fn spec_dec_i32(n: int) -> Seq<char> {
    if n < 0 {
        seq!['-'] + spec_dec_nat((-n) as nat)
    } else {
        spec_dec_nat(n as nat)
    }
}

/// Relies on `String::push`: appends exactly the given character.
#[verifier::external_body]
pub fn push_char(s: &mut String, c: char)
    ensures
        final(s)@ == old(s)@.push(c),
{
    s.push(c);
}

/// The digit character for `d`.
pub fn digit_char(d: u32) -> (c: char)
    requires
        d < 10,
    ensures
        c == spec_digit(d as int),
{
    match d {
        0 => '0',
        1 => '1',
        2 => '2',
        3 => '3',
        4 => '4',
        5 => '5',
        6 => '6',
        7 => '7',
        8 => '8',
        _ => '9',
    }
}

fn write_dec_u32(n: u32, out: &mut String)
    ensures
        final(out)@ == old(out)@ + spec_dec_nat(n as nat),
    decreases n,
{
    if n < 10 {
        push_char(out, digit_char(n));
        proof {
            assert(out@ =~= old(out)@ + spec_dec_nat(n as nat));
        }
    } else {
        write_dec_u32(n / 10, out);
        push_char(out, digit_char(n % 10));
        proof {
            assert(out@ =~= old(out)@ + spec_dec_nat(n as nat));
        }
    }
}

/// The decimal rendering of `n` as a string.
pub fn i32_string(n: i32) -> (r: String)
    ensures
        r@ == spec_dec_i32(n as int),
{
    let mut out = String::new();
    if n < 0 {
        push_char(&mut out, '-');
        let mag: u32 = if n == i32::MIN {
            2147483648u32
        } else {
            (-n) as u32
        };
        write_dec_u32(mag, &mut out);
        proof {
            assert(out@ =~= spec_dec_i32(n as int));
        }
    } else {
        write_dec_u32(n as u32, &mut out);
    }
    out
}

} // verus!
