//! The version tag carried in the name of an archive entry: the decimal digits
//! of a number, in ASCII, at the end of the name.
use vstd::prelude::*;
use vstd::slice::slice_subrange;
use vstd::string::StringExecFns;
use vstd::string::StringSliceAdditionalSpecFns;
use vstd::utf8::{encode_utf8, valid_utf8};
use crate::text::{digit_char, digit_str};

verus! {

/// How many digits a version tag has.
pub const DIGIT_COUNT: usize = 5;

/// The byte of the digit zero.
pub const ASCII_OFFSET: u8 = 48;

/// The byte of the plus sign.
pub const ASCII_PLUS: u8 = 43;

/// The version of the format that this library writes.
pub const CURRENT: u16 = 1;

/// A version of the archive format.
#[derive(Debug, Clone, Copy, PartialEq, Eq, Structural)]
pub struct Version(pub u16);

/// Why a version could not be read from a name.
#[derive(Debug)]
pub enum Error {
    /// The name is empty. The field is its length.
    TooShort(usize),
    /// The end of the name is not UTF-8.
    NotUtf8,
    /// The end of the name is not a number. The field is that end.
    NotDigit(String),
}

/// Whether a byte is an ASCII decimal digit.
pub open spec fn is_digit(byte: u8) -> bool {
    ASCII_OFFSET <= byte <= ASCII_OFFSET + 9
}

/// Whether all bytes are ASCII decimal digits.
pub open spec fn all_digits(ascii: Seq<u8>) -> bool {
    forall|i: int| 0 <= i < ascii.len() ==> is_digit(#[trigger] ascii[i])
}

/// The number that ASCII decimal digits stand for, most significant first.
pub open spec fn decimal_value(ascii: Seq<u8>) -> nat
    decreases ascii.len(),
{
    if ascii.len() == 0 {
        0
    } else {
        decimal_value(ascii.drop_last()) * 10 + (ascii.last() - ASCII_OFFSET) as nat
    }
}

/// Whether `ascii` is `version` in decimal digits, padded with zeros in front.
pub open spec fn represents(version: nat, ascii: Seq<u8>) -> bool {
    all_digits(ascii) && decimal_value(ascii) == version
}

/// The last `DIGIT_COUNT` bytes of a name, or all of it where it is shorter.
pub open spec fn version_slice(ascii: Seq<u8>) -> Seq<u8> {
    if ascii.len() > DIGIT_COUNT {
        ascii.subrange(ascii.len() - DIGIT_COUNT, ascii.len() as int)
    } else {
        ascii
    }
}

/// The number that a text stands for: digits, after a plus sign or without
/// one, that make a number no larger than 65535. Anything else is no number.
pub open spec fn parsed(ascii: Seq<u8>) -> Option<u16> {
    let digits = if ascii.len() > 0 && ascii[0] == ASCII_PLUS {
        ascii.drop_first()
    } else {
        ascii
    };
    if digits.len() > 0 && all_digits(digits) && decimal_value(digits) <= u16::MAX {
        Some(decimal_value(digits) as u16)
    } else {
        None
    }
}

/// Whether `e` is the reason why no version can be read from the end of `ascii`:
/// that it is empty, that its end is not UTF-8, or that its end is text but no
/// number, with that text.
pub open spec fn refusal_of(e: Error, ascii: Seq<u8>) -> bool {
    if ascii.len() == 0 {
        e == Error::TooShort(0)
    } else if !valid_utf8(version_slice(ascii)) {
        e == Error::NotUtf8
    } else {
        e is NotDigit && encode_utf8(e->NotDigit_0@) == version_slice(ascii)
    }
}

/// The version that can be read from the end of `ascii`, if any.
pub open spec fn version_of(ascii: Seq<u8>) -> Option<u16> {
    if ascii.len() > 0 && valid_utf8(version_slice(ascii)) {
        parsed(version_slice(ascii))
    } else {
        None
    }
}

/// A number in `width` decimal digits, padded with zeros in front.
pub open spec fn padded(n: nat, width: nat) -> Seq<char>
    decreases width,
{
    if width == 0 {
        Seq::empty()
    } else {
        padded(n / 10, (width - 1) as nat).push(digit_char(n % 10))
    }
}

/// A longer number is ten times the number before its last digit, and that
/// digit.
proof fn lemma_value_push(ascii: Seq<u8>, byte: u8)
    ensures
        decimal_value(ascii.push(byte)) == decimal_value(ascii) * 10 + (byte - ASCII_OFFSET) as nat,
{
    assert(ascii.push(byte).drop_last() =~= ascii);
}

/// Digits stand for a number exactly when the last digit is the number's last
/// and the digits before it stand for the rest.
proof fn lemma_represents_last(version: nat, ascii: Seq<u8>)
    requires
        ascii.len() > 0,
    ensures
        represents(version, ascii) == (is_digit(ascii.last()) && ascii.last() - ASCII_OFFSET
            == version % 10 && represents(version / 10, ascii.drop_last())),
{
    let front = ascii.drop_last();
    let last = ascii.last();
    if all_digits(ascii) {
        assert(is_digit(ascii[ascii.len() - 1]));
        assert forall|i: int| 0 <= i < front.len() implies is_digit(#[trigger] front[i]) by {
            assert(front[i] == ascii[i]);
        }
    }
    if is_digit(last) && all_digits(front) {
        assert forall|i: int| 0 <= i < ascii.len() implies is_digit(#[trigger] ascii[i]) by {
            if i < front.len() {
                assert(ascii[i] == front[i]);
            }
        }
    }
}

/// `core::str::from_utf8`: the bytes as text where they are valid UTF-8, and
/// nothing where they are not.
#[verifier::external_body]
fn from_utf8(bytes: &[u8]) -> (r: Option<&str>)
    ensures
        r is Some <==> valid_utf8(bytes@),
        r is Some ==> r->Some_0.spec_bytes() == bytes@,
{
    match core::str::from_utf8(bytes) {
        Ok(text) => Some(text),
        Err(_) => None,
    }
}

/// Whether `ascii` is `version` in decimal digits, padded with zeros in front.
pub fn digits_represents(version: u16, ascii: &[u8]) -> (b: bool)
    ensures
        b == represents(version as nat, ascii@),
{
    let mut rest: u16 = version;
    let mut i: usize = ascii.len();
    proof {
        assert(ascii@.take(i as int) =~= ascii@);
    }
    while i > 0
        invariant
            i <= ascii@.len(),
            represents(version as nat, ascii@) == represents(rest as nat, ascii@.take(i as int)),
        decreases i,
    {
        let byte: u8 = ascii[i - 1];
        proof {
            lemma_represents_last(rest as nat, ascii@.take(i as int));
            assert(ascii@.take(i as int).drop_last() =~= ascii@.take(i - 1));
        }
        if byte < 48 || byte > 57 {
            return false;
        }
        let last_digit: u8 = byte - 48;
        if last_digit as u16 != rest % 10 {
            return false;
        }
        rest = rest / 10;
        i = i - 1;
    }
    rest == 0
}

/// The number that a text stands for: digits, after a plus sign or without
/// one, that make a number no larger than 65535.
pub fn parse(ascii: &[u8]) -> (r: Option<u16>)
    ensures
        r == parsed(ascii@),
{
    let len: usize = ascii.len();
    let start: usize = if len > 0 && ascii[0] == 43 {
        1
    } else {
        0
    };
    let ghost digits = if ascii@.len() > 0 && ascii@[0] == ASCII_PLUS {
        ascii@.drop_first()
    } else {
        ascii@
    };
    proof {
        assert(digits =~= ascii@.subrange(start as int, len as int));
    }
    if start == len {
        return None;
    }
    let mut value: u32 = 0;
    let mut i: usize = start;
    proof {
        assert(digits.take(0) =~= Seq::<u8>::empty());
    }
    while i < len
        invariant
            start <= i <= len,
            len == ascii@.len(),
            digits == ascii@.subrange(start as int, len as int),
            digits == if ascii@.len() > 0 && ascii@[0] == ASCII_PLUS {
                ascii@.drop_first()
            } else {
                ascii@
            },
            all_digits(digits.take(i - start)),
            value == decimal_value(digits.take(i - start)),
            value <= u16::MAX,
        decreases len - i,
    {
        let byte: u8 = ascii[i];
        let ghost seen = digits.take(i - start);
        proof {
            assert(digits[i - start] == byte);
            assert(seen.push(byte) =~= digits.take(i + 1 - start));
            lemma_value_push(seen, byte);
        }
        if byte < 48 || byte > 57 {
            proof {
                assert(!is_digit(digits[i - start]));
            }
            return None;
        }
        value = value * 10 + (byte - 48) as u32;
        proof {
            assert forall|k: int| 0 <= k < seen.push(byte).len() implies is_digit(
                #[trigger] seen.push(byte)[k],
            ) by {
                if k < seen.len() {
                    assert(seen.push(byte)[k] == seen[k]);
                }
            }
        }
        if value > 65535 {
            proof {
                if all_digits(digits) {
                    lemma_value_grows(digits, i + 1 - start);
                }
            }
            return None;
        }
        i = i + 1;
    }
    proof {
        assert(digits.take(len - start) =~= digits);
    }
    Some(value as u16)
}

/// The digits read so far stand for no more than all the digits.
proof fn lemma_value_grows(digits: Seq<u8>, n: int)
    requires
        0 <= n <= digits.len(),
        all_digits(digits),
    ensures
        decimal_value(digits.take(n)) <= decimal_value(digits),
    decreases digits.len() - n,
{
    if n == digits.len() {
        assert(digits.take(n) =~= digits);
    } else {
        assert(is_digit(digits[n]));
        assert(digits.take(n).push(digits[n]) =~= digits.take(n + 1));
        lemma_value_push(digits.take(n), digits[n]);
        lemma_value_grows(digits, n + 1);
    }
}

impl Version {
    /// The number of the version.
    pub open spec fn number(&self) -> nat {
        self.0 as nat
    }

    /// The version of the format that this library writes.
    pub fn current() -> (v: Self)
        ensures
            v.number() == CURRENT,
    {
        Version(CURRENT)
    }

    /// The version that the end of a name stands for.
    ///
    /// The end is the last `DIGIT_COUNT` bytes, or the whole name where it is
    /// shorter. An empty name is too short; an end that is not UTF-8 is
    /// reported as such; an end that is text but no number is handed back as
    /// that text.
    pub fn get_version_slice(ascii: &[u8]) -> (r: Result<u16, Error>)
        ensures
            match version_of(ascii@) {
                Some(version) => r is Ok && r->Ok_0 == version,
                None => r is Err && refusal_of(r->Err_0, ascii@),
            },
    {
        let len: usize = ascii.len();
        if len == 0 {
            return Err(Error::TooShort(len));
        }
        let start: usize = if len > DIGIT_COUNT {
            len - DIGIT_COUNT
        } else {
            0
        };
        let end = slice_subrange(ascii, start, len);
        proof {
            assert(end@ =~= version_slice(ascii@));
        }
        let encoded = match from_utf8(end) {
            Some(encoded) => encoded,
            None => {
                return Err(Error::NotUtf8);
            },
        };
        match parse(end) {
            Some(version) => Ok(version),
            None => Err(Error::NotDigit(String::from_str(encoded))),
        }
    }

    /// True if the last `DIGIT_COUNT` bytes of `ascii` are this version in
    /// decimal digits, padded with zeros in front.
    pub fn digits_represents(self, ascii: &[u8]) -> (b: bool)
        ensures
            b == (ascii@.len() >= DIGIT_COUNT && represents(
                self.number(),
                ascii@.subrange(ascii@.len() - DIGIT_COUNT, ascii@.len() as int),
            )),
    {
        let len: usize = ascii.len();
        if len < DIGIT_COUNT {
            return false;
        }
        digits_represents(self.0, slice_subrange(ascii, len - DIGIT_COUNT, len))
    }

    /// The version as text: `v` and its `DIGIT_COUNT` digits.
    pub fn to_text(&self) -> (s: String)
        ensures
            s@ == seq!['v'] + padded(self.number(), DIGIT_COUNT as nat),
    {
        proof {
            reveal_strlit("v");
        }
        let mut s: String = String::from_str("v");
        push_padded(&mut s, self.0);
        s
    }
}

/// Appends `n` in `DIGIT_COUNT` decimal digits, padded with zeros in front.
pub fn push_padded(out: &mut String, n: u16)
    ensures
        final(out)@ == old(out)@ + padded(n as nat, DIGIT_COUNT as nat),
{
    let d0: u16 = n / 10000;
    let d1: u16 = (n / 1000) % 10;
    let d2: u16 = (n / 100) % 10;
    let d3: u16 = (n / 10) % 10;
    let d4: u16 = n % 10;
    out.append(digit_str(d0));
    out.append(digit_str(d1));
    out.append(digit_str(d2));
    out.append(digit_str(d3));
    out.append(digit_str(d4));
    proof {
        let m = n as nat;
        reveal_with_fuel(padded, 6);
        assert(m / 10 / 10 == m / 100);
        assert(m / 10 / 10 / 10 == m / 1000);
        assert(m / 10 / 10 / 10 / 10 == m / 10000);
        assert((m / 10000) % 10 == m / 10000);
        assert(out@ =~= old(out)@ + padded(m, 5));
    }
}

} // verus!
