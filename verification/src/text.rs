//! Numbers from and to strings.

use vstd::prelude::*;
use vstd::string::{StringSliceAdditionalSpecFns, StringExecFns};
use crate::units::NumberUnit;
use crate::number::Fdec;
use crate::value::Value;
use crate::parse::{ParseNumberError, parse_text};
use crate::format::{format_text, is_notation_char};

verus! {

/// The characters of a text given by its ASCII bytes.
pub open spec fn ascii_chars(s: Seq<u8>) -> Seq<char> {
    Seq::new(s.len(), |i: int| s[i] as char)
}

/// The text of one character of the notation of a number.
fn char_text(b: u8) -> (r: &'static str)
    requires
        is_notation_char(b),
    ensures
        r@ == seq![b as char],
{
    proof {
        reveal_strlit("-");
        reveal_strlit(".");
        reveal_strlit("0");
        reveal_strlit("1");
        reveal_strlit("2");
        reveal_strlit("3");
        reveal_strlit("4");
        reveal_strlit("5");
        reveal_strlit("6");
        reveal_strlit("7");
        reveal_strlit("8");
        reveal_strlit("9");
        reveal_strlit("I");
        reveal_strlit("N");
        reveal_strlit("a");
        reveal_strlit("f");
        reveal_strlit("i");
        reveal_strlit("n");
        reveal_strlit("t");
        reveal_strlit("y");
    }
    match b {
        45 => "-",
        46 => ".",
        48 => "0",
        49 => "1",
        50 => "2",
        51 => "3",
        52 => "4",
        53 => "5",
        54 => "6",
        55 => "7",
        56 => "8",
        57 => "9",
        73 => "I",
        78 => "N",
        97 => "a",
        102 => "f",
        105 => "i",
        110 => "n",
        116 => "t",
        _ => "y",
    }
}

/// The string of the characters given by their bytes.
fn notation_string(bytes: &Vec<u8>) -> (r: String)
    requires
        forall|i: int| 0 <= i < bytes@.len() ==> is_notation_char(#[trigger] bytes@[i]),
    ensures
        r@ == ascii_chars(bytes@),
{
    let mut s = String::new();
    let mut i: usize = 0;
    proof {
        assert(s@ =~= ascii_chars(bytes@.take(0)));
    }
    while i < bytes.len()
        invariant
            i <= bytes@.len(),
            forall|k: int| 0 <= k < bytes@.len() ==> is_notation_char(#[trigger] bytes@[k]),
            s@ == ascii_chars(bytes@.take(i as int)),
        decreases bytes@.len() - i,
    {
        let ghost before = s@;
        s.append(char_text(bytes[i]));
        proof {
            assert(s@ =~= ascii_chars(bytes@.take(i + 1)));
        }
        i += 1;
    }
    proof {
        assert(bytes@.take(bytes@.len() as int) =~= bytes@);
    }
    s
}

impl<U: NumberUnit, const N: usize, const SCALE: usize> Fdec<U, N, SCALE> {
    /// The number in decimal notation.
    pub fn to_string(&self) -> (r: String)
        requires
            self.wf(),
            SCALE < usize::MAX,
        ensures
            r@ == ascii_chars(format_text(self@, SCALE as nat)),
    {
        let bytes = self.to_text();
        notation_string(&bytes)
    }

    /// The number that the text `s` stands for: an optional sign, then
    /// digits with at most one decimal point. The digits beyond the scale
    /// are dropped.
    pub fn from_str(s: &str) -> (r: Result<Self, ParseNumberError>)
        requires
            Self::valid_params(),
        ensures
            match r {
                Ok(v) => v.wf() && parse_text(s.spec_bytes(), SCALE as nat, Self::limit()) == Ok::<
                    Value,
                    ParseNumberError,
                >(v@),
                Err(e) => parse_text(s.spec_bytes(), SCALE as nat, Self::limit()) == Err::<
                    Value,
                    ParseNumberError,
                >(e),
            },
    {
        Self::parse_bytes(s.as_bytes())
    }
}

impl<U: NumberUnit, const N: usize, const SCALE: usize> core::str::FromStr for Fdec<U, N, SCALE> {
    type Err = ParseNumberError;

    /// The number that the text stands for. A type whose parameters are not
    /// those of a numeric type holds no number: every text overflows it.
    fn from_str(s: &str) -> (r: Result<Self, ParseNumberError>)
        ensures
            !Self::valid_params() ==> r == Err::<Self, ParseNumberError>(
                ParseNumberError::Overflow,
            ),
            Self::valid_params() ==> match r {
                Ok(v) => v.wf() && parse_text(s.spec_bytes(), SCALE as nat, Self::limit()) == Ok::<
                    Value,
                    ParseNumberError,
                >(v@),
                Err(e) => parse_text(s.spec_bytes(), SCALE as nat, Self::limit()) == Err::<
                    Value,
                    ParseNumberError,
                >(e),
            },
    {
        if !Self::has_valid_params() {
            return Err(ParseNumberError::Overflow);
        }
        Self::parse_bytes(s.as_bytes())
    }
}

} // verus!
