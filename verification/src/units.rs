//! The closed symbol vocabulary consumed by the acoustic model: padding,
//! whitespace, literal characters, punctuation marks and phones, each with a
//! canonical string encoding and a parser that accepts exactly those encodings.
use vstd::prelude::*;

use crate::NormError;

verus! {

/// The fixed closed set of punctuation units.
#[derive(Clone, Copy, Debug, PartialEq, Eq, Structural)]
pub enum Punctuation {
    Dash,
    ExclamationMark,
    Apostrophe,
    OpenBracket,
    CloseBracket,
    Comma,
    FullStop,
    Colon,
    SemiColon,
    QuestionMark,
}

/// The fixed phone inventory (ARPA-style codes of one or two letters).
#[derive(Clone, Copy, Debug, PartialEq, Eq, Structural)]
pub enum PhoneBase {
    Aa,
    Ae,
    Ah,
    Ao,
    Aw,
    Ay,
    B,
    Ch,
    D,
    Dh,
    Eh,
    Er,
    Ey,
    F,
    G,
    Hh,
    Ih,
    Iy,
    Jh,
    K,
    L,
    M,
    N,
    Ng,
    Ow,
    Oy,
    P,
    R,
    S,
    Sh,
    T,
    Th,
    Uh,
    Uw,
    V,
    W,
    Y,
    Z,
    Zh,
}

/// Stress marker carried by a vowel phone; the digit suffix of its code.
#[derive(Clone, Copy, Debug, PartialEq, Eq, Structural)]
pub enum Stress {
    Unmarked,
    Unstressed,
    Primary,
    Secondary,
}

/// One phonetic symbol: a base code plus an optional stress marker.
#[derive(Clone, Copy, Debug, PartialEq, Eq, Structural)]
pub struct Phone {
    pub base: PhoneBase,
    pub stress: Stress,
}

/// The atomic output symbol alphabet.
#[derive(Clone, Copy, Debug, PartialEq, Eq, Structural)]
pub enum Unit {
    Padding,
    Space,
    Character(char),
    Punct(Punctuation),
    Phone(Phone),
}

pub open spec fn is_vowel(b: PhoneBase) -> bool {
    match b {
        PhoneBase::Aa | PhoneBase::Ae | PhoneBase::Ah | PhoneBase::Ao | PhoneBase::Aw
            | PhoneBase::Ay | PhoneBase::Eh | PhoneBase::Er | PhoneBase::Ey | PhoneBase::Ih
            | PhoneBase::Iy | PhoneBase::Ow | PhoneBase::Oy | PhoneBase::Uh | PhoneBase::Uw => true,
        _ => false,
    }
}

/// A phone is well formed when only a vowel carries a stress marker.
pub open spec fn phone_wf(p: Phone) -> bool {
    p.stress == Stress::Unmarked || is_vowel(p.base)
}

/// The units whose canonical strings the parser accepts: phones and punctuation.
pub open spec fn parseable(u: Unit) -> bool {
    match u {
        Unit::Punct(_) => true,
        Unit::Phone(p) => phone_wf(p),
        _ => false,
    }
}

pub open spec fn punct_char(p: Punctuation) -> char {
    match p {
        Punctuation::Dash => '-',
        Punctuation::ExclamationMark => '!',
        Punctuation::Apostrophe => '\'',
        Punctuation::OpenBracket => '(',
        Punctuation::CloseBracket => ')',
        Punctuation::Comma => ',',
        Punctuation::FullStop => '.',
        Punctuation::Colon => ':',
        Punctuation::SemiColon => ';',
        Punctuation::QuestionMark => '?',
    }
}

pub open spec fn base_chars(b: PhoneBase) -> Seq<char> {
    match b {
        PhoneBase::Aa => "AA"@,
        PhoneBase::Ae => "AE"@,
        PhoneBase::Ah => "AH"@,
        PhoneBase::Ao => "AO"@,
        PhoneBase::Aw => "AW"@,
        PhoneBase::Ay => "AY"@,
        PhoneBase::B => "B"@,
        PhoneBase::Ch => "CH"@,
        PhoneBase::D => "D"@,
        PhoneBase::Dh => "DH"@,
        PhoneBase::Eh => "EH"@,
        PhoneBase::Er => "ER"@,
        PhoneBase::Ey => "EY"@,
        PhoneBase::F => "F"@,
        PhoneBase::G => "G"@,
        PhoneBase::Hh => "HH"@,
        PhoneBase::Ih => "IH"@,
        PhoneBase::Iy => "IY"@,
        PhoneBase::Jh => "JH"@,
        PhoneBase::K => "K"@,
        PhoneBase::L => "L"@,
        PhoneBase::M => "M"@,
        PhoneBase::N => "N"@,
        PhoneBase::Ng => "NG"@,
        PhoneBase::Ow => "OW"@,
        PhoneBase::Oy => "OY"@,
        PhoneBase::P => "P"@,
        PhoneBase::R => "R"@,
        PhoneBase::S => "S"@,
        PhoneBase::Sh => "SH"@,
        PhoneBase::T => "T"@,
        PhoneBase::Th => "TH"@,
        PhoneBase::Uh => "UH"@,
        PhoneBase::Uw => "UW"@,
        PhoneBase::V => "V"@,
        PhoneBase::W => "W"@,
        PhoneBase::Y => "Y"@,
        PhoneBase::Z => "Z"@,
        PhoneBase::Zh => "ZH"@,
    }
}

pub open spec fn stress_chars(s: Stress) -> Seq<char> {
    match s {
        Stress::Unmarked => Seq::<char>::empty(),
        Stress::Unstressed => seq!['0'],
        Stress::Primary => seq!['1'],
        Stress::Secondary => seq!['2'],
    }
}

/// The canonical string encoding of a unit.
pub open spec fn unit_chars(u: Unit) -> Seq<char> {
    match u {
        Unit::Padding => "<PAD>"@,
        Unit::Space => seq![' '],
        Unit::Character(c) => seq![c],
        Unit::Punct(p) => seq![punct_char(p)],
        Unit::Phone(p) => base_chars(p.base) + stress_chars(p.stress),
    }
}

pub open spec fn punct_of_char(c: char) -> Option<Punctuation> {
    if c == '-' {
        Some(Punctuation::Dash)
    } else if c == '!' {
        Some(Punctuation::ExclamationMark)
    } else if c == '\'' {
        Some(Punctuation::Apostrophe)
    } else if c == '(' {
        Some(Punctuation::OpenBracket)
    } else if c == ')' {
        Some(Punctuation::CloseBracket)
    } else if c == ',' {
        Some(Punctuation::Comma)
    } else if c == '.' {
        Some(Punctuation::FullStop)
    } else if c == ':' {
        Some(Punctuation::Colon)
    } else if c == ';' {
        Some(Punctuation::SemiColon)
    } else if c == '?' {
        Some(Punctuation::QuestionMark)
    } else {
        None
    }
}

pub open spec fn stress_of_char(c: char) -> Option<Stress> {
    if c == '0' {
        Some(Stress::Unstressed)
    } else if c == '1' {
        Some(Stress::Primary)
    } else if c == '2' {
        Some(Stress::Secondary)
    } else {
        None
    }
}

pub open spec fn base_of_1(c: char) -> Option<PhoneBase> {
    if c == 'B' {
        Some(PhoneBase::B)
    } else if c == 'D' {
        Some(PhoneBase::D)
    } else if c == 'F' {
        Some(PhoneBase::F)
    } else if c == 'G' {
        Some(PhoneBase::G)
    } else if c == 'K' {
        Some(PhoneBase::K)
    } else if c == 'L' {
        Some(PhoneBase::L)
    } else if c == 'M' {
        Some(PhoneBase::M)
    } else if c == 'N' {
        Some(PhoneBase::N)
    } else if c == 'P' {
        Some(PhoneBase::P)
    } else if c == 'R' {
        Some(PhoneBase::R)
    } else if c == 'S' {
        Some(PhoneBase::S)
    } else if c == 'T' {
        Some(PhoneBase::T)
    } else if c == 'V' {
        Some(PhoneBase::V)
    } else if c == 'W' {
        Some(PhoneBase::W)
    } else if c == 'Y' {
        Some(PhoneBase::Y)
    } else if c == 'Z' {
        Some(PhoneBase::Z)
    } else {
        None
    }
}

pub open spec fn base_of_2(a: char, b: char) -> Option<PhoneBase> {
    if a == 'A' && b == 'A' {
        Some(PhoneBase::Aa)
    } else if a == 'A' && b == 'E' {
        Some(PhoneBase::Ae)
    } else if a == 'A' && b == 'H' {
        Some(PhoneBase::Ah)
    } else if a == 'A' && b == 'O' {
        Some(PhoneBase::Ao)
    } else if a == 'A' && b == 'W' {
        Some(PhoneBase::Aw)
    } else if a == 'A' && b == 'Y' {
        Some(PhoneBase::Ay)
    } else if a == 'C' && b == 'H' {
        Some(PhoneBase::Ch)
    } else if a == 'D' && b == 'H' {
        Some(PhoneBase::Dh)
    } else if a == 'E' && b == 'H' {
        Some(PhoneBase::Eh)
    } else if a == 'E' && b == 'R' {
        Some(PhoneBase::Er)
    } else if a == 'E' && b == 'Y' {
        Some(PhoneBase::Ey)
    } else if a == 'H' && b == 'H' {
        Some(PhoneBase::Hh)
    } else if a == 'I' && b == 'H' {
        Some(PhoneBase::Ih)
    } else if a == 'I' && b == 'Y' {
        Some(PhoneBase::Iy)
    } else if a == 'J' && b == 'H' {
        Some(PhoneBase::Jh)
    } else if a == 'N' && b == 'G' {
        Some(PhoneBase::Ng)
    } else if a == 'O' && b == 'W' {
        Some(PhoneBase::Ow)
    } else if a == 'O' && b == 'Y' {
        Some(PhoneBase::Oy)
    } else if a == 'S' && b == 'H' {
        Some(PhoneBase::Sh)
    } else if a == 'T' && b == 'H' {
        Some(PhoneBase::Th)
    } else if a == 'U' && b == 'H' {
        Some(PhoneBase::Uh)
    } else if a == 'U' && b == 'W' {
        Some(PhoneBase::Uw)
    } else if a == 'Z' && b == 'H' {
        Some(PhoneBase::Zh)
    } else {
        None
    }
}

pub open spec fn base_of_chars(s: Seq<char>) -> Option<PhoneBase> {
    if s.len() == 1 {
        base_of_1(s[0])
    } else if s.len() == 2 {
        base_of_2(s[0], s[1])
    } else {
        None
    }
}

/// The total parse function over canonical encodings: `Some` exactly on the
/// canonical string of a parseable unit, and then that unit.
pub open spec fn parse_unit_spec(s: Seq<char>) -> Option<Unit> {
    if s.len() == 1 && punct_of_char(s[0]) is Some {
        Some(Unit::Punct(punct_of_char(s[0])->Some_0))
    } else if s.len() >= 2 && stress_of_char(s[s.len() - 1]) is Some {
        match base_of_chars(s.take(s.len() - 1)) {
            Some(b) => if is_vowel(b) {
                Some(Unit::Phone(Phone { base: b, stress: stress_of_char(s[s.len() - 1])->Some_0 }))
            } else {
                None
            },
            None => None,
        }
    } else {
        match base_of_chars(s) {
            Some(b) => Some(Unit::Phone(Phone { base: b, stress: Stress::Unmarked })),
            None => None,
        }
    }
}

} // verus!

verus! {

fn is_vowel_exec(b: PhoneBase) -> (r: bool)
    ensures
        r == is_vowel(b),
{
    match b {
        PhoneBase::Aa | PhoneBase::Ae | PhoneBase::Ah | PhoneBase::Ao | PhoneBase::Aw
            | PhoneBase::Ay | PhoneBase::Eh | PhoneBase::Er | PhoneBase::Ey | PhoneBase::Ih
            | PhoneBase::Iy | PhoneBase::Ow | PhoneBase::Oy | PhoneBase::Uh | PhoneBase::Uw => true,
        _ => false,
    }
}

fn punct_char_exec(p: Punctuation) -> (r: char)
    ensures
        r == punct_char(p),
{
    match p {
        Punctuation::Dash => '-',
        Punctuation::ExclamationMark => '!',
        Punctuation::Apostrophe => '\'',
        Punctuation::OpenBracket => '(',
        Punctuation::CloseBracket => ')',
        Punctuation::Comma => ',',
        Punctuation::FullStop => '.',
        Punctuation::Colon => ':',
        Punctuation::SemiColon => ';',
        Punctuation::QuestionMark => '?',
    }
}

fn base_str(b: PhoneBase) -> (r: &'static str)
    ensures
        r@ == base_chars(b),
{
    match b {
        PhoneBase::Aa => "AA",
        PhoneBase::Ae => "AE",
        PhoneBase::Ah => "AH",
        PhoneBase::Ao => "AO",
        PhoneBase::Aw => "AW",
        PhoneBase::Ay => "AY",
        PhoneBase::B => "B",
        PhoneBase::Ch => "CH",
        PhoneBase::D => "D",
        PhoneBase::Dh => "DH",
        PhoneBase::Eh => "EH",
        PhoneBase::Er => "ER",
        PhoneBase::Ey => "EY",
        PhoneBase::F => "F",
        PhoneBase::G => "G",
        PhoneBase::Hh => "HH",
        PhoneBase::Ih => "IH",
        PhoneBase::Iy => "IY",
        PhoneBase::Jh => "JH",
        PhoneBase::K => "K",
        PhoneBase::L => "L",
        PhoneBase::M => "M",
        PhoneBase::N => "N",
        PhoneBase::Ng => "NG",
        PhoneBase::Ow => "OW",
        PhoneBase::Oy => "OY",
        PhoneBase::P => "P",
        PhoneBase::R => "R",
        PhoneBase::S => "S",
        PhoneBase::Sh => "SH",
        PhoneBase::T => "T",
        PhoneBase::Th => "TH",
        PhoneBase::Uh => "UH",
        PhoneBase::Uw => "UW",
        PhoneBase::V => "V",
        PhoneBase::W => "W",
        PhoneBase::Y => "Y",
        PhoneBase::Z => "Z",
        PhoneBase::Zh => "ZH",
    }
}

/// Relies on `String::from`: the returned string holds exactly the one
/// character it was built from.
#[verifier::external_body]
fn char_to_string(c: char) -> (r: String)
    ensures
        r@ == seq![c],
{
    String::from(c)
}

impl Unit {
    /// Renders the canonical string encoding of this unit.
    pub fn to_canonical_string(&self) -> (r: String)
        ensures
            r@ == unit_chars(*self),
    {
        match self {
            Unit::Padding => {
                let s = String::from_str("<PAD>");
                s
            },
            Unit::Space => {
                let s = char_to_string(' ');
                assert(s@ =~= unit_chars(*self));
                s
            },
            Unit::Character(c) => {
                let s = char_to_string(*c);
                assert(s@ =~= unit_chars(*self));
                s
            },
            Unit::Punct(p) => {
                let s = char_to_string(punct_char_exec(*p));
                assert(s@ =~= unit_chars(*self));
                s
            },
            Unit::Phone(p) => {
                let mut s = String::from_str(base_str(p.base));
                match p.stress {
                    Stress::Unmarked => {},
                    Stress::Unstressed => s.append("0"),
                    Stress::Primary => s.append("1"),
                    Stress::Secondary => s.append("2"),
                }
                proof {
                    reveal_strlit("0");
                    reveal_strlit("1");
                    reveal_strlit("2");
                    assert(s@ =~= base_chars(p.base) + stress_chars(p.stress));
                }
                s
            },
        }
    }
}

/// Parses a canonical phone or punctuation encoding; every other string is
/// rejected as an unrecognized symbol.
pub fn parse_unit(s: &str) -> (r: Result<Unit, NormError>)
    ensures
        r matches Ok(u) ==> parse_unit_spec(s@) == Some(u),
        r is Err ==> parse_unit_spec(s@) is None && r == Err::<Unit, NormError>(
            NormError::UnrecognizedSymbol,
        ),
{
    let n = s.unicode_len();
    if n == 0 || n > 3 {
        return Err(NormError::UnrecognizedSymbol);
    }
    let c_last = s.get_char(n - 1);
    let stress: Option<Stress> = if c_last == '0' {
        Some(Stress::Unstressed)
    } else if c_last == '1' {
        Some(Stress::Primary)
    } else if c_last == '2' {
        Some(Stress::Secondary)
    } else {
        None
    };
    if n == 1 {
        let c = s.get_char(0);
        if let Some(p) = punct_of_char_exec(c) {
            return Ok(Unit::Punct(p));
        }
        if let Some(b) = base_of_1_exec(c) {
            assert(s@.len() == 1);
            return Ok(Unit::Phone(Phone { base: b, stress: Stress::Unmarked }));
        }
        return Err(NormError::UnrecognizedSymbol);
    }
    if let Some(st) = stress {
        // A trailing stress digit: the leading part must name a vowel.
        let b = if n == 2 {
            base_of_1_exec(s.get_char(0))
        } else {
            base_of_2_exec(s.get_char(0), s.get_char(1))
        };
        proof {
            assert(s@.take(s@.len() - 1).len() == s@.len() - 1);
        }
        match b {
            Some(b) if is_vowel_exec(b) => {
                return Ok(Unit::Phone(Phone { base: b, stress: st }));
            },
            _ => {
                return Err(NormError::UnrecognizedSymbol);
            },
        }
    }
    let b = if n == 2 {
        base_of_2_exec(s.get_char(0), s.get_char(1))
    } else {
        None
    };
    match b {
        Some(b) => Ok(Unit::Phone(Phone { base: b, stress: Stress::Unmarked })),
        None => Err(NormError::UnrecognizedSymbol),
    }
}

fn punct_of_char_exec(c: char) -> (r: Option<Punctuation>)
    ensures
        r == punct_of_char(c),
{
    if c == '-' {
        Some(Punctuation::Dash)
    } else if c == '!' {
        Some(Punctuation::ExclamationMark)
    } else if c == '\'' {
        Some(Punctuation::Apostrophe)
    } else if c == '(' {
        Some(Punctuation::OpenBracket)
    } else if c == ')' {
        Some(Punctuation::CloseBracket)
    } else if c == ',' {
        Some(Punctuation::Comma)
    } else if c == '.' {
        Some(Punctuation::FullStop)
    } else if c == ':' {
        Some(Punctuation::Colon)
    } else if c == ';' {
        Some(Punctuation::SemiColon)
    } else if c == '?' {
        Some(Punctuation::QuestionMark)
    } else {
        None
    }
}

fn base_of_1_exec(c: char) -> (r: Option<PhoneBase>)
    ensures
        r == base_of_1(c),
{
    if c == 'B' {
        Some(PhoneBase::B)
    } else if c == 'D' {
        Some(PhoneBase::D)
    } else if c == 'F' {
        Some(PhoneBase::F)
    } else if c == 'G' {
        Some(PhoneBase::G)
    } else if c == 'K' {
        Some(PhoneBase::K)
    } else if c == 'L' {
        Some(PhoneBase::L)
    } else if c == 'M' {
        Some(PhoneBase::M)
    } else if c == 'N' {
        Some(PhoneBase::N)
    } else if c == 'P' {
        Some(PhoneBase::P)
    } else if c == 'R' {
        Some(PhoneBase::R)
    } else if c == 'S' {
        Some(PhoneBase::S)
    } else if c == 'T' {
        Some(PhoneBase::T)
    } else if c == 'V' {
        Some(PhoneBase::V)
    } else if c == 'W' {
        Some(PhoneBase::W)
    } else if c == 'Y' {
        Some(PhoneBase::Y)
    } else if c == 'Z' {
        Some(PhoneBase::Z)
    } else {
        None
    }
}

fn base_of_2_exec(a: char, b: char) -> (r: Option<PhoneBase>)
    ensures
        r == base_of_2(a, b),
{
    if a == 'A' && b == 'A' {
        Some(PhoneBase::Aa)
    } else if a == 'A' && b == 'E' {
        Some(PhoneBase::Ae)
    } else if a == 'A' && b == 'H' {
        Some(PhoneBase::Ah)
    } else if a == 'A' && b == 'O' {
        Some(PhoneBase::Ao)
    } else if a == 'A' && b == 'W' {
        Some(PhoneBase::Aw)
    } else if a == 'A' && b == 'Y' {
        Some(PhoneBase::Ay)
    } else if a == 'C' && b == 'H' {
        Some(PhoneBase::Ch)
    } else if a == 'D' && b == 'H' {
        Some(PhoneBase::Dh)
    } else if a == 'E' && b == 'H' {
        Some(PhoneBase::Eh)
    } else if a == 'E' && b == 'R' {
        Some(PhoneBase::Er)
    } else if a == 'E' && b == 'Y' {
        Some(PhoneBase::Ey)
    } else if a == 'H' && b == 'H' {
        Some(PhoneBase::Hh)
    } else if a == 'I' && b == 'H' {
        Some(PhoneBase::Ih)
    } else if a == 'I' && b == 'Y' {
        Some(PhoneBase::Iy)
    } else if a == 'J' && b == 'H' {
        Some(PhoneBase::Jh)
    } else if a == 'N' && b == 'G' {
        Some(PhoneBase::Ng)
    } else if a == 'O' && b == 'W' {
        Some(PhoneBase::Ow)
    } else if a == 'O' && b == 'Y' {
        Some(PhoneBase::Oy)
    } else if a == 'S' && b == 'H' {
        Some(PhoneBase::Sh)
    } else if a == 'T' && b == 'H' {
        Some(PhoneBase::Th)
    } else if a == 'U' && b == 'H' {
        Some(PhoneBase::Uh)
    } else if a == 'U' && b == 'W' {
        Some(PhoneBase::Uw)
    } else if a == 'Z' && b == 'H' {
        Some(PhoneBase::Zh)
    } else {
        None
    }
}

proof fn reveal_base_literals()
    ensures
        forall|b: PhoneBase| #[trigger] base_chars(b).len() >= 1,
        forall|b: PhoneBase| base_chars(b).len() <= 2,
        forall|b: PhoneBase| #[trigger] base_of_chars(base_chars(b)) == Some(b),
        forall|b: PhoneBase| punct_of_char(base_chars(b)[0]) is None,
        forall|b: PhoneBase| stress_of_char(base_chars(b)[base_chars(b).len() - 1]) is None,
{
    reveal_strlit("AA");
    reveal_strlit("AE");
    reveal_strlit("AH");
    reveal_strlit("AO");
    reveal_strlit("AW");
    reveal_strlit("AY");
    reveal_strlit("B");
    reveal_strlit("CH");
    reveal_strlit("D");
    reveal_strlit("DH");
    reveal_strlit("EH");
    reveal_strlit("ER");
    reveal_strlit("EY");
    reveal_strlit("F");
    reveal_strlit("G");
    reveal_strlit("HH");
    reveal_strlit("IH");
    reveal_strlit("IY");
    reveal_strlit("JH");
    reveal_strlit("K");
    reveal_strlit("L");
    reveal_strlit("M");
    reveal_strlit("N");
    reveal_strlit("NG");
    reveal_strlit("OW");
    reveal_strlit("OY");
    reveal_strlit("P");
    reveal_strlit("R");
    reveal_strlit("S");
    reveal_strlit("SH");
    reveal_strlit("T");
    reveal_strlit("TH");
    reveal_strlit("UH");
    reveal_strlit("UW");
    reveal_strlit("V");
    reveal_strlit("W");
    reveal_strlit("Y");
    reveal_strlit("Z");
    reveal_strlit("ZH");
    assert forall|b: PhoneBase| #[trigger] base_of_chars(base_chars(b)) == Some(b) by {
        if base_chars(b).len() == 1 {
            assert(base_of_chars(base_chars(b)) == base_of_1(base_chars(b)[0]));
        } else {
            assert(base_of_chars(base_chars(b)) == base_of_2(base_chars(b)[0], base_chars(b)[1]));
        }
    }
}

/// Round-trip closure: the canonical string of every well-formed phone or
/// punctuation unit parses back to an equal unit.
pub proof fn lemma_unit_round_trip(u: Unit)
    requires
        parseable(u),
    ensures
        parse_unit_spec(unit_chars(u)) == Some(u),
{
    reveal_base_literals();
    match u {
        Unit::Punct(p) => {
            assert(parse_unit_spec(unit_chars(u)) == Some(u));
        },
        Unit::Phone(p) => {
            let s = unit_chars(u);
            match p.stress {
                Stress::Unmarked => {
                    assert(s =~= base_chars(p.base));
                },
                _ => {
                    assert(s.take(s.len() - 1) =~= base_chars(p.base));
                    assert(stress_of_char(s[s.len() - 1]) == Some(p.stress));
                },
            }
        },
        _ => {},
    }
}

} // verus!
