//! The fixed, ordered model vocabulary: the list of units the acoustic model
//! accepts as input ids, in their id order.
use vstd::prelude::*;

use crate::units::{is_vowel, Phone, PhoneBase, Punctuation, Stress, Unit};

verus! {

/// The phone bases in their id-list order.
pub open spec fn base_order() -> Seq<PhoneBase> {
    seq![
        PhoneBase::Aa, PhoneBase::Ae, PhoneBase::Ah, PhoneBase::Ao, PhoneBase::Aw, PhoneBase::Ay,
        PhoneBase::B, PhoneBase::Ch, PhoneBase::D, PhoneBase::Dh, PhoneBase::Eh, PhoneBase::Er,
        PhoneBase::Ey, PhoneBase::F, PhoneBase::G, PhoneBase::Hh, PhoneBase::Ih, PhoneBase::Iy,
        PhoneBase::Jh, PhoneBase::K, PhoneBase::L, PhoneBase::M, PhoneBase::N, PhoneBase::Ng,
        PhoneBase::Ow, PhoneBase::Oy, PhoneBase::P, PhoneBase::R, PhoneBase::S, PhoneBase::Sh,
        PhoneBase::T, PhoneBase::Th, PhoneBase::Uh, PhoneBase::Uw, PhoneBase::V, PhoneBase::W,
        PhoneBase::Y, PhoneBase::Z, PhoneBase::Zh,
    ]
}

/// The id-list entries one base contributes: a vowel appears unmarked and
/// with each stress digit, a consonant only unmarked.
pub open spec fn base_units(b: PhoneBase) -> Seq<Unit> {
    if is_vowel(b) {
        seq![
            Unit::Phone(Phone { base: b, stress: Stress::Unmarked }),
            Unit::Phone(Phone { base: b, stress: Stress::Unstressed }),
            Unit::Phone(Phone { base: b, stress: Stress::Primary }),
            Unit::Phone(Phone { base: b, stress: Stress::Secondary }),
        ]
    } else {
        seq![Unit::Phone(Phone { base: b, stress: Stress::Unmarked })]
    }
}

pub open spec fn phones_from(i: int) -> Seq<Unit>
    decreases base_order().len() - i,
{
    if i < 0 || i >= base_order().len() {
        Seq::empty()
    } else {
        base_units(base_order()[i]) + phones_from(i + 1)
    }
}

/// The non-phone prefix of the id list: padding, punctuation, space.
pub open spec fn prefix_units() -> Seq<Unit> {
    seq![
        Unit::Padding,
        Unit::Punct(Punctuation::Dash),
        Unit::Punct(Punctuation::ExclamationMark),
        Unit::Punct(Punctuation::Apostrophe),
        Unit::Punct(Punctuation::OpenBracket),
        Unit::Punct(Punctuation::CloseBracket),
        Unit::Punct(Punctuation::Comma),
        Unit::Punct(Punctuation::FullStop),
        Unit::Punct(Punctuation::Colon),
        Unit::Punct(Punctuation::SemiColon),
        Unit::Punct(Punctuation::QuestionMark),
        Unit::Space,
    ]
}

/// The ASCII letters, upper case then lower case, as character units.
pub open spec fn char_units() -> Seq<Unit> {
    Seq::new(52, |i: int| Unit::Character(
        if i < 26 {
            ((65 + i) as u8) as char
        } else {
            ((97 + i - 26) as u8) as char
        },
    ))
}

/// The whole id list, in order.
pub open spec fn id_list_spec() -> Seq<Unit> {
    prefix_units() + char_units() + phones_from(0)
}

fn base_vec() -> (r: Vec<PhoneBase>)
    ensures
        r@ == base_order(),
{
    let mut v: Vec<PhoneBase> = Vec::new();
    v.push(PhoneBase::Aa);
    v.push(PhoneBase::Ae);
    v.push(PhoneBase::Ah);
    v.push(PhoneBase::Ao);
    v.push(PhoneBase::Aw);
    v.push(PhoneBase::Ay);
    v.push(PhoneBase::B);
    v.push(PhoneBase::Ch);
    v.push(PhoneBase::D);
    v.push(PhoneBase::Dh);
    v.push(PhoneBase::Eh);
    v.push(PhoneBase::Er);
    v.push(PhoneBase::Ey);
    v.push(PhoneBase::F);
    v.push(PhoneBase::G);
    v.push(PhoneBase::Hh);
    v.push(PhoneBase::Ih);
    v.push(PhoneBase::Iy);
    v.push(PhoneBase::Jh);
    v.push(PhoneBase::K);
    v.push(PhoneBase::L);
    v.push(PhoneBase::M);
    v.push(PhoneBase::N);
    v.push(PhoneBase::Ng);
    v.push(PhoneBase::Ow);
    v.push(PhoneBase::Oy);
    v.push(PhoneBase::P);
    v.push(PhoneBase::R);
    v.push(PhoneBase::S);
    v.push(PhoneBase::Sh);
    v.push(PhoneBase::T);
    v.push(PhoneBase::Th);
    v.push(PhoneBase::Uh);
    v.push(PhoneBase::Uw);
    v.push(PhoneBase::V);
    v.push(PhoneBase::W);
    v.push(PhoneBase::Y);
    v.push(PhoneBase::Z);
    v.push(PhoneBase::Zh);
    proof {
        assert(v@ =~= base_order());
    }
    v
}

/// Builds the ordered unit list the acoustic model's input ids stand for.
pub fn generate_id_list() -> (r: Vec<Unit>)
    ensures
        r@ == id_list_spec(),
{
    let mut res: Vec<Unit> = Vec::new();
    res.push(Unit::Padding);
    res.push(Unit::Punct(Punctuation::Dash));
    res.push(Unit::Punct(Punctuation::ExclamationMark));
    res.push(Unit::Punct(Punctuation::Apostrophe));
    res.push(Unit::Punct(Punctuation::OpenBracket));
    res.push(Unit::Punct(Punctuation::CloseBracket));
    res.push(Unit::Punct(Punctuation::Comma));
    res.push(Unit::Punct(Punctuation::FullStop));
    res.push(Unit::Punct(Punctuation::Colon));
    res.push(Unit::Punct(Punctuation::SemiColon));
    res.push(Unit::Punct(Punctuation::QuestionMark));
    res.push(Unit::Space);
    proof {
        assert(res@ =~= prefix_units());
    }
    let mut b: u8 = 65;
    while b <= 90
        invariant
            65 <= b <= 91,
            res@.len() == prefix_units().len() + (b - 65),
            res@ =~= prefix_units() + char_units().take(b - 65),
        decreases 91 - b,
    {
        res.push(Unit::Character(b as char));
        b += 1;
        proof {
            assert(res@ =~= prefix_units() + char_units().take(b - 65));
        }
    }
    let mut b: u8 = 97;
    while b <= 122
        invariant
            97 <= b <= 123,
            res@ =~= prefix_units() + char_units().take(26 + (b - 97)),
        decreases 123 - b,
    {
        res.push(Unit::Character(b as char));
        b += 1;
        proof {
            assert(res@ =~= prefix_units() + char_units().take(26 + (b - 97)));
        }
    }
    proof {
        assert(char_units().take(52) =~= char_units());
    }
    let bases = base_vec();
    let mut i: usize = 0;
    while i < bases.len()
        invariant
            0 <= i <= bases@.len(),
            bases@ == base_order(),
            id_list_spec() =~= res@ + phones_from(i as int),
        decreases bases@.len() - i,
    {
        let base = bases[i];
        let ghost r0 = res@;
        res.push(Unit::Phone(Phone { base, stress: Stress::Unmarked }));
        if is_vowel_pub(base) {
            res.push(Unit::Phone(Phone { base, stress: Stress::Unstressed }));
            res.push(Unit::Phone(Phone { base, stress: Stress::Primary }));
            res.push(Unit::Phone(Phone { base, stress: Stress::Secondary }));
        }
        proof {
            assert(res@ =~= r0 + base_units(base_order()[i as int]));
            assert((r0 + base_units(base_order()[i as int])) + phones_from(i as int + 1) =~= r0 + (
            base_units(base_order()[i as int]) + phones_from(i as int + 1)));
        }
        i += 1;
    }
    proof {
        assert(phones_from(bases@.len() as int) =~= Seq::<Unit>::empty());
        assert(res@ + Seq::<Unit>::empty() =~= res@);
    }
    res
}

fn is_vowel_pub(b: PhoneBase) -> (r: bool)
    ensures
        r == is_vowel(b),
{
    match b {
        PhoneBase::Aa | PhoneBase::Ae | PhoneBase::Ah | PhoneBase::Ao | PhoneBase::Aw
            | PhoneBase::Ay | PhoneBase::Eh | PhoneBase::Er | PhoneBase::Ey | PhoneBase::Ih
            | PhoneBase::Iy | PhoneBase::Ow | PhoneBase::Oy | PhoneBase::Uh | PhoneBase::Uw => true,
        _ => false,
    }
}

} // verus!
