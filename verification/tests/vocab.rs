use tts_frontend::id_list::generate_id_list;
use tts_frontend::units::{parse_unit, Phone, PhoneBase, Punctuation, Stress, Unit};
use tts_frontend::NormError;

#[test]
fn unit_round_trip() {
    let units = [
        Unit::Phone(Phone { base: PhoneBase::Aa, stress: Stress::Primary }),
        Unit::Phone(Phone { base: PhoneBase::Zh, stress: Stress::Unmarked }),
        Unit::Phone(Phone { base: PhoneBase::Uw, stress: Stress::Unstressed }),
        Unit::Phone(Phone { base: PhoneBase::B, stress: Stress::Unmarked }),
        Unit::Punct(Punctuation::Comma),
        Unit::Punct(Punctuation::Dash),
        Unit::Punct(Punctuation::QuestionMark),
    ];
    for u in units {
        let s = u.to_canonical_string();
        assert_eq!(parse_unit(&s).unwrap(), u);
    }
}

#[test]
fn parse_rejects_unknown_symbols() {
    for s in ["", "Q", "AA3", "B1", "HELLO", "aa", "1"] {
        assert_eq!(parse_unit(s).unwrap_err(), NormError::UnrecognizedSymbol);
    }
}

#[test]
fn id_list_contents() {
    let ids = generate_id_list();
    assert_eq!(ids.len(), 12 + 52 + 84);
    assert_eq!(ids[0], Unit::Padding);
    assert_eq!(ids[1], Unit::Punct(Punctuation::Dash));
    assert_eq!(ids[11], Unit::Space);
    assert_eq!(ids[12], Unit::Character('A'));
    assert_eq!(ids[63], Unit::Character('z'));
    assert_eq!(ids[64], Unit::Phone(Phone { base: PhoneBase::Aa, stress: Stress::Unmarked }));
    assert_eq!(ids[65], Unit::Phone(Phone { base: PhoneBase::Aa, stress: Stress::Unstressed }));
    assert_eq!(ids[147], Unit::Phone(Phone { base: PhoneBase::Zh, stress: Stress::Unmarked }));
}
