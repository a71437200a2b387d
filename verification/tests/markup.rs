use tts_frontend::chunks::NormaliserChunk;
use tts_frontend::sayas::interpret;
use tts_frontend::ssml::{normalise_ssml, process_events, SsmlEvent};
use tts_frontend::NormError;

#[test]
fn ssml_text_normalisation() {
    let text = r#"<speak>
        <say-as interpret-as="characters">SSML</say-as> 
        </speak>"#;
    let expected = "S S M L";

    assert_eq!(normalise_ssml(text).unwrap().text(), expected);

    let text = r#"<speak>
        <say-as interpret-as="cardinal">10</say-as> 
        </speak>"#;
    let expected = "TEN";

    assert_eq!(normalise_ssml(text).unwrap().text(), expected);

    let text = r#"<speak>
        <say-as interpret-as="ordinal">10</say-as>
        </speak>"#;
    let expected = "TENTH";

    assert_eq!(normalise_ssml(text).unwrap().text(), expected);

    let text = r#"<speak>
        <sub alias="World Wide Web Consortium">W3C</sub>#";
        </speak>"#;
    let expected = "WORLD WIDE WEB CONSORTIUM";

    assert_eq!(normalise_ssml(text).unwrap().text(), expected);

    let text = r#"<speak>
        <say-as interpret-as="characters">10</say-as>.
        </speak>"#;
    let expected = "ONE ZERO";

    assert_eq!(normalise_ssml(text).unwrap().text(), expected);
}

#[test]
fn say_as_scenarios() {
    match interpret("characters", "SSML").unwrap() {
        NormaliserChunk::Text(t) => assert_eq!(t, "S S M L"),
        _ => panic!("expected a text chunk"),
    }
    match interpret("cardinal", "10").unwrap() {
        NormaliserChunk::Text(t) => assert_eq!(t, "TEN"),
        _ => panic!("expected a text chunk"),
    }
    match interpret("ordinal", "10").unwrap() {
        NormaliserChunk::Text(t) => assert_eq!(t, "TENTH"),
        _ => panic!("expected a text chunk"),
    }
}

#[test]
fn say_as_accepts_signed_numerals() {
    match interpret("cardinal", " +7 ").unwrap() {
        NormaliserChunk::Text(t) => assert_eq!(t, "SEVEN"),
        _ => panic!("expected a text chunk"),
    }
    match interpret("cardinal", "-3").unwrap() {
        NormaliserChunk::Text(t) => assert_eq!(t, "MINUS THREE"),
        _ => panic!("expected a text chunk"),
    }
}

#[test]
fn say_as_errors() {
    assert_eq!(interpret("cardinal", "abc").unwrap_err(), NormError::InvalidNumeral);
    assert_eq!(interpret("ordinal", "-3").unwrap_err(), NormError::InvalidNumeral);
    assert_eq!(interpret("date", "2001").unwrap_err(), NormError::UnsupportedSayAs);
}

#[test]
fn pause_mapping() {
    let text = r#"<speak>before<break strength="strong"/>after</speak>"#;
    let mut doc = normalise_ssml(text).unwrap();
    let chunks = doc.drain_all();
    let mut pauses = vec![];
    for c in &chunks {
        if let NormaliserChunk::Break(ms) = c {
            pauses.push(*ms);
        }
    }
    assert_eq!(pauses, vec![2000]);

    let text = r#"<speak>before<break strength="none"/>after</speak>"#;
    let mut doc = normalise_ssml(text).unwrap();
    let chunks = doc.drain_all();
    for c in &chunks {
        assert!(!matches!(c, NormaliserChunk::Break(_)));
    }

    let text = r#"<speak>before<break/>after</speak>"#;
    let mut doc = normalise_ssml(text).unwrap();
    let chunks = doc.drain_all();
    let mut pauses = vec![];
    for c in &chunks {
        if let NormaliserChunk::Break(ms) = c {
            pauses.push(*ms);
        }
    }
    assert_eq!(pauses, vec![1000]);

    let text = r#"<speak>a<break strength="x-weak"/>b<break strength="medium"/>c<break strength="x-strong"/>d</speak>"#;
    let mut doc = normalise_ssml(text).unwrap();
    let chunks = doc.drain_all();
    let mut pauses = vec![];
    for c in &chunks {
        if let NormaliserChunk::Break(ms) = c {
            pauses.push(*ms);
        }
    }
    assert_eq!(pauses, vec![200, 1000, 5000]);

    let text = r#"<speak>before<break time="250ms"/>after</speak>"#;
    let mut doc = normalise_ssml(text).unwrap();
    let chunks = doc.drain_all();
    let mut pauses = vec![];
    for c in &chunks {
        if let NormaliserChunk::Break(ms) = c {
            pauses.push(*ms);
        }
    }
    assert_eq!(pauses, vec![250]);
}

#[test]
fn malformed_markup_is_a_parse_failure() {
    assert_eq!(
        normalise_ssml("<speak><say-as>").unwrap_err(),
        NormError::ParseFailure
    );
}

#[test]
fn oversized_break_time_saturates_without_panicking() {
    let text = r#"<speak>a<break time="20000000000000000000s"/>b</speak>"#;
    let mut doc = normalise_ssml(text).unwrap();
    let chunks = doc.drain_all();
    let mut pauses = vec![];
    for c in &chunks {
        if let NormaliserChunk::Break(ms) = c {
            pauses.push(*ms);
        }
    }
    assert_eq!(pauses, vec![u64::MAX]);
}

#[test]
fn markup_normalisation_is_deterministic() {
    let text = r#"<speak>one<break strength="weak"/><say-as interpret-as="cardinal">10</say-as></speak>"#;
    let mut a = normalise_ssml(text).unwrap();
    let mut b = normalise_ssml(text).unwrap();
    assert_eq!(a.text(), b.text());
    let ca = a.drain_all();
    let cb = b.drain_all();
    assert_eq!(ca.len(), cb.len());
}

#[test]
fn close_without_open_is_a_protocol_violation() {
    let events = vec![SsmlEvent::Close];
    assert_eq!(process_events(&events).unwrap_err(), NormError::ProtocolViolation);
}

#[test]
fn unsupported_phoneme_alphabet_falls_back_to_normalisation() {
    let events = vec![
        SsmlEvent::Open(tts_frontend::ssml::TagInfo::Phoneme {
            ipa: false,
            ph: String::from("HH"),
        }),
        SsmlEvent::Text(String::from("hi")),
        SsmlEvent::Close,
    ];
    let doc = process_events(&events).unwrap();
    assert_eq!(doc.text(), "HI");
}

#[test]
fn capture_under_unknown_tag_is_a_protocol_violation() {
    let events = vec![
        SsmlEvent::Open(tts_frontend::ssml::TagInfo::SayAs {
            interpret_as: String::from("cardinal"),
        }),
        SsmlEvent::Open(tts_frontend::ssml::TagInfo::Other),
        SsmlEvent::Text(String::from("10")),
    ];
    assert_eq!(process_events(&events).unwrap_err(), NormError::ProtocolViolation);
}

#[test]
fn phoneme_tag_emits_pronunciation() {
    let text = r#"<speak><phoneme alphabet="ipa" ph="HH AH0 L OW1">hello</phoneme></speak>"#;
    let mut doc = normalise_ssml(text).unwrap();
    let chunks = doc.drain_all();
    let mut saw_pron = false;
    for c in &chunks {
        if let NormaliserChunk::Pronunciation(us) = c {
            saw_pron = true;
            assert_eq!(us.len(), 4);
        }
    }
    assert!(saw_pron);
}
