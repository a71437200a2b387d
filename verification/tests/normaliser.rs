use tts_frontend::textnorm::{dict_normalise, normalise_text};

#[test]
fn duplicate_removal() {
    assert_eq!(dict_normalise("BATH(2)"), "BATH");
    assert_eq!(dict_normalise("HELLO!(45)"), "HELLO");
    assert_eq!(dict_normalise("(3)d"), "3D");
}

#[test]
fn numeral_expansion() {
    assert_eq!(normalise_text("10"), "TEN");
    assert_eq!(normalise_text("3D"), "THREE D");
    assert_eq!(normalise_text("the 21 pilots"), "THE TWENTY ONE PILOTS");
}

#[test]
fn punctuation_filtering_and_upper_casing() {
    assert_eq!(normalise_text("Hello, world!"), "HELLO WORLD");
    assert_eq!(normalise_text("  spaced   out  "), "SPACED OUT");
    assert_eq!(normalise_text(""), "");
    assert_eq!(normalise_text("?!.,"), "");
}

#[test]
fn unicode_folding() {
    assert_eq!(normalise_text("café"), "CAFE");
    assert_eq!(normalise_text("Æneid"), "AENEID");
}

#[test]
fn dict_normalise_strips_only_a_trailing_variant() {
    assert_eq!(dict_normalise("A(1)(2)"), "A1");
    assert_eq!(dict_normalise("(45)"), "");
}

#[test]
fn plain_text_becomes_one_text_chunk() {
    let mut doc = tts_frontend::ssml::normalise("Hello there").unwrap();
    let chunks = doc.drain_all();
    assert_eq!(chunks.len(), 1);
    match &chunks[0] {
        tts_frontend::chunks::NormaliserChunk::Text(t) => assert_eq!(t, "HELLO THERE"),
        _ => panic!("expected a text chunk"),
    }
}

#[test]
fn idempotence_samples() {
    for s in ["Hello, world!", "10", "3D", "café 42", "a-b c_d"] {
        let once = normalise_text(s);
        assert_eq!(normalise_text(&once), once);
    }
}
