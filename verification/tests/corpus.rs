use tts_frontend::chunks::{Dictionary, NormaliserChunk};
use tts_frontend::dataset::{Dataset, Entry};
use tts_frontend::ssml::normalise;
use tts_frontend::units::{Phone, PhoneBase, Stress, Unit};

fn hello_world_dict() -> Dictionary {
    let mut d = Dictionary::new();
    d.insert(
        String::from("HELLO"),
        vec![vec![
            Phone { base: PhoneBase::Hh, stress: Stress::Unmarked },
            Phone { base: PhoneBase::Ah, stress: Stress::Unstressed },
            Phone { base: PhoneBase::L, stress: Stress::Unmarked },
            Phone { base: PhoneBase::Ow, stress: Stress::Primary },
        ]],
    );
    d
}

#[test]
fn unknown_word_is_dropped() {
    let d = hello_world_dict();
    let mut doc = normalise("hello world").unwrap();
    doc.words_to_pronunciation(&d);
    let chunks = doc.drain_all();
    assert_eq!(chunks.len(), 1);
    match &chunks[0] {
        NormaliserChunk::Pronunciation(us) => {
            // Only the dictionary hit survives: its phones and one space.
            assert_eq!(
                us.as_slice(),
                &[
                    Unit::Phone(Phone { base: PhoneBase::Hh, stress: Stress::Unmarked }),
                    Unit::Phone(Phone { base: PhoneBase::Ah, stress: Stress::Unstressed }),
                    Unit::Phone(Phone { base: PhoneBase::L, stress: Stress::Unmarked }),
                    Unit::Phone(Phone { base: PhoneBase::Ow, stress: Stress::Primary }),
                    Unit::Space,
                ]
            );
        },
        _ => panic!("expected a pronunciation chunk"),
    }
}

#[test]
fn substitution_keeps_chunk_count_and_order() {
    let d = hello_world_dict();
    let text = r#"<speak>hello<break strength="weak"/>hello</speak>"#;
    let mut doc = tts_frontend::ssml::normalise_ssml(text).unwrap();
    let before = doc.len();
    doc.words_to_pronunciation(&d);
    assert_eq!(doc.len(), before);
    let chunks = doc.drain_all();
    assert!(matches!(chunks[0], NormaliserChunk::Pronunciation(_)));
    assert!(matches!(chunks[1], NormaliserChunk::Break(500)));
    assert!(matches!(chunks[2], NormaliserChunk::Pronunciation(_)));
}

#[test]
fn convert_to_pronunciation_renders_braced_runs() {
    let d = hello_world_dict();
    let mut ds = Dataset {
        entries: vec![Entry { id: String::from("r1"), text: String::from("hello hello") }],
    };
    ds.convert_to_pronunciation(&d);
    assert_eq!(ds.entries[0].text, "{HH AH0 L OW1 } {HH AH0 L OW1 } ");
    assert_eq!(ds.entries[0].id, "r1");
}

#[test]
fn validate_checks_ids_and_transcripts() {
    let good = Dataset {
        entries: vec![
            Entry { id: String::from("a"), text: String::from("one") },
            Entry { id: String::from("b"), text: String::from("two") },
        ],
    };
    assert!(good.validate());

    let dup = Dataset {
        entries: vec![
            Entry { id: String::from("a"), text: String::from("one") },
            Entry { id: String::from("a"), text: String::from("two") },
        ],
    };
    assert!(!dup.validate());

    let empty_text = Dataset {
        entries: vec![Entry { id: String::from("a"), text: String::from("?!") }],
    };
    assert!(!empty_text.validate());

    let empty_id = Dataset {
        entries: vec![Entry { id: String::new(), text: String::from("one") }],
    };
    assert!(!empty_id.validate());
}
