//! The markup event processor: a stack-based state machine that interprets
//! pause, pronunciation-override and say-as tags over an externally supplied
//! event stream, and the entry points that feed it from markup text.
use vstd::prelude::*;

use crate::chunks::{doc_wf, ChunkModel, NormaliserChunk, NormalisedText};
use crate::sayas::{interpret, say_as_spec};
use crate::textnorm::{bytes_of_chars, chars_of_bytes, lt_128, normalise_text, normalized_of,
    split_words};
use crate::units::{parse_unit, parse_unit_spec, Unit};
use crate::NormError;

verus! {

broadcast use vstd::string::group_string_axioms;

/// Break strength keywords, mapped to fixed pause durations.
#[derive(Clone, Copy, Debug, PartialEq, Eq, Structural)]
pub enum BreakStrength {
    No,
    ExtraWeak,
    Weak,
    Medium,
    Strong,
    ExtraStrong,
}

/// The tag attributes the processor interprets, as plain values.
#[derive(Clone, Debug)]
pub enum TagInfo {
    /// A say-as tag with its content hint.
    SayAs { interpret_as: String },
    /// A phoneme tag: whether its alphabet is absent or the supported
    /// phonetic alphabet, and its symbol string.
    Phoneme { ipa: bool, ph: String },
    /// An empty break tag: explicit time in milliseconds, or a strength.
    Pause { time_ms: Option<u64>, strength: Option<BreakStrength> },
    /// Any other tag: passed through with no chunk.
    Other,
}

/// One event of the markup stream.
#[derive(Clone, Debug)]
pub enum SsmlEvent {
    Text(String),
    Open(TagInfo),
    Close,
    Empty(TagInfo),
}

/// The fixed pause table for strength keywords; `No` suppresses the pause.
pub open spec fn strength_ms(s: BreakStrength) -> Option<u64> {
    match s {
        BreakStrength::No => None,
        BreakStrength::ExtraWeak => Some(200u64),
        BreakStrength::Weak => Some(500u64),
        BreakStrength::Medium => Some(1000u64),
        BreakStrength::Strong => Some(2000u64),
        BreakStrength::ExtraStrong => Some(5000u64),
    }
}

/// The pause an empty break tag yields: explicit time first, else the
/// strength table, else one second.
pub open spec fn break_chunk(time_ms: Option<u64>, st: Option<BreakStrength>) -> Option<
    ChunkModel,
> {
    match time_ms {
        Some(ms) => Some(ChunkModel::Pause(ms)),
        None => match st {
            Some(s) => match strength_ms(s) {
                Some(d) => Some(ChunkModel::Pause(d)),
                None => None,
            },
            None => Some(ChunkModel::Pause(1000u64)),
        },
    }
}

/// Decoding a phoneme symbol string: each whitespace-delimited symbol must be
/// a canonical phone or punctuation encoding.
pub open spec fn units_of_words(ws: Seq<Seq<u8>>) -> Result<Seq<Unit>, NormError>
    decreases ws.len(),
{
    if ws.len() == 0 {
        Ok(Seq::empty())
    } else {
        match parse_unit_spec(chars_of_bytes(ws[0])) {
            Some(u) => match units_of_words(ws.drop_first()) {
                Ok(us) => Ok(seq![u] + us),
                Err(e) => Err(e),
            },
            None => Err(NormError::UnrecognizedSymbol),
        }
    }
}

pub open spec fn pron_decode(ph: Seq<char>) -> Result<Seq<Unit>, NormError> {
    if !vstd::utf8::is_ascii_chars(ph) {
        Err(NormError::UnrecognizedSymbol)
    } else {
        units_of_words(split_words(bytes_of_chars(ph)))
    }
}

/// Whether the newest chunk is a pronunciation, which suppresses the text of
/// the phoneme tag that emitted it.
pub open spec fn last_is_pron(acc: Seq<ChunkModel>) -> bool {
    acc.len() > 0 && acc.last() is Pron
}

/// The state machine, one event at a time: the stack of open tags, the
/// push-text flag, and the chunks accumulated so far.
pub open spec fn process_from(
    evs: Seq<SsmlEvent>,
    i: int,
    stack: Seq<TagInfo>,
    push_text: bool,
    acc: Seq<ChunkModel>,
) -> Result<Seq<ChunkModel>, NormError>
    decreases evs.len() - i,
{
    if i < 0 || i >= evs.len() {
        Ok(acc)
    } else {
        match evs[i] {
            SsmlEvent::Text(t) => {
                if push_text {
                    process_from(
                        evs,
                        i + 1,
                        stack,
                        push_text,
                        acc.push(ChunkModel::Text(normalized_of(t@))),
                    )
                } else if stack.len() > 0 {
                    match stack.last() {
                        TagInfo::SayAs { interpret_as } => match say_as_spec(
                            interpret_as@,
                            t@,
                        ) {
                            Ok(txt) => process_from(
                                evs,
                                i + 1,
                                stack,
                                push_text,
                                acc.push(ChunkModel::Text(txt)),
                            ),
                            Err(e) => Err(e),
                        },
                        TagInfo::Phoneme { .. } => {
                            if last_is_pron(acc) {
                                process_from(evs, i + 1, stack, push_text, acc)
                            } else {
                                process_from(
                                    evs,
                                    i + 1,
                                    stack,
                                    push_text,
                                    acc.push(ChunkModel::Text(normalized_of(t@))),
                                )
                            }
                        },
                        _ => Err(NormError::ProtocolViolation),
                    }
                } else {
                    process_from(evs, i + 1, stack, push_text, acc)
                }
            },
            SsmlEvent::Open(tag) => {
                match tag {
                    TagInfo::SayAs { .. } => process_from(evs, i + 1, stack.push(tag), false, acc),
                    TagInfo::Phoneme { ipa, ph } => {
                        if ipa {
                            match pron_decode(ph@) {
                                Ok(us) => process_from(
                                    evs,
                                    i + 1,
                                    stack.push(tag),
                                    false,
                                    acc.push(ChunkModel::Pron(us)),
                                ),
                                Err(e) => Err(e),
                            }
                        } else {
                            process_from(evs, i + 1, stack.push(tag), false, acc)
                        }
                    },
                    _ => process_from(evs, i + 1, stack.push(tag), push_text, acc),
                }
            },
            SsmlEvent::Close => {
                if stack.len() > 0 {
                    process_from(evs, i + 1, stack.drop_last(), true, acc)
                } else {
                    Err(NormError::ProtocolViolation)
                }
            },
            SsmlEvent::Empty(tag) => {
                match tag {
                    TagInfo::Pause { time_ms, strength } => match break_chunk(time_ms, strength) {
                        Some(c) => process_from(evs, i + 1, stack, push_text, acc.push(c)),
                        None => process_from(evs, i + 1, stack, push_text, acc),
                    },
                    _ => process_from(evs, i + 1, stack, push_text, acc),
                }
            },
        }
    }
}

/// What the processor computes for a whole event stream.
pub open spec fn process_spec(evs: Seq<SsmlEvent>) -> Result<Seq<ChunkModel>, NormError> {
    process_from(evs, 0, Seq::empty(), true, Seq::empty())
}

} // verus!

verus! {

/// Decodes a phoneme symbol string into units, rejecting anything outside
/// the closed vocabulary.
fn pron_decode_exec(ph: &str) -> (r: Result<Vec<Unit>, NormError>)
    ensures
        match r {
            Ok(us) => pron_decode(ph@) == Ok::<Seq<Unit>, NormError>(us@),
            Err(e) => pron_decode(ph@) == Err::<Seq<Unit>, NormError>(e),
        },
{
    if !ph.is_ascii() {
        return Err(NormError::UnrecognizedSymbol);
    }
    let pb = ph.as_bytes_vec();
    proof {
        assert(pb@ =~= bytes_of_chars(ph@));
        assert forall|i: int| 0 <= i < pb@.len() implies lt_128(#[trigger] pb@[i]) by {
            assert(ph@[i] <= '\u{7f}');
            assert(pb@[i] == ph@[i] as u8);
        }
    }
    let words = crate::textnorm::split_words_exec(&pb);
    let ghost all = split_words(pb@);
    let mut units: Vec<Unit> = Vec::new();
    let mut k: usize = 0;
    proof {
        assert(all.skip(0) =~~= all);
    }
    while k < words.len()
        invariant
            0 <= k <= words@.len(),
            words@.len() == all.len(),
            forall|i: int| 0 <= i < words@.len() ==> (#[trigger] words@[i])@ == all[i],
            forall|i: int| 0 <= i < pb@.len() ==> lt_128(#[trigger] pb@[i]),
            all == split_words(pb@),
            vstd::utf8::is_ascii_chars(ph@),
            pb@ == bytes_of_chars(ph@),
            units_of_words(all.skip(k as int)) matches Ok(rest) ==> units_of_words(all)
                == Ok::<Seq<Unit>, NormError>(units@ + rest),
            units_of_words(all.skip(k as int)) matches Err(e) ==> units_of_words(all)
                == Err::<Seq<Unit>, NormError>(e),
        decreases words@.len() - k,
    {
        proof {
            let s = all.skip(k as int);
            assert(s[0] == all[k as int]);
            assert(s.drop_first() =~~= all.skip(k as int + 1));
            crate::textnorm::lemma_split_elems(pb@, |b: u8| lt_128(b));
        }
        let wb = &words[k];
        let mut wcopy: Vec<u8> = Vec::new();
        let mut bi: usize = 0;
        while bi < wb.len()
            invariant
                0 <= bi <= wb@.len(),
                wcopy@ =~= wb@.take(bi as int),
            decreases wb@.len() - bi,
        {
            wcopy.push(wb[bi]);
            bi += 1;
        }
        proof {
            assert(wcopy@ =~= words@[k as int]@);
        }
        let wstr = crate::textnorm::ascii_to_string(wcopy);
        proof {
            assert(wstr@ =~= chars_of_bytes(all[k as int]));
        }
        match parse_unit(wstr.as_str()) {
            Ok(u) => {
                let ghost u0 = units@;
                units.push(u);
                proof {
                    assert(units@ =~= u0 + seq![u]);
                    if units_of_words(all.skip(k as int + 1)) is Ok {
                        let rr = units_of_words(all.skip(k as int + 1))->Ok_0;
                        assert((u0 + seq![u]) + rr =~= u0 + (seq![u] + rr));
                    }
                }
            },
            Err(_) => {
                return Err(NormError::UnrecognizedSymbol);
            },
        }
        k += 1;
    }
    proof {
        assert(all.skip(words@.len() as int) =~~= Seq::<Seq<u8>>::empty());
        assert(units@ + Seq::<Unit>::empty() =~= units@);
    }
    Ok(units)
}

/// Runs the state machine over a whole event stream, producing the chunks in
/// event order, or the first fatal error.
pub fn process_events(events: &Vec<SsmlEvent>) -> (r: Result<NormalisedText, NormError>)
    ensures
        match r {
            Ok(t) => process_spec(events@) == Ok::<Seq<ChunkModel>, NormError>(t@) && doc_wf(t@),
            Err(e) => process_spec(events@) == Err::<Seq<ChunkModel>, NormError>(e),
        },
{
    let mut res = NormalisedText::empty();
    let mut stack: Vec<TagInfo> = Vec::new();
    let mut push_text = true;
    let mut i: usize = 0;
    proof {
        assert(res@ =~~= Seq::<ChunkModel>::empty());
        assert(stack@ =~~= Seq::<TagInfo>::empty());
    }
    while i < events.len()
        invariant
            0 <= i <= events@.len(),
            process_spec(events@) == process_from(events@, i as int, stack@, push_text, res@),
            doc_wf(res@),
        decreases events@.len() - i,
    {
        let ghost old_stack = stack@;
        let ghost old_acc = res@;
        match &events[i] {
            SsmlEvent::Text(t) => {
                if push_text {
                    let nt = normalise_text(t.as_str());
                    res.push_chunk(NormaliserChunk::Text(nt));
                } else if stack.len() > 0 {
                    let si = stack.len() - 1;
                    let mut fatal: Option<NormError> = None;
                    match &stack[si] {
                        TagInfo::SayAs { interpret_as } => {
                            match interpret(interpret_as.as_str(), t.as_str()) {
                                Ok(c) => {
                                    res.push_chunk(c);
                                },
                                Err(e) => {
                                    fatal = Some(e);
                                },
                            }
                        },
                        TagInfo::Phoneme { .. } => {
                            if !res.last_is_pronunciation() {
                                let nt = normalise_text(t.as_str());
                                res.push_chunk(NormaliserChunk::Text(nt));
                            }
                        },
                        _ => {
                            fatal = Some(NormError::ProtocolViolation);
                        },
                    }
                    if let Some(e) = fatal {
                        return Err(e);
                    }
                }
            },
            SsmlEvent::Open(tag) => {
                match tag {
                    TagInfo::SayAs { interpret_as } => {
                        stack.push(TagInfo::SayAs { interpret_as: interpret_as.clone() });
                        push_text = false;
                        proof {
                            assert(stack@ =~~= old_stack.push(events@[i as int]->Open_0));
                        }
                    },
                    TagInfo::Phoneme { ipa, ph } => {
                        if *ipa {
                            match pron_decode_exec(ph.as_str()) {
                                Ok(us) => {
                                    res.push_chunk(NormaliserChunk::Pronunciation(us));
                                },
                                Err(e) => {
                                    return Err(e);
                                },
                            }
                        }
                        stack.push(TagInfo::Phoneme { ipa: *ipa, ph: ph.clone() });
                        push_text = false;
                        proof {
                            assert(stack@ =~~= old_stack.push(events@[i as int]->Open_0));
                        }
                    },
                    TagInfo::Pause { time_ms, strength } => {
                        stack.push(TagInfo::Pause { time_ms: *time_ms, strength: *strength });
                        proof {
                            assert(stack@ =~~= old_stack.push(events@[i as int]->Open_0));
                        }
                    },
                    TagInfo::Other => {
                        stack.push(TagInfo::Other);
                        proof {
                            assert(stack@ =~~= old_stack.push(events@[i as int]->Open_0));
                        }
                    },
                }
            },
            SsmlEvent::Close => {
                if stack.len() == 0 {
                    return Err(NormError::ProtocolViolation);
                }
                let _popped = stack.pop();
                push_text = true;
                proof {
                    assert(stack@ =~~= old_stack.drop_last());
                }
            },
            SsmlEvent::Empty(tag) => {
                match tag {
                    TagInfo::Pause { time_ms, strength } => {
                        match time_ms {
                            Some(ms) => {
                                res.push_chunk(NormaliserChunk::Break(*ms));
                            },
                            None => {
                                match strength {
                                    Some(st) => {
                                        match st {
                                            BreakStrength::No => {},
                                            BreakStrength::ExtraWeak => {
                                                res.push_chunk(NormaliserChunk::Break(200));
                                            },
                                            BreakStrength::Weak => {
                                                res.push_chunk(NormaliserChunk::Break(500));
                                            },
                                            BreakStrength::Medium => {
                                                res.push_chunk(NormaliserChunk::Break(1000));
                                            },
                                            BreakStrength::Strong => {
                                                res.push_chunk(NormaliserChunk::Break(2000));
                                            },
                                            BreakStrength::ExtraStrong => {
                                                res.push_chunk(NormaliserChunk::Break(5000));
                                            },
                                        }
                                    },
                                    None => {
                                        res.push_chunk(NormaliserChunk::Break(1000));
                                    },
                                }
                            },
                        }
                    },
                    _ => {},
                }
            },
        }
        i += 1;
    }
    Ok(res)
}

} // verus!

verus! {

#[verifier::external_type_specification]
#[verifier::external_body]
pub struct ExParserEvent(ssml_parser::ParserEvent);

#[verifier::external_type_specification]
#[verifier::external_body]
pub struct ExParsedElement(ssml_parser::elements::ParsedElement);

#[verifier::external_type_specification]
#[verifier::external_body]
pub struct ExStrength(ssml_parser::elements::Strength);

#[verifier::external_type_specification]
#[verifier::external_body]
pub struct ExTimeDesignation(ssml_parser::elements::TimeDesignation);

/// What markup parsing and attribute extraction yield for a document: the
/// plain event stream, or nothing when the markup is rejected. The parse is
/// a function of the text alone, so two calls on one document agree.
pub uninterp spec fn ssml_events_of(s: Seq<char>) -> Option<Seq<SsmlEvent>>;

/// Relies on ssml_parser's SsmlParserBuilder::build (with sub-alias expansion
/// on), SsmlParser::parse and Ssml::event_iter: the document's events in
/// parse order, converted to plain values by the helpers below, or nothing
/// when the markup is rejected.
#[verifier::external_body]
fn parse_ssml_events(x: &str) -> (r: Option<Vec<SsmlEvent>>)
    ensures
        r matches Some(v) ==> ssml_events_of(x@) == Some(v@),
        r is None ==> ssml_events_of(x@) is None,
{
    let parser = match ssml_parser::parser::SsmlParserBuilder::default().expand_sub(true).build() {
        Ok(p) => p,
        Err(_) => {
            return None;
        },
    };
    match parser.parse(x) {
        Ok(doc) => Some(doc.event_iter().map(convert_event).collect()),
        Err(_) => None,
    }
}

/// Relies on ssml_parser's Strength: telling its six keywords apart.
#[verifier::external_body]
fn convert_strength(s: ssml_parser::elements::Strength) -> (r: BreakStrength)
{
    match s {
        ssml_parser::elements::Strength::No => BreakStrength::No,
        ssml_parser::elements::Strength::ExtraWeak => BreakStrength::ExtraWeak,
        ssml_parser::elements::Strength::Weak => BreakStrength::Weak,
        ssml_parser::elements::Strength::Medium => BreakStrength::Medium,
        ssml_parser::elements::Strength::Strong => BreakStrength::Strong,
        ssml_parser::elements::Strength::ExtraStrong => BreakStrength::ExtraStrong,
    }
}

/// Relies on Duration::try_from_secs_f32: an explicit break time converts to
/// whole milliseconds without panicking; a value a Duration cannot hold
/// (too large, or not a number) saturates to the largest pause.
#[verifier::external_body]
fn convert_time(t: ssml_parser::elements::TimeDesignation) -> (r: u64)
{
    match t {
        ssml_parser::elements::TimeDesignation::Seconds(s) => {
            match std::time::Duration::try_from_secs_f32(s) {
                Ok(d) => u64::try_from(d.as_millis()).unwrap_or(u64::MAX),
                Err(_) => u64::MAX,
            }
        },
        ssml_parser::elements::TimeDesignation::Milliseconds(m) => {
            match std::time::Duration::try_from_secs_f32(m) {
                Ok(d) => u64::try_from(d.as_millis()).unwrap_or(u64::MAX) / 1000,
                Err(_) => u64::MAX,
            }
        },
    }
}

/// Relies on ssml_parser's ParsedElement: moving the say-as, phoneme and
/// break attributes out into plain values.
#[verifier::external_body]
fn convert_element(el: ssml_parser::elements::ParsedElement) -> (r: TagInfo)
{
    match el {
        ssml_parser::elements::ParsedElement::SayAs(a) => TagInfo::SayAs { interpret_as: a.interpret_as },
        ssml_parser::elements::ParsedElement::Phoneme(p) => TagInfo::Phoneme {
            ipa: matches!(p.alphabet, None | Some(ssml_parser::elements::PhonemeAlphabet::Ipa)),
            ph: p.ph,
        },
        ssml_parser::elements::ParsedElement::Break(b) => TagInfo::Pause {
            time_ms: b.time.map(convert_time),
            strength: b.strength.map(convert_strength),
        },
        _ => TagInfo::Other,
    }
}

/// Relies on ssml_parser's ParserEvent: telling text, open, close and empty
/// events apart and moving their contents out.
#[verifier::external_body]
fn convert_event(e: ssml_parser::ParserEvent) -> (r: SsmlEvent)
{
    match e {
        ssml_parser::ParserEvent::Text(t) => SsmlEvent::Text(t),
        ssml_parser::ParserEvent::Open(el) => SsmlEvent::Open(convert_element(el)),
        ssml_parser::ParserEvent::Close(_) => SsmlEvent::Close,
        ssml_parser::ParserEvent::Empty(el) => SsmlEvent::Empty(convert_element(el)),
    }
}

proof fn lemma_units_no_parse_failure(ws: Seq<Seq<u8>>)
    ensures
        units_of_words(ws) matches Err(e) ==> e == NormError::UnrecognizedSymbol,
    decreases ws.len(),
{
    if ws.len() == 0 {
    } else {
        lemma_units_no_parse_failure(ws.drop_first());
    }
}

/// The state machine never reports a parse failure: that error belongs to
/// the parser boundary alone.
proof fn lemma_process_no_parse_failure(
    evs: Seq<SsmlEvent>,
    i: int,
    stack: Seq<TagInfo>,
    push_text: bool,
    acc: Seq<ChunkModel>,
)
    ensures
        process_from(evs, i, stack, push_text, acc) != Err::<Seq<ChunkModel>, NormError>(
            NormError::ParseFailure,
        ),
    decreases evs.len() - i,
{
    if i < 0 || i >= evs.len() {
    } else {
        match evs[i] {
            SsmlEvent::Text(t) => {
                if push_text {
                    lemma_process_no_parse_failure(
                        evs,
                        i + 1,
                        stack,
                        push_text,
                        acc.push(ChunkModel::Text(normalized_of(t@))),
                    );
                } else if stack.len() > 0 {
                    match stack.last() {
                        TagInfo::SayAs { interpret_as } => {
                            match say_as_spec(interpret_as@, t@) {
                                Ok(txt) => {
                                    lemma_process_no_parse_failure(
                                        evs,
                                        i + 1,
                                        stack,
                                        push_text,
                                        acc.push(ChunkModel::Text(txt)),
                                    );
                                },
                                Err(e) => {
                                    assert(e != NormError::ParseFailure);
                                },
                            }
                        },
                        TagInfo::Phoneme { .. } => {
                            if last_is_pron(acc) {
                                lemma_process_no_parse_failure(evs, i + 1, stack, push_text, acc);
                            } else {
                                lemma_process_no_parse_failure(
                                    evs,
                                    i + 1,
                                    stack,
                                    push_text,
                                    acc.push(ChunkModel::Text(normalized_of(t@))),
                                );
                            }
                        },
                        _ => {},
                    }
                } else {
                    lemma_process_no_parse_failure(evs, i + 1, stack, push_text, acc);
                }
            },
            SsmlEvent::Open(tag) => {
                match tag {
                    TagInfo::SayAs { .. } => {
                        lemma_process_no_parse_failure(evs, i + 1, stack.push(tag), false, acc);
                    },
                    TagInfo::Phoneme { ipa, ph } => {
                        if ipa {
                            match pron_decode(ph@) {
                                Ok(us) => {
                                    lemma_process_no_parse_failure(
                                        evs,
                                        i + 1,
                                        stack.push(tag),
                                        false,
                                        acc.push(ChunkModel::Pron(us)),
                                    );
                                },
                                Err(e) => {
                                    lemma_units_no_parse_failure(
                                        split_words(bytes_of_chars(ph@)),
                                    );
                                },
                            }
                        } else {
                            lemma_process_no_parse_failure(evs, i + 1, stack.push(tag), false, acc);
                        }
                    },
                    _ => {
                        lemma_process_no_parse_failure(
                            evs,
                            i + 1,
                            stack.push(tag),
                            push_text,
                            acc,
                        );
                    },
                }
            },
            SsmlEvent::Close => {
                if stack.len() > 0 {
                    lemma_process_no_parse_failure(evs, i + 1, stack.drop_last(), true, acc);
                }
            },
            SsmlEvent::Empty(tag) => {
                match tag {
                    TagInfo::Pause { time_ms, strength } => {
                        match break_chunk(time_ms, strength) {
                            Some(c) => {
                                lemma_process_no_parse_failure(
                                    evs,
                                    i + 1,
                                    stack,
                                    push_text,
                                    acc.push(c),
                                );
                            },
                            None => {
                                lemma_process_no_parse_failure(evs, i + 1, stack, push_text, acc);
                            },
                        }
                    },
                    _ => {
                        lemma_process_no_parse_failure(evs, i + 1, stack, push_text, acc);
                    },
                }
            },
        }
    }
}

/// Normalizes a markup document: parses it, then runs the event processor.
/// The result is exactly what the state machine yields for the document's
/// event stream; a rejected document, and only a rejected document, is a
/// parse failure.
pub fn normalise_ssml(x: &str) -> (r: Result<NormalisedText, NormError>)
    ensures
        ssml_events_of(x@) is None <==> r == Err::<NormalisedText, NormError>(
            NormError::ParseFailure,
        ),
        ssml_events_of(x@) matches Some(evs) ==> (match r {
            Ok(t) => process_spec(evs) == Ok::<Seq<ChunkModel>, NormError>(t@) && doc_wf(t@),
            Err(e) => process_spec(evs) == Err::<Seq<ChunkModel>, NormError>(e),
        }),
{
    let events = match parse_ssml_events(x) {
        Some(v) => v,
        None => {
            return Err(NormError::ParseFailure);
        },
    };
    match process_events(&events) {
        Ok(t) => Ok(t),
        Err(e) => {
            proof {
                lemma_process_no_parse_failure(
                    events@,
                    0,
                    Seq::empty(),
                    true,
                    Seq::empty(),
                );
                assert(e != NormError::ParseFailure);
            }
            Err(e)
        },
    }
}

/// Whether the text carries markup: it contains the opening of a speak tag.
pub open spec fn has_speak(s: Seq<char>) -> bool {
    exists|i: int| 0 <= i <= s.len() - 6 && #[trigger] s.subrange(i, i + 6) == "<speak"@
}

fn has_speak_exec(x: &str) -> (r: bool)
    ensures
        r == has_speak(x@),
{
    proof {
        reveal_strlit("<speak");
    }
    let n = x.unicode_len();
    if n < 6 {
        return false;
    }
    let mut i: usize = 0;
    while i <= n - 6
        invariant
            6 <= n == x@.len(),
            0 <= i <= n - 5,
            forall|k: int| 0 <= k < i ==> #[trigger] x@.subrange(k, k + 6) != "<speak"@,
        decreases n - i,
    {
        let hit = x.get_char(i) == '<' && x.get_char(i + 1) == 's' && x.get_char(i + 2) == 'p'
            && x.get_char(i + 3) == 'e' && x.get_char(i + 4) == 'a' && x.get_char(i + 5) == 'k';
        if hit {
            proof {
                reveal_strlit("<speak");
                assert(x@.subrange(i as int, i as int + 6) =~= "<speak"@);
            }
            return true;
        }
        proof {
            reveal_strlit("<speak");
            assert(x@.subrange(i as int, i as int + 6) != "<speak"@) by {
                reveal_strlit("<speak");
                if x@.subrange(i as int, i as int + 6) == "<speak"@ {
                    assert(x@.subrange(i as int, i as int + 6)[0] == x@[i as int]);
                    assert(x@.subrange(i as int, i as int + 6)[1] == x@[i as int + 1]);
                    assert(x@.subrange(i as int, i as int + 6)[2] == x@[i as int + 2]);
                    assert(x@.subrange(i as int, i as int + 6)[3] == x@[i as int + 3]);
                    assert(x@.subrange(i as int, i as int + 6)[4] == x@[i as int + 4]);
                    assert(x@.subrange(i as int, i as int + 6)[5] == x@[i as int + 5]);
                }
            }
        }
        i += 1;
    }
    false
}

/// Normalizes raw or markup-annotated input: markup goes through the event
/// processor, plain text through the plain-text normalizer as a single
/// text chunk.
pub fn normalise(x: &str) -> (r: Result<NormalisedText, NormError>)
    ensures
        !has_speak(x@) ==> (r matches Ok(t) && t@ =~= seq![
            ChunkModel::Text(normalized_of(x@)),
        ]),
        has_speak(x@) ==> (ssml_events_of(x@) is None <==> r == Err::<
            NormalisedText,
            NormError,
        >(NormError::ParseFailure)),
        has_speak(x@) ==> (ssml_events_of(x@) matches Some(evs) ==> (match r {
            Ok(t) => process_spec(evs) == Ok::<Seq<ChunkModel>, NormError>(t@) && doc_wf(t@),
            Err(e) => process_spec(evs) == Err::<Seq<ChunkModel>, NormError>(e),
        })),
        r matches Ok(t) ==> doc_wf(t@),
{
    if has_speak_exec(x) {
        normalise_ssml(x)
    } else {
        let nt = normalise_text(x);
        let mut res = NormalisedText::empty();
        res.push_chunk(NormaliserChunk::Text(nt));
        proof {
            assert(res@ =~= seq![ChunkModel::Text(normalized_of(x@))]);
        }
        Ok(res)
    }
}

} // verus!
