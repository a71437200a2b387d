//! Corpus preparation: dataset entries, validation, and rewriting transcripts
//! into dictionary-derived pronunciations.
use vstd::prelude::*;

use crate::chunks::{chunk_pron, lookup_spec, words_units, ChunkModel, DictEntry, Dictionary,
    NormaliserChunk, NormalisedText};
use crate::textnorm::{normalise_text, normalized_of};
use crate::units::{punct_char, unit_chars, Unit};

verus! {

broadcast use vstd::string::group_string_axioms;

/// One corpus record: an identifier and its transcript.
#[derive(Clone, Debug)]
pub struct Entry {
    pub id: String,
    pub text: String,
}

/// An ordered corpus of entries.
#[derive(Clone, Debug)]
pub struct Dataset {
    pub entries: Vec<Entry>,
}

/// The units that the corpus renderer accepts: phones, spaces, punctuation.
pub open spec fn renderable(u: Unit) -> bool {
    match u {
        Unit::Phone(_) => true,
        Unit::Space => true,
        Unit::Punct(_) => true,
        _ => false,
    }
}

/// Serializing a pronunciation back to text: contiguous phone runs are
/// wrapped in braces, phones space-separated inside; a space or punctuation
/// unit closes any open brace first. The flag says whether a brace is open.
pub open spec fn render_units(us: Seq<Unit>, inp: bool) -> Seq<char>
    decreases us.len(),
{
    if us.len() == 0 {
        Seq::empty()
    } else {
        match us[0] {
            Unit::Phone(_) => (if !inp {
                seq!['{']
            } else {
                Seq::empty()
            }) + unit_chars(us[0]) + seq![' '] + render_units(us.drop_first(), true),
            Unit::Space => (if inp {
                seq!['}']
            } else {
                Seq::empty()
            }) + seq![' '] + render_units(us.drop_first(), false),
            Unit::Punct(p) => (if inp {
                seq!['}']
            } else {
                Seq::empty()
            }) + seq![punct_char(p)] + seq![' '] + render_units(us.drop_first(), false),
            _ => Seq::empty(),
        }
    }
}

/// The rewritten transcript of one entry: normalize, substitute the words'
/// pronunciations, and render them; an empty pronunciation renders empty.
pub open spec fn converted_text(entries: Seq<DictEntry>, t: Seq<char>) -> Seq<char> {
    let us = chunk_pron(entries, normalized_of(t));
    if us.len() > 0 {
        render_units(us, false)
    } else {
        Seq::empty()
    }
}

proof fn lemma_words_units_renderable(entries: Seq<DictEntry>, ws: Seq<Seq<u8>>)
    ensures
        forall|j: int| 0 <= j < words_units(entries, ws).len() ==> renderable(
            #[trigger] words_units(entries, ws)[j],
        ),
    decreases ws.len(),
{
    if ws.len() == 0 {
    } else {
        lemma_words_units_renderable(entries, ws.drop_first());
        let rest = words_units(entries, ws.drop_first());
        match lookup_spec(entries, crate::textnorm::chars_of_bytes(ws[0])) {
            Some(p) => {
                let ph = Seq::new(p.len(), |i: int| Unit::Phone(p[i]));
                assert forall|j: int| 0 <= j < words_units(entries, ws).len() implies renderable(
                    #[trigger] words_units(entries, ws)[j],
                ) by {
                    if j < ph.len() {
                        assert(words_units(entries, ws)[j] == ph[j]);
                    } else if j == ph.len() {
                        assert(words_units(entries, ws)[j] == Unit::Space);
                    } else {
                        assert(words_units(entries, ws)[j] == rest[j - ph.len() - 1]);
                    }
                }
            },
            None => {},
        }
    }
}

/// Renders a pronunciation as corpus text.
fn render_pron(us: &Vec<Unit>) -> (r: String)
    requires
        forall|j: int| 0 <= j < us@.len() ==> renderable(#[trigger] us@[j]),
    ensures
        r@ == render_units(us@, false),
{
    let mut out = String::new();
    let mut inp = false;
    let mut i: usize = 0;
    proof {
        assert(us@.skip(0) =~= us@);
        assert(Seq::<char>::empty() + render_units(us@, false) =~= render_units(us@, false));
    }
    while i < us.len()
        invariant
            0 <= i <= us@.len(),
            forall|j: int| 0 <= j < us@.len() ==> renderable(#[trigger] us@[j]),
            render_units(us@, false) == out@ + render_units(us@.skip(i as int), inp),
        decreases us@.len() - i,
    {
        proof {
            reveal_strlit("{");
            reveal_strlit("}");
            reveal_strlit(" ");
            let t = us@.skip(i as int);
            assert(t[0] == us@[i as int]);
            assert(t.drop_first() =~= us@.skip(i as int + 1));
        }
        let ghost out0 = out@;
        let ghost inp0 = inp;
        let u = us[i];
        match u {
            Unit::Phone(_) => {
                if !inp {
                    out.append("{");
                }
                let cs = u.to_canonical_string();
                out.append(cs.as_str());
                out.append(" ");
                inp = true;
                proof {
                    assert(out@ =~= out0 + ((if !inp0 {
                        seq!['{']
                    } else {
                        Seq::<char>::empty()
                    }) + unit_chars(us@[i as int]) + seq![' ']));
                    assert((out0 + ((if !inp0 {
                        seq!['{']
                    } else {
                        Seq::<char>::empty()
                    }) + unit_chars(us@[i as int]) + seq![' '])) + render_units(
                        us@.skip(i as int + 1),
                        true,
                    ) =~= out0 + (((if !inp0 {
                        seq!['{']
                    } else {
                        Seq::<char>::empty()
                    }) + unit_chars(us@[i as int]) + seq![' ']) + render_units(
                        us@.skip(i as int + 1),
                        true,
                    )));
                }
            },
            Unit::Space => {
                if inp {
                    out.append("}");
                }
                out.append(" ");
                inp = false;
                proof {
                    assert(out@ =~= out0 + ((if inp0 {
                        seq!['}']
                    } else {
                        Seq::<char>::empty()
                    }) + seq![' ']));
                    assert((out0 + ((if inp0 {
                        seq!['}']
                    } else {
                        Seq::<char>::empty()
                    }) + seq![' '])) + render_units(us@.skip(i as int + 1), false) =~= out0 + (((
                    if inp0 {
                        seq!['}']
                    } else {
                        Seq::<char>::empty()
                    }) + seq![' ']) + render_units(us@.skip(i as int + 1), false)));
                }
            },
            Unit::Punct(p) => {
                if inp {
                    out.append("}");
                }
                let cs = u.to_canonical_string();
                out.append(cs.as_str());
                out.append(" ");
                inp = false;
                proof {
                    assert(unit_chars(us@[i as int]) =~= seq![punct_char(p)]);
                    assert(out@ =~= out0 + ((if inp0 {
                        seq!['}']
                    } else {
                        Seq::<char>::empty()
                    }) + seq![punct_char(p)] + seq![' ']));
                    assert((out0 + ((if inp0 {
                        seq!['}']
                    } else {
                        Seq::<char>::empty()
                    }) + seq![punct_char(p)] + seq![' '])) + render_units(
                        us@.skip(i as int + 1),
                        false,
                    ) =~= out0 + (((if inp0 {
                        seq!['}']
                    } else {
                        Seq::<char>::empty()
                    }) + seq![punct_char(p)] + seq![' ']) + render_units(
                        us@.skip(i as int + 1),
                        false,
                    )));
                }
            },
            _ => {
                proof {
                    assert(renderable(us@[i as int]));
                }
            },
        }
        i += 1;
    }
    proof {
        assert(us@.skip(us@.len() as int) =~= Seq::<Unit>::empty());
        assert(render_units(Seq::<Unit>::empty(), inp) =~= Seq::<char>::empty());
        assert(out@ + Seq::<char>::empty() =~= out@);
    }
    out
}

} // verus!

verus! {

/// A valid entry: non-empty identifier, transcript that normalizes to a
/// non-empty string.
pub open spec fn entry_ok(e: Entry) -> bool {
    e.id@.len() > 0 && normalized_of(e.text@).len() > 0
}

pub open spec fn ids_distinct_upto(es: Seq<Entry>, k: int) -> bool {
    forall|a: int, b: int| 0 <= a < b < k ==> (#[trigger] es[a]).id@ != (#[trigger] es[b]).id@
}

pub open spec fn valid_upto(es: Seq<Entry>, k: int) -> bool {
    (forall|j: int| 0 <= j < k ==> entry_ok(#[trigger] es[j])) && ids_distinct_upto(es, k)
}

/// A dataset is valid when every identifier is non-empty and unique and
/// every transcript normalizes to a non-empty string.
pub open spec fn dataset_valid(es: Seq<Entry>) -> bool {
    valid_upto(es, es.len() as int)
}

impl Dataset {
    /// Checks the dataset's validation invariants; reports whether all hold.
    pub fn validate(&self) -> (r: bool)
        ensures
            r == dataset_valid(self.entries@),
    {
        let n = self.entries.len();
        let mut ok = true;
        let mut i: usize = 0;
        while i < n
            invariant
                0 <= i <= n == self.entries@.len(),
                ok == valid_upto(self.entries@, i as int),
            decreases n - i,
        {
            let e = &self.entries[i];
            let nt = normalise_text(e.text.as_str());
            let e_ok = !e.id.as_str().is_empty() && !nt.as_str().is_empty();
            let mut dup = false;
            let mut j: usize = 0;
            while j < i
                invariant
                    0 <= j <= i < self.entries@.len(),
                    dup == !(forall|a: int|
                        0 <= a < j ==> (#[trigger] self.entries@[a]).id@ != self.entries@[i as int].id@),
                decreases i - j,
            {
                if self.entries[j].id.eq(&self.entries[i].id) {
                    dup = true;
                }
                j += 1;
            }
            proof {
                assert(entry_ok(self.entries@[i as int]) == e_ok);
                assert(valid_upto(self.entries@, i as int + 1) == (valid_upto(
                    self.entries@,
                    i as int,
                ) && e_ok && !dup)) by {
                    if valid_upto(self.entries@, i as int) && e_ok && !dup {
                        assert forall|a: int, b: int|
                            0 <= a < b < i as int + 1 implies (#[trigger] self.entries@[a]).id@
                            != (#[trigger] self.entries@[b]).id@ by {
                            if b < i as int {
                                assert(ids_distinct_upto(self.entries@, i as int));
                            }
                        }
                    }
                    if valid_upto(self.entries@, i as int + 1) {
                        assert(entry_ok(self.entries@[i as int]));
                    }
                }
            }
            ok = ok && e_ok && !dup;
            i += 1;
        }
        ok
    }

    /// Rewrites every transcript into its dictionary-derived pronunciation
    /// rendering; identifiers and entry order are preserved.
    pub fn convert_to_pronunciation(&mut self, dict: &Dictionary)
        requires
            dict.wf(),
        ensures
            final(self).entries@.len() == old(self).entries@.len(),
            forall|i: int|
                0 <= i < final(self).entries@.len() ==> (#[trigger] final(self).entries@[i]).id
                    == old(self).entries@[i].id && final(self).entries@[i].text@ == converted_text(
                    dict.entries_view(),
                    old(self).entries@[i].text@,
                ),
    {
        let n = self.entries.len();
        let mut out: Vec<Entry> = Vec::new();
        let mut i: usize = 0;
        while i < n
            invariant
                0 <= i <= n == self.entries@.len(),
                self.entries@ == old(self).entries@,
                dict.wf(),
                out@.len() == i,
                forall|k: int|
                    0 <= k < i ==> (#[trigger] out@[k]).id == old(self).entries@[k].id
                        && out@[k].text@ == converted_text(
                        dict.entries_view(),
                        old(self).entries@[k].text@,
                    ),
            decreases n - i,
        {
            let ghost t0 = self.entries@[i as int].text@;
            let nt = normalise_text(self.entries[i].text.as_str());
            let mut doc = NormalisedText::empty();
            doc.push_chunk(NormaliserChunk::Text(nt));
            proof {
                assert(doc@ =~= seq![ChunkModel::Text(normalized_of(t0))]);
                assert(crate::chunks::doc_wf(doc@));
            }
            doc.words_to_pronunciation(dict);
            proof {
                assert(doc@[0] == ChunkModel::Pron(
                    chunk_pron(dict.entries_view(), normalized_of(t0)),
                ));
            }
            let chunks = doc.drain_all();
            let new_text = match &chunks[0] {
                NormaliserChunk::Pronunciation(us) => {
                    proof {
                        assert(us@ == chunk_pron(dict.entries_view(), normalized_of(t0)));
                        lemma_words_units_renderable(
                            dict.entries_view(),
                            crate::textnorm::split_words(
                                crate::textnorm::bytes_of_chars(normalized_of(t0)),
                            ),
                        );
                    }
                    if us.len() > 0 {
                        render_pron(us)
                    } else {
                        String::new()
                    }
                },
                _ => {
                    proof {
                        assert(chunks@[0]@ is Pron);
                        assert(false);
                    }
                    String::new()
                },
            };
            out.push(Entry { id: self.entries[i].id.clone(), text: new_text });
            i += 1;
        }
        self.entries = out;
    }
}

} // verus!
