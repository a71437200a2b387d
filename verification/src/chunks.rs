//! Normalized output chunks and the dictionary-driven pronunciation
//! substitution used for corpus preparation.
use vstd::prelude::*;

use crate::textnorm::{bytes_of_chars, chars_of_bytes, lt_128, split_words};
use crate::units::{Phone, Unit};

verus! {

/// One segment of processed output: normalized text, a timed pause in
/// milliseconds, or an explicit phone sequence.
#[derive(Clone, Debug)]
pub enum NormaliserChunk {
    Text(String),
    Break(u64),
    Pronunciation(Vec<Unit>),
}

/// The mathematical value of a chunk.
pub enum ChunkModel {
    Text(Seq<char>),
    Pause(u64),
    Pron(Seq<Unit>),
}

impl View for NormaliserChunk {
    type V = ChunkModel;

    open spec fn view(&self) -> ChunkModel {
        match self {
            NormaliserChunk::Text(t) => ChunkModel::Text(t@),
            NormaliserChunk::Break(ms) => ChunkModel::Pause(*ms),
            NormaliserChunk::Pronunciation(us) => ChunkModel::Pron(us@),
        }
    }
}

/// A chunk is well formed when its text is ASCII, so that the substitution
/// pass can split it into words.
pub open spec fn chunk_wf(c: ChunkModel) -> bool {
    match c {
        ChunkModel::Text(t) => vstd::utf8::is_ascii_chars(t),
        _ => true,
    }
}

/// An ordered document of chunks, consumed in order.
#[derive(Clone, Debug)]
pub struct NormalisedText {
    chunks: Vec<NormaliserChunk>,
}

impl View for NormalisedText {
    type V = Seq<ChunkModel>;

    closed spec fn view(&self) -> Seq<ChunkModel> {
        Seq::new(self.chunks@.len(), |i: int| self.chunks@[i]@)
    }
}

/// One dictionary entry: a word and its candidate pronunciations, best first.
#[derive(Clone, Debug)]
pub struct DictEntry {
    pub word: String,
    pub prons: Vec<Vec<Phone>>,
}

/// An immutable pronunciation dictionary, queried read-only.
#[derive(Clone, Debug)]
pub struct Dictionary {
    entries: Vec<DictEntry>,
}

impl Dictionary {
    /// Every entry carries at least one candidate pronunciation.
    pub closed spec fn wf(&self) -> bool {
        forall|i: int| 0 <= i < self.entries@.len() ==> (#[trigger] self.entries@[i]).prons@.len()
            > 0
    }

    pub closed spec fn entries_view(&self) -> Seq<DictEntry> {
        self.entries@
    }

    pub fn new() -> (r: Dictionary)
        ensures
            r.wf(),
            r.entries_view().len() == 0,
    {
        Dictionary { entries: Vec::new() }
    }

    /// Adds a word with its candidate pronunciations; an empty candidate list
    /// is a caller error and is excluded up front.
    pub fn insert(&mut self, word: String, prons: Vec<Vec<Phone>>)
        requires
            old(self).wf(),
            prons@.len() > 0,
        ensures
            final(self).wf(),
            final(self).entries_view() == old(self).entries_view().push(
                DictEntry { word, prons },
            ),
    {
        self.entries.push(DictEntry { word, prons });
    }

}

/// The first candidate pronunciation for a word, if the dictionary holds one.
pub open spec fn lookup_spec(entries: Seq<DictEntry>, w: Seq<char>) -> Option<Seq<Phone>>
    decreases entries.len(),
{
    if entries.len() == 0 {
        None
    } else if entries[0].word@ == w {
        Some(entries[0].prons@[0]@)
    } else {
        lookup_spec(entries.drop_first(), w)
    }
}

impl Dictionary {
    /// Looks a word up and returns its first candidate pronunciation.
    pub fn lookup(&self, w: &String) -> (r: Option<Vec<Phone>>)
        requires
            self.wf(),
        ensures
            match r {
                Some(p) => lookup_spec(self.entries_view(), w@) == Some(p@),
                None => lookup_spec(self.entries_view(), w@) is None,
            },
    {
        let n = self.entries.len();
        let mut i: usize = 0;
        proof {
            assert(self.entries@.skip(0) =~= self.entries@);
        }
        while i < n
            invariant
                0 <= i <= n == self.entries@.len(),
                self.wf(),
                lookup_spec(self.entries@, w@) == lookup_spec(
                    self.entries@.skip(i as int),
                    w@,
                ),
            decreases n - i,
        {
            proof {
                let t = self.entries@.skip(i as int);
                assert(t[0] == self.entries@[i as int]);
                assert(t.drop_first() =~= self.entries@.skip(i as int + 1));
            }
            if self.entries[i].word.eq(w) {
                let src = &self.entries[i].prons[0];
                let mut p: Vec<Phone> = Vec::new();
                let mut k: usize = 0;
                while k < src.len()
                    invariant
                        0 <= k <= src@.len(),
                        p@ =~= src@.take(k as int),
                    decreases src@.len() - k,
                {
                    p.push(src[k]);
                    k += 1;
                }
                proof {
                    assert(p@ =~= src@);
                }
                return Some(p);
            }
            i += 1;
        }
        proof {
            assert(self.entries@.skip(i as int) =~= Seq::<DictEntry>::empty());
        }
        None
    }
}

/// The units substitution produces for a list of words: for each word found
/// in the dictionary, its phones followed by a space; a word the dictionary
/// misses is dropped without a placeholder.
pub open spec fn words_units(entries: Seq<DictEntry>, ws: Seq<Seq<u8>>) -> Seq<Unit>
    decreases ws.len(),
{
    if ws.len() == 0 {
        Seq::empty()
    } else {
        let rest = words_units(entries, ws.drop_first());
        match lookup_spec(entries, chars_of_bytes(ws[0])) {
            Some(p) => Seq::new(p.len(), |i: int| Unit::Phone(p[i])) + seq![Unit::Space] + rest,
            None => rest,
        }
    }
}

/// The pronunciation substituted for one text chunk.
pub open spec fn chunk_pron(entries: Seq<DictEntry>, t: Seq<char>) -> Seq<Unit> {
    words_units(entries, split_words(bytes_of_chars(t)))
}

} // verus!

verus! {

broadcast use vstd::string::group_string_axioms;

/// A document is well formed when every text chunk holds ASCII text.
pub open spec fn doc_wf(s: Seq<ChunkModel>) -> bool {
    forall|i: int| 0 <= i < s.len() ==> chunk_wf(#[trigger] s[i])
}

/// The concatenated text of the text chunks, in order.
pub open spec fn text_of(s: Seq<ChunkModel>) -> Seq<char>
    decreases s.len(),
{
    if s.len() == 0 {
        Seq::empty()
    } else {
        text_of(s.drop_last()) + (match s.last() {
            ChunkModel::Text(t) => t,
            _ => Seq::empty(),
        })
    }
}

impl NormalisedText {
    pub fn empty() -> (r: NormalisedText)
        ensures
            r@ == Seq::<ChunkModel>::empty(),
    {
        let r = NormalisedText { chunks: Vec::new() };
        proof {
            assert(r@ =~= Seq::<ChunkModel>::empty());
        }
        r
    }

    pub fn push_chunk(&mut self, c: NormaliserChunk)
        ensures
            final(self)@ == old(self)@.push(c@),
    {
        self.chunks.push(c);
        proof {
            assert(self@ =~= old(self)@.push(c@));
        }
    }

    pub fn len(&self) -> (r: usize)
        ensures
            r == self@.len(),
    {
        self.chunks.len()
    }

    /// The concatenation of all text chunks.
    pub fn text(&self) -> (r: String)
        ensures
            r@ == text_of(self@),
    {
        let mut out = String::new();
        let mut i: usize = 0;
        proof {
            assert(text_of(self@.take(0)) =~= Seq::<char>::empty());
        }
        while i < self.chunks.len()
            invariant
                0 <= i <= self.chunks@.len(),
                self@.len() == self.chunks@.len(),
                out@ == text_of(self@.take(i as int)),
            decreases self.chunks@.len() - i,
        {
            proof {
                assert(self@.take(i as int + 1).drop_last() =~= self@.take(i as int));
                assert(self@.take(i as int + 1).last() == self@[i as int]);
            }
            match &self.chunks[i] {
                NormaliserChunk::Text(t) => {
                    out.append(t.as_str());
                },
                _ => {
                    proof {
                        assert(out@ + Seq::<char>::empty() =~= out@);
                    }
                },
            }
            i += 1;
        }
        proof {
            assert(self@.take(self@.len() as int) =~= self@);
        }
        out
    }

    /// Whether the newest chunk is a pronunciation.
    pub fn last_is_pronunciation(&self) -> (r: bool)
        ensures
            r == (self@.len() > 0 && self@.last() is Pron),
    {
        if self.chunks.len() == 0 {
            return false;
        }
        let i = self.chunks.len() - 1;
        match &self.chunks[i] {
            NormaliserChunk::Pronunciation(_) => {
                proof {
                    assert(self@.last() == self.chunks@[i as int]@);
                }
                true
            },
            _ => {
                proof {
                    assert(self@.last() == self.chunks@[i as int]@);
                }
                false
            },
        }
    }

    /// Takes all the chunks out in order, leaving the document empty.
    pub fn drain_all(&mut self) -> (r: Vec<NormaliserChunk>)
        ensures
            r@.len() == old(self)@.len(),
            forall|i: int| 0 <= i < r@.len() ==> (#[trigger] r@[i])@ == old(self)@[i],
            final(self)@ == Seq::<ChunkModel>::empty(),
    {
        let mut tmp: Vec<NormaliserChunk> = Vec::new();
        core::mem::swap(&mut self.chunks, &mut tmp);
        proof {
            assert(self@ =~= Seq::<ChunkModel>::empty());
        }
        tmp
    }
}

/// Builds the pronunciation units for one ASCII text chunk: look up each
/// whitespace-delimited word; a hit contributes its first candidate's phones
/// and a space, a miss contributes nothing.
fn chunk_units(dict: &Dictionary, t: &String) -> (r: Vec<Unit>)
    requires
        dict.wf(),
        vstd::utf8::is_ascii_chars(t@),
    ensures
        r@ == chunk_pron(dict.entries_view(), t@),
{
    let st = t.as_str();
    let tb = st.as_bytes_vec();
    proof {
        assert(vstd::string::is_ascii(st));
        assert(tb@ =~= bytes_of_chars(t@));
        assert forall|i: int| 0 <= i < tb@.len() implies lt_128(#[trigger] tb@[i]) by {
            assert(t@[i] <= '\u{7f}');
            assert(tb@[i] == t@[i] as u8);
        }
    }
    let words = crate::textnorm::split_words_exec(&tb);
    let ghost all = split_words(tb@);
    let mut units: Vec<Unit> = Vec::new();
    let mut k: usize = 0;
    proof {
        assert(all.skip(0) =~~= all);
    }
    while k < words.len()
        invariant
            0 <= k <= words@.len(),
            words@.len() == all.len(),
            forall|i: int| 0 <= i < words@.len() ==> (#[trigger] words@[i])@ == all[i],
            dict.wf(),
            tb@ == bytes_of_chars(t@),
            all == split_words(tb@),
            forall|i: int| 0 <= i < tb@.len() ==> lt_128(#[trigger] tb@[i]),
            words_units(dict.entries_view(), all) == units@ + words_units(
                dict.entries_view(),
                all.skip(k as int),
            ),
        decreases words@.len() - k,
    {
        proof {
            let s = all.skip(k as int);
            assert(s[0] == all[k as int]);
            assert(s.drop_first() =~~= all.skip(k as int + 1));
            crate::textnorm::lemma_split_elems(tb@, |b: u8| lt_128(b));
        }
        let wb = &words[k];
        let mut wcopy: Vec<u8> = Vec::new();
        let mut bi: usize = 0;
        while bi < wb.len()
            invariant
                0 <= bi <= wb@.len(),
                wcopy@ =~= wb@.take(bi as int),
            decreases wb@.len() - bi,
        {
            wcopy.push(wb[bi]);
            bi += 1;
        }
        proof {
            assert(wcopy@ =~= words@[k as int]@);
        }
        let wstr = crate::textnorm::ascii_to_string(wcopy);
        proof {
            assert(wstr@ =~= chars_of_bytes(all[k as int]));
        }
        match dict.lookup(&wstr) {
            Some(p) => {
                let ghost u0 = units@;
                let mut pi: usize = 0;
                while pi < p.len()
                    invariant
                        0 <= pi <= p@.len(),
                        units@ =~= u0 + Seq::new(pi as nat, |i: int| Unit::Phone(p@[i])),
                    decreases p@.len() - pi,
                {
                    units.push(Unit::Phone(p[pi]));
                    pi += 1;
                }
                units.push(Unit::Space);
                proof {
                    let ph = Seq::new(p@.len(), |i: int| Unit::Phone(p@[i]));
                    let rest = words_units(dict.entries_view(), all.skip(k as int + 1));
                    assert(units@ =~= (u0 + ph).push(Unit::Space));
                    assert((u0 + ph).push(Unit::Space) =~= u0 + ph + seq![Unit::Space]);
                    assert(u0 + (ph + seq![Unit::Space] + rest) =~= ((u0 + ph) + seq![Unit::Space])
                        + rest);
                }
            },
            None => {
            },
        }
        k += 1;
    }
    proof {
        assert(all.skip(words@.len() as int) =~~= Seq::<Seq<u8>>::empty());
        assert(units@ + Seq::<Unit>::empty() =~= units@);
    }
    units
}

impl NormalisedText {
    /// Rewrites every text chunk into a pronunciation chunk, word by word;
    /// pauses and existing pronunciations are untouched, and the number and
    /// order of chunks is preserved.
    pub fn words_to_pronunciation(&mut self, dict: &Dictionary)
        requires
            dict.wf(),
            doc_wf(old(self)@),
        ensures
            final(self)@.len() == old(self)@.len(),
            forall|i: int| 0 <= i < final(self)@.len() ==> #[trigger] final(self)@[i] == (
            match old(self)@[i] {
                ChunkModel::Text(t) => ChunkModel::Pron(chunk_pron(dict.entries_view(), t)),
                other => other,
            }),
            doc_wf(final(self)@),
    {
        let n = self.chunks.len();
        let mut out: Vec<NormaliserChunk> = Vec::new();
        let mut i: usize = 0;
        while i < n
            invariant
                0 <= i <= n == self.chunks@.len(),
                self@ == old(self)@,
                self@.len() == n,
                dict.wf(),
                doc_wf(self@),
                out@.len() == i,
                forall|j: int| 0 <= j < i ==> (#[trigger] out@[j])@ == (
                match old(self)@[j] {
                    ChunkModel::Text(t) => ChunkModel::Pron(chunk_pron(dict.entries_view(), t)),
                    other => other,
                }),
            decreases n - i,
        {
            match &self.chunks[i] {
                NormaliserChunk::Text(t) => {
                    proof {
                        assert(self@[i as int] == ChunkModel::Text(t@));
                        assert(chunk_wf(self@[i as int]));
                    }
                    let us = chunk_units(dict, t);
                    out.push(NormaliserChunk::Pronunciation(us));
                },
                NormaliserChunk::Break(ms) => {
                    out.push(NormaliserChunk::Break(*ms));
                },
                NormaliserChunk::Pronunciation(us) => {
                    let mut ucopy: Vec<Unit> = Vec::new();
                    let mut bi: usize = 0;
                    while bi < us.len()
                        invariant
                            0 <= bi <= us@.len(),
                            ucopy@ =~= us@.take(bi as int),
                        decreases us@.len() - bi,
                    {
                        ucopy.push(us[bi]);
                        bi += 1;
                    }
                    proof {
                        assert(ucopy@ =~= us@);
                    }
                    out.push(NormaliserChunk::Pronunciation(ucopy));
                },
            }
            i += 1;
        }
        self.chunks = out;
        proof {
            assert(self@.len() == old(self)@.len());
            assert forall|i: int| 0 <= i < self@.len() implies #[trigger] self@[i] == (
            match old(self)@[i] {
                ChunkModel::Text(t) => ChunkModel::Pron(chunk_pron(dict.entries_view(), t)),
                other => other,
            }) by {
                assert(self@[i] == self.chunks@[i]@);
            }
            assert forall|i: int| 0 <= i < self@.len() implies chunk_wf(#[trigger] self@[i]) by {
                assert(chunk_wf(old(self)@[i]));
            }
        }
    }
}

} // verus!

verus! {

/// Unknown word: a word the dictionary misses contributes no unit at all —
/// the substitution of a word list equals that of the same list with the
/// missed word removed. Substitution is a total function, so the miss also
/// raises no error and stops nothing.
pub proof fn lemma_unknown_word_dropped(entries: Seq<DictEntry>, ws: Seq<Seq<u8>>, k: int)
    requires
        0 <= k < ws.len(),
        lookup_spec(entries, chars_of_bytes(ws[k])) is None,
    ensures
        words_units(entries, ws) == words_units(entries, ws.remove(k)),
    decreases ws.len(),
{
    if k == 0 {
        assert(ws.remove(0) =~~= ws.drop_first());
    } else {
        assert(ws.remove(k)[0] == ws[0]);
        assert(ws.remove(k).drop_first() =~~= ws.drop_first().remove(k - 1));
        assert(ws.drop_first()[k - 1] == ws[k]);
        lemma_unknown_word_dropped(entries, ws.drop_first(), k - 1);
    }
}

} // verus!
