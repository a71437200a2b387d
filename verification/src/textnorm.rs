//! The plain-text normalizer: unicode folding to ASCII, numeral expansion,
//! punctuation filtering and upper-casing, word by word.
//!
//! The mathematical model works on sequences of ASCII bytes: an input is
//! folded to ASCII, split into whitespace-delimited words, each word is
//! rewritten into zero or more output words, and the output words are joined
//! with single spaces.
use vstd::prelude::*;

verus! {

pub open spec fn is_ws_b(b: u8) -> bool {
    b == 32 || b == 9 || b == 10 || b == 12 || b == 13
}

pub open spec fn is_digit_b(b: u8) -> bool {
    48 <= b <= 57
}

/// The fixed disallowed-punctuation set stripped by the normalizer: every
/// ASCII punctuation character.
pub open spec fn disallowed_b(b: u8) -> bool {
    (33 <= b <= 47) || (58 <= b <= 64) || (91 <= b <= 96) || (123 <= b <= 126)
}

pub open spec fn upper_b(b: u8) -> u8 {
    if 97 <= b <= 122 {
        (b - 32) as u8
    } else {
        b
    }
}

/// Hyphens introduced by numeral expansion become spaces; everything else is
/// upper-cased.
pub open spec fn expand_b(b: u8) -> u8 {
    if b == 45 {
        32
    } else {
        upper_b(b)
    }
}

/// Index of the first whitespace byte, or the length if there is none.
pub open spec fn first_ws(s: Seq<u8>) -> int
    decreases s.len(),
{
    if s.len() == 0 {
        0
    } else if is_ws_b(s[0]) {
        0
    } else {
        1 + first_ws(s.drop_first())
    }
}

/// The maximal non-whitespace runs of a byte sequence, in order.
pub open spec fn split_words(s: Seq<u8>) -> Seq<Seq<u8>>
    decreases s.len(),
    via split_words_decreases
{
    if s.len() == 0 {
        Seq::empty()
    } else if is_ws_b(s[0]) {
        split_words(s.drop_first())
    } else {
        seq![s.take(first_ws(s))] + split_words(s.skip(first_ws(s)))
    }
}

#[via_fn]
proof fn split_words_decreases(s: Seq<u8>) {
    if s.len() > 0 && !is_ws_b(s[0]) {
        lemma_first_ws_bounds(s.drop_first());
    }
}

proof fn lemma_first_ws_bounds(s: Seq<u8>)
    ensures
        0 <= first_ws(s) <= s.len(),
    decreases s.len(),
{
    if s.len() == 0 || is_ws_b(s[0]) {
    } else {
        lemma_first_ws_bounds(s.drop_first());
    }
}

proof fn lemma_digit_run_bounds(s: Seq<u8>)
    ensures
        0 <= digit_run(s) <= s.len(),
    decreases s.len(),
{
    if s.len() == 0 || !is_digit_b(s[0]) {
    } else {
        lemma_digit_run_bounds(s.drop_first());
    }
}

/// Strips the disallowed punctuation and upper-cases what remains.
pub open spec fn filter_upper(s: Seq<u8>) -> Seq<u8>
    decreases s.len(),
{
    if s.len() == 0 {
        Seq::empty()
    } else if disallowed_b(s[0]) {
        filter_upper(s.drop_first())
    } else {
        seq![upper_b(s[0])] + filter_upper(s.drop_first())
    }
}

/// Number denoted by a run of decimal digit bytes, most significant first.
pub open spec fn dval(s: Seq<u8>) -> int
    decreases s.len(),
{
    if s.len() == 0 {
        0
    } else {
        dval(s.drop_last()) * 10 + (s.last() - 48)
    }
}

/// Index of the first non-digit byte, or the length if there is none.
pub open spec fn digit_run(s: Seq<u8>) -> int
    decreases s.len(),
{
    if s.len() == 0 {
        0
    } else if !is_digit_b(s[0]) {
        0
    } else {
        1 + digit_run(s.drop_first())
    }
}

pub const MAX_NUMERAL: u64 = 9223372036854775807;

/// A word is expanded as a numeral when it starts with a digit run whose value
/// fits a signed 64-bit number and the remainder of the word is digit-free:
/// `10` and `3D` qualify, so the letters after the run survive on their own.
/// Every other digit-bearing token — a decimal fraction such as `3.5`, a
/// signed number such as `-5`, or `1e3` — is numeral-like but not a plain
/// numeral run and falls back to literal filtering.
pub open spec fn expandable(w: Seq<u8>) -> bool {
    &&& w.len() > 0
    &&& is_digit_b(w[0])
    &&& forall|i: int| digit_run(w) <= i < w.len() ==> !is_digit_b(w[i])
    &&& dval(w.take(digit_run(w))) <= MAX_NUMERAL
}

/// What the locale numeral expansion returns for a number, as its canonical
/// lower-case English words. The exact words are fixed by the expansion
/// backend; only their alphabet is stated alongside the wrapper below.
pub uninterp spec fn cardinal_of(n: int) -> Seq<char>;

/// What the locale ordinal expansion returns for a non-negative number.
pub uninterp spec fn ordinal_of(n: int) -> Seq<char>;

/// What the unicode transliteration returns: a closest-ASCII rewriting.
pub uninterp spec fn fold_of(s: Seq<char>) -> Seq<char>;

/// The alphabet of an expansion result: non-empty; lower-case letters,
/// spaces and hyphens only.
pub open spec fn num_chars_ok(s: Seq<char>) -> bool {
    &&& s.len() > 0
    &&& forall|i: int| 0 <= i < s.len() ==> ('a' <= #[trigger] s[i] <= 'z' || s[i] == ' ' || s[i]
        == '-')
}

pub open spec fn bytes_of_chars(s: Seq<char>) -> Seq<u8> {
    Seq::new(s.len(), |i: int| s[i] as u8)
}

pub open spec fn chars_of_bytes(v: Seq<u8>) -> Seq<char> {
    Seq::new(v.len(), |i: int| v[i] as char)
}

/// An expansion word character as a byte; anything outside the expansion
/// alphabet reads as a space.
pub open spec fn num_byte(c: char) -> u8 {
    if 'a' <= c <= 'z' || c == ' ' || c == '-' {
        c as u8
    } else {
        32
    }
}

/// The expansion of a numeral as output bytes: its words upper-cased with
/// hyphens rewritten as spaces.
pub open spec fn expansion_bytes(n: int) -> Seq<u8> {
    Seq::new(cardinal_of(n).len(), |i: int| expand_b(num_byte(cardinal_of(n)[i])))
}

/// The output words one input word contributes: the expanded numeral words
/// followed by the filtered remainder, or the filtered word itself; empty
/// filter results vanish.
pub open spec fn word_pieces(w: Seq<u8>) -> Seq<Seq<u8>> {
    if expandable(w) {
        split_words(expansion_bytes(dval(w.take(digit_run(w))))) + opt_piece(
            filter_upper(w.skip(digit_run(w))),
        )
    } else {
        opt_piece(filter_upper(w))
    }
}

pub open spec fn opt_piece(p: Seq<u8>) -> Seq<Seq<u8>> {
    if p.len() > 0 {
        seq![p]
    } else {
        Seq::empty()
    }
}

pub open spec fn norm_words(ws: Seq<Seq<u8>>) -> Seq<Seq<u8>>
    decreases ws.len(),
{
    if ws.len() == 0 {
        Seq::empty()
    } else {
        word_pieces(ws[0]) + norm_words(ws.drop_first())
    }
}

/// Joining output words with single spaces.
pub open spec fn join_sp(ps: Seq<Seq<u8>>) -> Seq<u8>
    decreases ps.len(),
{
    if ps.len() == 0 {
        Seq::empty()
    } else {
        ps[0] + join_tail(ps.drop_first())
    }
}

pub open spec fn join_tail(ps: Seq<Seq<u8>>) -> Seq<u8>
    decreases ps.len(),
{
    if ps.len() == 0 {
        Seq::empty()
    } else {
        seq![32u8] + ps[0] + join_tail(ps.drop_first())
    }
}

/// The whole normalizer on folded ASCII bytes.
pub open spec fn norm_bytes(v: Seq<u8>) -> Seq<u8> {
    join_sp(norm_words(split_words(v)))
}

/// The transliteration leaves ASCII text unchanged.
pub open spec fn folded(s: Seq<char>) -> Seq<char> {
    if vstd::utf8::is_ascii_chars(s) {
        s
    } else {
        fold_of(s)
    }
}

/// A folded character as a byte; a character outside ASCII reads as a space.
pub open spec fn fold_byte_of(c: char) -> u8 {
    if (c as u32) < 128 {
        (c as u32) as u8
    } else {
        32u8
    }
}

/// The folded text as bytes.
pub open spec fn fold_bytes(s: Seq<char>) -> Seq<u8> {
    Seq::new(folded(s).len(), |i: int| fold_byte_of(folded(s)[i]))
}

/// The whole normalizer on text: fold to ASCII, then normalize the bytes.
pub open spec fn normalized_of(s: Seq<char>) -> Seq<char> {
    chars_of_bytes(norm_bytes(fold_bytes(s)))
}

} // verus!

verus! {

broadcast use vstd::string::group_string_axioms;

/// Relies on deunicode::deunicode: the result is an ASCII transliteration of
/// the input, and every ASCII character is mapped to itself.
#[verifier::external_body]
fn fold_str(x: &str) -> (r: String)
    ensures
        r@ == fold_of(x@),
        vstd::utf8::is_ascii_chars(r@),
        vstd::utf8::is_ascii_chars(x@) ==> r@ == x@,
{
    deunicode::deunicode(x)
}

/// Relies on num2words (English): cardinal words exist for every signed
/// 64-bit number, and they use only lower-case letters, spaces and hyphens.
#[verifier::external_body]
pub(crate) fn cardinal_words(n: i64) -> (r: String)
    ensures
        r@ == cardinal_of(n as int),
        num_chars_ok(r@),
        vstd::utf8::is_ascii_chars(r@),
{
    match num2words::Num2Words::new(n).cardinal().to_words() {
        Ok(s) => s,
        Err(_) => String::new(),
    }
}

/// Relies on num2words (English): ordinal words exist for every non-negative
/// signed 64-bit number, with the same alphabet as cardinals.
#[verifier::external_body]
pub(crate) fn ordinal_words(n: i64) -> (r: String)
    requires
        n >= 0,
    ensures
        r@ == ordinal_of(n as int),
        num_chars_ok(r@),
        vstd::utf8::is_ascii_chars(r@),
{
    match num2words::Num2Words::new(n).ordinal().to_words() {
        Ok(s) => s,
        Err(_) => String::new(),
    }
}

/// Relies on String::from_utf8: ASCII bytes are valid UTF-8 and decode to the
/// characters with the same code points.
#[verifier::external_body]
pub(crate) fn ascii_to_string(v: Vec<u8>) -> (r: String)
    requires
        forall|i: int| 0 <= i < v@.len() ==> v@[i] < 128,
    ensures
        r@.len() == v@.len(),
        forall|i: int| 0 <= i < v@.len() ==> r@[i] == (#[trigger] v@[i]) as char,
{
    match String::from_utf8(v) {
        Ok(s) => s,
        Err(_) => String::new(),
    }
}

fn is_ws_exec(b: u8) -> (r: bool)
    ensures
        r == is_ws_b(b),
{
    b == 32 || b == 9 || b == 10 || b == 12 || b == 13
}

fn disallowed_exec(b: u8) -> (r: bool)
    ensures
        r == disallowed_b(b),
{
    (33 <= b && b <= 47) || (58 <= b && b <= 64) || (91 <= b && b <= 96) || (123 <= b && b <= 126)
}

proof fn lemma_first_ws_props(s: Seq<u8>)
    ensures
        0 <= first_ws(s) <= s.len(),
        forall|k: int| 0 <= k < first_ws(s) ==> !is_ws_b(#[trigger] s[k]),
        first_ws(s) < s.len() ==> is_ws_b(s[first_ws(s)]),
    decreases s.len(),
{
    if s.len() == 0 || is_ws_b(s[0]) {
    } else {
        lemma_first_ws_props(s.drop_first());
        assert forall|k: int| 0 <= k < first_ws(s) implies !is_ws_b(#[trigger] s[k]) by {
            if k > 0 {
                assert(s.drop_first()[k - 1] == s[k]);
            }
        }
        if first_ws(s) < s.len() {
            assert(s.drop_first()[first_ws(s) - 1] == s[first_ws(s)]);
        }
    }
}

proof fn lemma_first_ws_at(s: Seq<u8>, m: int)
    requires
        0 <= m <= s.len(),
        forall|k: int| 0 <= k < m ==> !is_ws_b(#[trigger] s[k]),
        m < s.len() ==> is_ws_b(s[m]),
    ensures
        first_ws(s) == m,
    decreases s.len(),
{
    if m == 0 {
    } else {
        assert(!is_ws_b(s[0]));
        assert forall|k: int| 0 <= k < m - 1 implies !is_ws_b(#[trigger] s.drop_first()[k]) by {
            assert(s.drop_first()[k] == s[k + 1]);
        }
        assert(m - 1 < s.drop_first().len() ==> is_ws_b(s.drop_first()[m - 1]));
        lemma_first_ws_at(s.drop_first(), m - 1);
    }
}

proof fn lemma_digit_run_at(s: Seq<u8>, m: int)
    requires
        0 <= m <= s.len(),
        forall|k: int| 0 <= k < m ==> is_digit_b(#[trigger] s[k]),
        m < s.len() ==> !is_digit_b(s[m]),
    ensures
        digit_run(s) == m,
    decreases s.len(),
{
    if m == 0 {
    } else {
        assert(is_digit_b(s[0]));
        assert forall|k: int| 0 <= k < m - 1 implies is_digit_b(#[trigger] s.drop_first()[k]) by {
            assert(s.drop_first()[k] == s[k + 1]);
        }
        assert(m - 1 < s.drop_first().len() ==> !is_digit_b(s.drop_first()[m - 1]));
        lemma_digit_run_at(s.drop_first(), m - 1);
    }
}

proof fn lemma_split_unfold_ws(s: Seq<u8>, i: int)
    requires
        0 <= i < s.len(),
        is_ws_b(s[i]),
    ensures
        split_words(s.skip(i)) == split_words(s.skip(i + 1)),
{
    assert(s.skip(i)[0] == s[i]);
    assert(s.skip(i).drop_first() =~= s.skip(i + 1));
}

proof fn lemma_split_unfold_word(s: Seq<u8>, i: int, j: int)
    requires
        0 <= i < j <= s.len(),
        forall|k: int| i <= k < j ==> !is_ws_b(#[trigger] s[k]),
        j < s.len() ==> is_ws_b(s[j]),
    ensures
        split_words(s.skip(i)) == seq![s.subrange(i, j)] + split_words(s.skip(j)),
{
    let t = s.skip(i);
    assert forall|k: int| 0 <= k < j - i implies !is_ws_b(#[trigger] t[k]) by {
        assert(t[k] == s[i + k]);
    }
    assert(j - i < t.len() ==> is_ws_b(t[j - i]));
    lemma_first_ws_at(t, j - i);
    assert(!is_ws_b(t[0]));
    assert(t.take(j - i) =~= s.subrange(i, j));
    assert(t.skip(j - i) =~= s.skip(j));
}

pub(crate) proof fn lemma_split_elems(s: Seq<u8>, p: spec_fn(u8) -> bool)
    requires
        forall|i: int| 0 <= i < s.len() ==> p(#[trigger] s[i]),
    ensures
        forall|j: int| 0 <= j < split_words(s).len() ==> (#[trigger] split_words(s)[j]).len() > 0,
        forall|j: int, k: int|
            0 <= j < split_words(s).len() && 0 <= k < split_words(s)[j].len() ==> p(
                #[trigger] split_words(s)[j][k],
            ) && !is_ws_b(split_words(s)[j][k]),
    decreases s.len(),
{
    if s.len() == 0 {
    } else if is_ws_b(s[0]) {
        assert forall|i: int| 0 <= i < s.drop_first().len() implies p(
            #[trigger] s.drop_first()[i],
        ) by {
            assert(s.drop_first()[i] == s[i + 1]);
        }
        lemma_split_elems(s.drop_first(), p);
        assert(split_words(s) == split_words(s.drop_first()));
    } else {
        lemma_first_ws_props(s);
        let fw = first_ws(s);
        assert(fw >= 1);
        assert forall|i: int| 0 <= i < s.skip(fw).len() implies p(#[trigger] s.skip(fw)[i]) by {
            assert(s.skip(fw)[i] == s[fw + i]);
        }
        lemma_split_elems(s.skip(fw), p);
        let head = s.take(fw);
        assert(head.len() > 0);
        assert(forall|k: int| 0 <= k < head.len() ==> #[trigger] head[k] == s[k]);
        assert forall|j: int, k: int|
            0 <= j < split_words(s).len() && 0 <= k < split_words(s)[j].len() implies p(
            #[trigger] split_words(s)[j][k],
        ) && !is_ws_b(split_words(s)[j][k]) by {
            if j == 0 {
                assert(split_words(s)[0] == head);
            } else {
                assert(split_words(s)[j] == split_words(s.skip(fw))[j - 1]);
            }
        }
        assert forall|j: int| 0 <= j < split_words(s).len() implies (#[trigger] split_words(
            s,
        )[j]).len() > 0 by {
            if j > 0 {
                assert(split_words(s)[j] == split_words(s.skip(fw))[j - 1]);
            }
        }
    }
}

proof fn lemma_filter_upper_elems(s: Seq<u8>, p: spec_fn(u8) -> bool)
    requires
        forall|i: int| 0 <= i < s.len() ==> p(#[trigger] s[i]),
        forall|b: u8| p(b) ==> p(#[trigger] upper_b(b)),
    ensures
        forall|j: int|
            0 <= j < filter_upper(s).len() ==> p(#[trigger] filter_upper(s)[j]) && !disallowed_b(
                filter_upper(s)[j],
            ) && !(97 <= filter_upper(s)[j] <= 122),
    decreases s.len(),
{
    if s.len() == 0 {
    } else {
        assert forall|i: int| 0 <= i < s.drop_first().len() implies p(
            #[trigger] s.drop_first()[i],
        ) by {
            assert(s.drop_first()[i] == s[i + 1]);
        }
        lemma_filter_upper_elems(s.drop_first(), p);
        if disallowed_b(s[0]) {
            assert(filter_upper(s) == filter_upper(s.drop_first()));
        }
        if !disallowed_b(s[0]) {
            assert forall|j: int|
                0 <= j < filter_upper(s).len() implies p(#[trigger] filter_upper(s)[j])
                && !disallowed_b(filter_upper(s)[j]) && !(97 <= filter_upper(s)[j] <= 122) by {
                if j == 0 {
                    assert(filter_upper(s)[0] == upper_b(s[0]));
                } else {
                    assert(filter_upper(s)[j] == filter_upper(s.drop_first())[j - 1]);
                }
            }
        }
    }
}

pub(crate) fn split_words_exec(v: &Vec<u8>) -> (r: Vec<Vec<u8>>)
    ensures
        r@.len() == split_words(v@).len(),
        forall|i: int| 0 <= i < r@.len() ==> (#[trigger] r@[i])@ == split_words(v@)[i],
{
    let mut r: Vec<Vec<u8>> = Vec::new();
    let ghost mut m: Seq<Seq<u8>> = Seq::empty();
    let mut i: usize = 0;
    proof {
        assert(v@.skip(0) =~= v@);
        assert(m + split_words(v@) =~~= split_words(v@));
    }
    while i < v.len()
        invariant
            i <= v@.len(),
            m.len() == r@.len(),
            forall|ii: int| 0 <= ii < r@.len() ==> (#[trigger] r@[ii])@ == m[ii],
            split_words(v@) == m + split_words(v@.skip(i as int)),
        decreases v@.len() - i,
    {
        if is_ws_exec(v[i]) {
            proof {
                lemma_split_unfold_ws(v@, i as int);
            }
            i += 1;
        } else {
            let start = i;
            let mut j = i;
            while j < v.len() && !is_ws_exec(v[j])
                invariant
                    start <= j <= v@.len(),
                    forall|k: int| start <= k < j ==> !is_ws_b(#[trigger] v@[k]),
                decreases v@.len() - j,
            {
                j += 1;
            }
            let mut w: Vec<u8> = Vec::new();
            let mut k = start;
            while k < j
                invariant
                    start <= k <= j <= v@.len(),
                    w@ =~= v@.subrange(start as int, k as int),
                decreases j - k,
            {
                w.push(v[k]);
                k += 1;
            }
            proof {
                lemma_split_unfold_word(v@, start as int, j as int);
                assert(w@ =~= v@.subrange(start as int, j as int));
            }
            let ghost old_m = m;
            let ghost wv = w@;
            r.push(w);
            proof {
                m = m.push(wv);
                assert(old_m.push(wv) =~~= old_m + seq![wv]);
                assert((old_m + seq![wv]) + split_words(v@.skip(j as int)) =~~= old_m + (seq![wv]
                    + split_words(v@.skip(j as int))));
            }
            i = j;
        }
    }
    proof {
        assert(v@.skip(i as int) =~= Seq::<u8>::empty());
        assert(m + Seq::<Seq<u8>>::empty() =~~= m);
    }
    r
}

fn filter_upper_exec(v: &Vec<u8>, from: usize) -> (r: Vec<u8>)
    requires
        from <= v@.len(),
    ensures
        r@ == filter_upper(v@.skip(from as int)),
{
    let mut r: Vec<u8> = Vec::new();
    let mut i = from;
    while i < v.len()
        invariant
            from <= i <= v@.len(),
            filter_upper(v@.skip(from as int)) == r@ + filter_upper(v@.skip(i as int)),
        decreases v@.len() - i,
    {
        proof {
            let t = v@.skip(i as int);
            assert(t[0] == v@[i as int]);
            assert(t.drop_first() =~= v@.skip(i as int + 1));
        }
        let b = v[i];
        if !disallowed_exec(b) {
            let ghost old_r = r@;
            let ub = if 97 <= b && b <= 122 {
                b - 32
            } else {
                b
            };
            assert(ub == upper_b(b));
            r.push(ub);
            proof {
                assert(r@ =~= old_r + seq![upper_b(v@[i as int])]);
                assert((old_r + seq![upper_b(v@[i as int])]) + filter_upper(v@.skip(i as int + 1))
                    =~= old_r + (seq![upper_b(v@[i as int])] + filter_upper(v@.skip(i as int + 1))));
            }
        }
        i += 1;
    }
    proof {
        assert(v@.skip(i as int) =~= Seq::<u8>::empty());
        assert(r@ + filter_upper(Seq::<u8>::empty()) =~= r@);
    }
    r
}

pub open spec fn lt_128(b: u8) -> bool {
    b < 128
}

proof fn lemma_dval_mono(s: Seq<u8>, i: int)
    requires
        0 <= i <= s.len(),
        forall|k: int| 0 <= k < s.len() ==> is_digit_b(#[trigger] s[k]),
    ensures
        dval(s) >= dval(s.take(i)) >= 0,
    decreases s.len(),
{
    if s.len() == 0 {
        assert(s.take(i) =~= s);
    } else if i == s.len() {
        assert(s.take(i) =~= s);
        let dl = s.drop_last();
        assert forall|k: int| 0 <= k < dl.len() implies is_digit_b(#[trigger] dl[k]) by {
            assert(dl[k] == s[k]);
        }
        lemma_dval_mono(dl, dl.len() as int);
        assert(dval(s) == dval(dl) * 10 + (s.last() - 48));
    } else {
        let dl = s.drop_last();
        assert forall|k: int| 0 <= k < dl.len() implies is_digit_b(#[trigger] dl[k]) by {
            assert(dl[k] == s[k]);
        }
        lemma_dval_mono(dl, i);
        assert(s.take(i) =~= dl.take(i));
        assert(dval(s) == dval(dl) * 10 + (s.last() - 48));
    }
}

fn is_digit_exec(b: u8) -> (r: bool)
    ensures
        r == is_digit_b(b),
{
    48 <= b && b <= 57
}

proof fn lemma_dval_step(s: Seq<u8>, i: int)
    requires
        0 <= i < s.len(),
    ensures
        dval(s.take(i + 1)) == dval(s.take(i)) * 10 + (s[i] - 48),
{
    assert(s.take(i + 1).drop_last() =~= s.take(i));
    assert(s.take(i + 1).last() == s[i]);
}

/// The output words contributed by one input word.
fn word_pieces_exec(w: &Vec<u8>) -> (r: Vec<Vec<u8>>)
    ensures
        r@.len() == word_pieces(w@).len(),
        forall|i: int| 0 <= i < r@.len() ==> (#[trigger] r@[i])@ == word_pieces(w@)[i],
        forall|i: int| 0 <= i < r@.len() ==> (#[trigger] r@[i])@.len() > 0,
        (forall|k: int| 0 <= k < w@.len() ==> lt_128(#[trigger] w@[k])) ==> forall|i: int, k: int|
            0 <= i < r@.len() && 0 <= k < r@[i]@.len() ==> lt_128(#[trigger] r@[i]@[k]),
{
    let mut expand = false;
    let mut run_end: usize = 0;
    let mut val: u64 = 0;
    if w.len() > 0 && is_digit_exec(w[0]) {
        let mut j: usize = 0;
        while j < w.len() && is_digit_exec(w[j])
            invariant
                0 <= j <= w@.len(),
                forall|k: int| 0 <= k < j ==> is_digit_b(#[trigger] w@[k]),
            decreases w@.len() - j,
        {
            j += 1;
        }
        run_end = j;
        proof {
            lemma_digit_run_at(w@, run_end as int);
        }
        let mut rest_ok = true;
        let mut k = j;
        while k < w.len()
            invariant
                j <= k <= w@.len(),
                rest_ok <==> (forall|t: int| j <= t < k ==> !is_digit_b(#[trigger] w@[t])),
            decreases w@.len() - k,
        {
            if is_digit_exec(w[k]) {
                rest_ok = false;
            }
            k += 1;
        }
        if rest_ok {
            // Parse the digit run, watching for overflow past the largest
            // numeral the expansion accepts.
            let ghost run = w@.take(run_end as int);
            proof {
                assert forall|t: int| 0 <= t < run.len() implies is_digit_b(#[trigger] run[t]) by {
                    assert(run[t] == w@[t]);
                }
                assert(run.take(0) =~= Seq::<u8>::empty());
            }
            let mut ok = true;
            let mut i: usize = 0;
            while i < run_end
                invariant
                    0 <= i <= run_end <= w@.len(),
                    run == w@.take(run_end as int),
                    forall|t: int| 0 <= t < run.len() ==> is_digit_b(#[trigger] run[t]),
                    ok ==> val == dval(run.take(i as int)),
                    !ok ==> dval(run) > MAX_NUMERAL,
                decreases run_end - i,
            {
                proof {
                    assert(run[i as int] == w@[i as int]);
                    lemma_dval_step(run, i as int);
                }
                if ok {
                    let d = w[i] - 48;
                    let next = match val.checked_mul(10) {
                        Some(t) => t.checked_add(d as u64),
                        None => None,
                    };
                    match next {
                        Some(t) => {
                            val = t;
                        },
                        None => {
                            proof {
                                lemma_dval_mono(run, i as int + 1);
                            }
                            ok = false;
                        },
                    }
                }
                i += 1;
            }
            proof {
                if ok {
                    assert(run.take(run_end as int) =~= run);
                }
            }
            if ok && val <= MAX_NUMERAL {
                expand = true;
            }
            proof {
                assert(expandable(w@) <==> (expand == true));
            }
        } else {
            proof {
                assert(!expandable(w@));
            }
        }
    } else {
        proof {
            assert(!expandable(w@));
        }
    }
    if expand {
        let ghost n = dval(w@.take(digit_run(w@)));
        let cs = cardinal_words(val as i64);
        let st = cs.as_str();
        let cb = st.as_bytes_vec();
        proof {
            assert(vstd::string::is_ascii(st));
            assert(cb@ =~= bytes_of_chars(cs@));
        }
        let mut eb: Vec<u8> = Vec::new();
        let mut i: usize = 0;
        while i < cb.len()
            invariant
                0 <= i <= cb@.len(),
                eb@.len() == i,
                forall|t: int| 0 <= t < i ==> #[trigger] eb@[t] == expand_b(cb@[t]),
            decreases cb@.len() - i,
        {
            let b = cb[i];
            let e = if b == 45 {
                32
            } else if 97 <= b && b <= 122 {
                b - 32
            } else {
                b
            };
            assert(e == expand_b(cb@[i as int]));
            eb.push(e);
            i += 1;
        }
        proof {
            assert forall|t: int| 0 <= t < eb@.len() implies #[trigger] eb@[t] == expansion_bytes(
                n,
            )[t] by {
                assert(num_chars_ok(cs@));
                assert(cb@[t] == cs@[t] as u8);
                assert(num_byte(cs@[t]) == cs@[t] as u8);
            }
            assert(eb@ =~= expansion_bytes(n));
            assert forall|t: int| 0 <= t < eb@.len() implies lt_128(#[trigger] eb@[t]) by {
                assert(cs@[t] <= '\u{7f}');
                assert(eb@[t] == expand_b(cs@[t] as u8));
            }
            lemma_split_elems(eb@, |b: u8| lt_128(b));
        }
        let mut out = split_words_exec(&eb);
        let rest = filter_upper_exec(w, run_end);
        proof {
            if forall|k: int| 0 <= k < w@.len() ==> lt_128(#[trigger] w@[k]) {
                assert forall|t: int|
                    0 <= t < w@.skip(run_end as int).len() implies lt_128(
                    #[trigger] w@.skip(run_end as int)[t],
                ) by {
                    assert(w@.skip(run_end as int)[t] == w@[run_end + t]);
                }
                lemma_filter_upper_elems(w@.skip(run_end as int), |b: u8| lt_128(b));
            }
        }
        let ghost split_part = split_words(expansion_bytes(n));
        if rest.len() > 0 {
            out.push(rest);
        }
        proof {
            assert(word_pieces(w@) == split_part + opt_piece(
                filter_upper(w@.skip(digit_run(w@)))));
        }
        out
    } else {
        let fu = filter_upper_exec(w, 0);
        proof {
            assert(w@.skip(0) =~= w@);
            if forall|k: int| 0 <= k < w@.len() ==> lt_128(#[trigger] w@[k]) {
                lemma_filter_upper_elems(w@, |b: u8| lt_128(b));
            }
        }
        let mut out: Vec<Vec<u8>> = Vec::new();
        if fu.len() > 0 {
            out.push(fu);
        }
        out
    }
}

} // verus!

verus! {

proof fn lemma_norm_words_push(ws: Seq<Seq<u8>>, w: Seq<u8>)
    ensures
        norm_words(ws.push(w)) == norm_words(ws) + word_pieces(w),
    decreases ws.len(),
{
    if ws.len() == 0 {
        assert(ws.push(w)[0] == w);
        assert(ws.push(w).drop_first() =~~= Seq::<Seq<u8>>::empty());
        assert(norm_words(Seq::<Seq<u8>>::empty()) =~~= Seq::<Seq<u8>>::empty());
        assert(norm_words(ws.push(w)) =~~= word_pieces(w) + Seq::<Seq<u8>>::empty());
        assert(word_pieces(w) + Seq::<Seq<u8>>::empty() =~~= Seq::<Seq<u8>>::empty()
            + word_pieces(w));
    } else {
        assert(ws.push(w)[0] == ws[0]);
        assert(ws.push(w).drop_first() =~~= ws.drop_first().push(w));
        lemma_norm_words_push(ws.drop_first(), w);
        assert((word_pieces(ws[0]) + norm_words(ws.drop_first())) + word_pieces(w)
            =~~= word_pieces(ws[0]) + (norm_words(ws.drop_first()) + word_pieces(w)));
    }
}

proof fn lemma_join_tail_push(ps: Seq<Seq<u8>>, p: Seq<u8>)
    ensures
        join_tail(ps.push(p)) == join_tail(ps) + seq![32u8] + p,
    decreases ps.len(),
{
    if ps.len() == 0 {
        assert(ps.push(p)[0] == p);
        assert(ps.push(p).drop_first() =~~= Seq::<Seq<u8>>::empty());
        assert(join_tail(Seq::<Seq<u8>>::empty()) =~= Seq::<u8>::empty());
        assert(join_tail(ps.push(p)) =~= seq![32u8] + p + Seq::<u8>::empty());
        assert(seq![32u8] + p + Seq::<u8>::empty() =~= Seq::<u8>::empty() + seq![32u8] + p);
    } else {
        assert(ps.push(p)[0] == ps[0]);
        assert(ps.push(p).drop_first() =~~= ps.drop_first().push(p));
        lemma_join_tail_push(ps.drop_first(), p);
        assert(seq![32u8] + ps[0] + (join_tail(ps.drop_first()) + seq![32u8] + p) =~= (seq![32u8]
            + ps[0] + join_tail(ps.drop_first())) + seq![32u8] + p);
    }
}

proof fn lemma_join_push(ps: Seq<Seq<u8>>, p: Seq<u8>)
    ensures
        ps.len() == 0 ==> join_sp(ps.push(p)) == p,
        ps.len() > 0 ==> join_sp(ps.push(p)) == join_sp(ps) + seq![32u8] + p,
{
    if ps.len() == 0 {
        assert(ps.push(p)[0] == p);
        assert(ps.push(p).drop_first() =~~= Seq::<Seq<u8>>::empty());
        assert(p + Seq::<u8>::empty() =~= p);
    } else {
        assert(ps.push(p)[0] == ps[0]);
        assert(ps.push(p).drop_first() =~~= ps.drop_first().push(p));
        lemma_join_tail_push(ps.drop_first(), p);
        assert(ps[0] + (join_tail(ps.drop_first()) + seq![32u8] + p) =~= (ps[0] + join_tail(
        ps.drop_first())) + seq![32u8] + p);
    }
}

/// The normalizer on a buffer of ASCII bytes.
fn normalise_bytes(v: &Vec<u8>) -> (r: Vec<u8>)
    requires
        forall|i: int| 0 <= i < v@.len() ==> lt_128(#[trigger] v@[i]),
    ensures
        r@ == norm_bytes(v@),
        forall|i: int| 0 <= i < r@.len() ==> lt_128(#[trigger] r@[i]),
{
    let words = split_words_exec(v);
    proof {
        lemma_split_elems(v@, |b: u8| lt_128(b));
    }
    let mut pieces: Vec<Vec<u8>> = Vec::new();
    let ghost mut m: Seq<Seq<u8>> = Seq::empty();
    let mut wi: usize = 0;
    proof {
        assert(split_words(v@).take(0) =~~= Seq::<Seq<u8>>::empty());
    }
    while wi < words.len()
        invariant
            0 <= wi <= words@.len(),
            words@.len() == split_words(v@).len(),
            forall|i: int| 0 <= i < words@.len() ==> (#[trigger] words@[i])@ == split_words(v@)[i],
            forall|i: int| 0 <= i < v@.len() ==> lt_128(#[trigger] v@[i]),
            m.len() == pieces@.len(),
            forall|i: int| 0 <= i < pieces@.len() ==> (#[trigger] pieces@[i])@ == m[i],
            m == norm_words(split_words(v@).take(wi as int)),
            forall|i: int| 0 <= i < m.len() ==> (#[trigger] m[i]).len() > 0,
            forall|i: int, k: int| 0 <= i < m.len() && 0 <= k < m[i].len() ==> lt_128(
                #[trigger] m[i][k],
            ),
        decreases words@.len() - wi,
    {
        proof {
            assert forall|k: int|
                0 <= k < words@[wi as int]@.len() implies lt_128(
                #[trigger] words@[wi as int]@[k],
            ) by {
                lemma_split_elems(v@, |b: u8| lt_128(b));
                assert(words@[wi as int]@ == split_words(v@)[wi as int]);
                assert(lt_128(split_words(v@)[wi as int][k]));
            }
        }
        let ps = word_pieces_exec(&words[wi]);
        let ghost wp = word_pieces(words@[wi as int]@);
        let mut pk: usize = 0;
        let ghost m0 = m;
        while pk < ps.len()
            invariant
                0 <= pk <= ps@.len(),
                ps@.len() == wp.len(),
                forall|i: int| 0 <= i < ps@.len() ==> (#[trigger] ps@[i])@ == wp[i],
                forall|i: int| 0 <= i < ps@.len() ==> (#[trigger] ps@[i])@.len() > 0,
                forall|i: int, k: int| 0 <= i < ps@.len() && 0 <= k < ps@[i]@.len() ==> lt_128(
                    #[trigger] ps@[i]@[k],
                ),
                m.len() == pieces@.len(),
                forall|i: int| 0 <= i < pieces@.len() ==> (#[trigger] pieces@[i])@ == m[i],
                m == m0 + wp.take(pk as int),
                forall|i: int| 0 <= i < m.len() ==> (#[trigger] m[i]).len() > 0,
                forall|i: int, k: int| 0 <= i < m.len() && 0 <= k < m[i].len() ==> lt_128(
                    #[trigger] m[i][k],
                ),
            decreases ps@.len() - pk,
        {
            let mut one: Vec<u8> = Vec::new();
            let mut bi: usize = 0;
            while bi < ps[pk].len()
                invariant
                    0 <= pk < ps@.len(),
                    0 <= bi <= ps@[pk as int]@.len(),
                    one@ =~= ps@[pk as int]@.take(bi as int),
                decreases ps@[pk as int]@.len() - bi,
            {
                one.push(ps[pk][bi]);
                bi += 1;
            }
            proof {
                assert(one@ =~= ps@[pk as int]@);
            }
            pieces.push(one);
            proof {
                m = m.push(wp[pk as int]);
                assert(m =~~= m0 + wp.take(pk as int + 1));
            }
            pk += 1;
        }
        proof {
            assert(wp.take(wp.len() as int) =~~= wp);
            assert(split_words(v@).take(wi as int).push(split_words(v@)[wi as int])
                =~~= split_words(v@).take(wi as int + 1));
            lemma_norm_words_push(split_words(v@).take(wi as int), split_words(v@)[wi as int]);
        }
        wi += 1;
    }
    proof {
        assert(split_words(v@).take(split_words(v@).len() as int) =~~= split_words(v@));
    }
    // Join the output words with single spaces.
    let mut out: Vec<u8> = Vec::new();
    let mut pi: usize = 0;
    proof {
        assert(m.take(0) =~~= Seq::<Seq<u8>>::empty());
    }
    while pi < pieces.len()
        invariant
            0 <= pi <= pieces@.len(),
            m.len() == pieces@.len(),
            forall|i: int| 0 <= i < pieces@.len() ==> (#[trigger] pieces@[i])@ == m[i],
            forall|i: int, k: int| 0 <= i < m.len() && 0 <= k < m[i].len() ==> lt_128(
                #[trigger] m[i][k],
            ),
            out@ == join_sp(m.take(pi as int)),
            forall|i: int| 0 <= i < out@.len() ==> lt_128(#[trigger] out@[i]),
        decreases pieces@.len() - pi,
    {
        let ghost out0 = out@;
        if pi > 0 {
            out.push(32);
        }
        let mut bi: usize = 0;
        let ghost mid = out@;
        while bi < pieces[pi].len()
            invariant
                0 <= pi < pieces@.len(),
                0 <= bi <= pieces@[pi as int]@.len(),
                out@ =~= mid + pieces@[pi as int]@.take(bi as int),
            decreases pieces@[pi as int]@.len() - bi,
        {
            out.push(pieces[pi][bi]);
            bi += 1;
        }
        proof {
            assert(out@ =~= mid + m[pi as int]);
            assert(m.take(pi as int).push(m[pi as int]) =~~= m.take(pi as int + 1));
            lemma_join_push(m.take(pi as int), m[pi as int]);
            if pi == 0 {
                assert(out@ =~= join_sp(m.take(1)));
            } else {
                assert(out@ =~= (join_sp(m.take(pi as int)) + seq![32u8]) + m[pi as int]);
                assert((join_sp(m.take(pi as int)) + seq![32u8]) + m[pi as int] =~= join_sp(
                m.take(pi as int)) + seq![32u8] + m[pi as int]);
            }
            assert forall|i: int| 0 <= i < out@.len() implies lt_128(#[trigger] out@[i]) by {
                if i >= mid.len() {
                    assert(out@[i] == m[pi as int][i - mid.len()]);
                }
            }
        }
        pi += 1;
    }
    proof {
        assert(m.take(m.len() as int) =~~= m);
    }
    out
}

/// Normalizes raw text: transliterate to ASCII, expand numerals word by word,
/// strip disallowed punctuation, upper-case, and join with single spaces.
pub fn normalise_text(x: &str) -> (r: String)
    ensures
        r@ == normalized_of(x@),
        vstd::utf8::is_ascii_chars(r@),
{
    let fv = fold_str(x);
    let fs = fv.as_str();
    let fb = fs.as_bytes_vec();
    proof {
        assert(vstd::string::is_ascii(fs));
        assert(fb@ =~= bytes_of_chars(fv@));
        assert(fv@ == folded(x@));
        assert forall|i: int| 0 <= i < fb@.len() implies lt_128(#[trigger] fb@[i]) by {
            assert(fv@[i] <= '\u{7f}');
            assert(fb@[i] == fv@[i] as u8);
        }
        assert(fb@ =~= fold_bytes(x@));
    }
    let nb = normalise_bytes(&fb);
    let out = ascii_to_string(nb);
    proof {
        assert(out@ =~= normalized_of(x@));
        assert forall|i: int| 0 <= i < out@.len() implies '\0' <= #[trigger] out@[i] <= '\u{7f}' by {
            assert(out@[i] == nb@[i] as char);
            assert(lt_128(nb@[i]));
        }
    }
    out
}

} // verus!

verus! {

pub open spec fn is_digit_c(c: char) -> bool {
    48 <= c as u32 <= 57
}

/// Number of consecutive digit characters ending at index `i`, scanning left.
pub open spec fn trailing_digits(s: Seq<char>, i: int) -> int
    decreases i + 1,
{
    if i < 0 || i >= s.len() || !is_digit_c(s[i]) {
        0
    } else {
        1 + trailing_digits(s, i - 1)
    }
}

/// Length of a dictionary-variant suffix `(digits)` at the end of a word, or
/// zero if there is none.
pub open spec fn version_suffix_len(s: Seq<char>) -> int {
    if s.len() >= 3 && s[s.len() - 1] == ')' {
        let d = trailing_digits(s, s.len() - 2);
        if d >= 1 && s.len() - 2 - d >= 0 && s[s.len() - 2 - d] == '(' {
            d + 2
        } else {
            0
        }
    } else {
        0
    }
}

/// A dictionary key with any variant suffix removed.
pub open spec fn version_stripped(s: Seq<char>) -> Seq<char> {
    s.take(s.len() - version_suffix_len(s))
}

proof fn lemma_trailing_at(s: Seq<char>, i: int, m: int)
    requires
        0 <= i < s.len(),
        0 <= m <= i + 1,
        forall|t: int| i - m < t <= i ==> is_digit_c(#[trigger] s[t]),
        i - m >= 0 ==> !is_digit_c(s[i - m]),
    ensures
        trailing_digits(s, i) == m,
    decreases m,
{
    if m == 0 {
    } else {
        assert(is_digit_c(s[i]));
        if i == 0 {
            assert(trailing_digits(s, -1) == 0);
        } else {
            lemma_trailing_at(s, i - 1, m - 1);
        }
    }
}

/// Normalizes a pronunciation-dictionary key: removes a duplicate-variant
/// suffix such as `(2)` before normalizing the remaining text.
pub fn dict_normalise(x: &str) -> (r: String)
    ensures
        r@ == normalized_of(version_stripped(x@)),
{
    let n = x.unicode_len();
    let mut cut: usize = 0;
    if n >= 3 && x.get_char(n - 1) == ')' {
        let mut m: usize = 0;
        let mut stopped = false;
        while !stopped && m <= n - 2
            invariant
                3 <= n == x@.len(),
                x@[n - 1] == ')',
                0 <= m <= n - 1,
                forall|t: int| (n - 2 - m) < t <= n - 2 ==> is_digit_c(#[trigger] x@[t]),
                stopped ==> (n - 2 - m >= 0 && !is_digit_c(x@[n - 2 - m])),
                !stopped ==> m <= n - 1,
            decreases n - m + (if stopped { 0int } else { 1int }),
        {
            if m == n - 2 + 1 {
                stopped = true;
            } else {
                let c = x.get_char(n - 2 - m);
                let cu = c as u32;
                if 48 <= cu && cu <= 57 {
                    m += 1;
                } else {
                    stopped = true;
                }
            }
        }
        proof {
            lemma_trailing_at(x@, n - 2, m as int);
        }
        if m >= 1 && m <= n - 2 {
            let open_c = x.get_char(n - 2 - m);
            if open_c == '(' {
                cut = m + 2;
            }
        }
    }
    proof {
        assert(cut == version_suffix_len(x@));
    }
    let kept = x.substring_char(0, n - cut);
    proof {
        assert(kept@ =~= version_stripped(x@));
    }
    normalise_text(kept)
}

} // verus!

verus! {

/// The words the normalizer outputs for a text, before joining.
pub open spec fn output_words(s: Seq<char>) -> Seq<Seq<u8>> {
    norm_words(split_words(fold_bytes(s)))
}

proof fn lemma_filter_upper_identity(s: Seq<u8>)
    requires
        forall|i: int| 0 <= i < s.len() ==> !disallowed_b(#[trigger] s[i]) && !(97 <= s[i] <= 122),
    ensures
        filter_upper(s) == s,
    decreases s.len(),
{
    if s.len() == 0 {
        assert(filter_upper(s) =~= s);
    } else {
        assert forall|i: int| 0 <= i < s.drop_first().len() implies !disallowed_b(
            #[trigger] s.drop_first()[i],
        ) && !(97 <= s.drop_first()[i] <= 122) by {
            assert(s.drop_first()[i] == s[i + 1]);
        }
        lemma_filter_upper_identity(s.drop_first());
        assert(upper_b(s[0]) == s[0]);
        assert(filter_upper(s) =~= seq![s[0]] + s.drop_first());
        assert(seq![s[0]] + s.drop_first() =~= s);
    }
}

/// The byte classes of every output word: never whitespace, never a
/// disallowed punctuation byte, never lower case, always ASCII.
pub open spec fn out_byte_ok(b: u8) -> bool {
    !is_ws_b(b) && !disallowed_b(b) && !(97 <= b <= 122) && b < 128
}

proof fn lemma_word_pieces_elems(w: Seq<u8>)
    requires
        forall|i: int| 0 <= i < w.len() ==> !is_ws_b(#[trigger] w[i]) && lt_128(w[i]),
    ensures
        forall|j: int| 0 <= j < word_pieces(w).len() ==> (#[trigger] word_pieces(w)[j]).len() > 0,
        forall|j: int, k: int|
            0 <= j < word_pieces(w).len() && 0 <= k < word_pieces(w)[j].len() ==> out_byte_ok(
                #[trigger] word_pieces(w)[j][k],
            ),
{
    let p = |b: u8| !is_ws_b(b) && lt_128(b);
    if expandable(w) {
        let n = dval(w.take(digit_run(w)));
        let eb = expansion_bytes(n);
        assert forall|i: int| 0 <= i < eb.len() implies (#[trigger] eb[i] == 32 || (65 <= eb[i]
            <= 90)) by {
            assert(eb[i] == expand_b(num_byte(cardinal_of(n)[i])));
        }
        lemma_split_elems(eb, |b: u8| b == 32 || (65 <= b <= 90));
        lemma_digit_run_bounds(w);
        let rest = w.skip(digit_run(w));
        assert forall|i: int| 0 <= i < rest.len() implies p(#[trigger] rest[i]) by {
            assert(rest[i] == w[digit_run(w) + i]);
        }
        lemma_filter_upper_elems(rest, p);
        let sp = split_words(eb);
        let fp = opt_piece(filter_upper(rest));
        assert forall|j: int, k: int|
            0 <= j < word_pieces(w).len() && 0 <= k < word_pieces(w)[j].len() implies out_byte_ok(
            #[trigger] word_pieces(w)[j][k],
        ) by {
            if j < sp.len() {
                assert(word_pieces(w)[j] == sp[j]);
            } else {
                assert(word_pieces(w)[j] == filter_upper(rest));
            }
        }
        assert forall|j: int| 0 <= j < word_pieces(w).len() implies (#[trigger] word_pieces(
            w,
        )[j]).len() > 0 by {
            if j < sp.len() {
                assert(word_pieces(w)[j] == sp[j]);
            } else {
                assert(word_pieces(w)[j] == filter_upper(rest));
            }
        }
    } else {
        lemma_filter_upper_elems(w, p);
        let fu = filter_upper(w);
        assert forall|j: int, k: int|
            0 <= j < word_pieces(w).len() && 0 <= k < word_pieces(w)[j].len() implies out_byte_ok(
            #[trigger] word_pieces(w)[j][k],
        ) by {
            assert(word_pieces(w)[j] == fu);
        }
    }
}

proof fn lemma_norm_words_elems(ws: Seq<Seq<u8>>)
    requires
        forall|j: int, k: int|
            0 <= j < ws.len() && 0 <= k < ws[j].len() ==> !is_ws_b(#[trigger] ws[j][k]) && lt_128(
                ws[j][k],
            ),
    ensures
        forall|j: int| 0 <= j < norm_words(ws).len() ==> (#[trigger] norm_words(ws)[j]).len() > 0,
        forall|j: int, k: int|
            0 <= j < norm_words(ws).len() && 0 <= k < norm_words(ws)[j].len() ==> out_byte_ok(
                #[trigger] norm_words(ws)[j][k],
            ),
    decreases ws.len(),
{
    if ws.len() == 0 {
    } else {
        assert forall|i: int| 0 <= i < ws[0].len() implies !is_ws_b(#[trigger] ws[0][i]) && lt_128(
            ws[0][i],
        ) by {}
        lemma_word_pieces_elems(ws[0]);
        assert forall|j: int, k: int|
            0 <= j < ws.drop_first().len() && 0 <= k < ws.drop_first()[j].len() implies !is_ws_b(
            #[trigger] ws.drop_first()[j][k],
        ) && lt_128(ws.drop_first()[j][k]) by {
            assert(ws.drop_first()[j] == ws[j + 1]);
        }
        lemma_norm_words_elems(ws.drop_first());
        let wp = word_pieces(ws[0]);
        let rest = norm_words(ws.drop_first());
        assert forall|j: int| 0 <= j < norm_words(ws).len() implies (#[trigger] norm_words(
            ws,
        )[j]).len() > 0 by {
            if j < wp.len() {
                assert(norm_words(ws)[j] == wp[j]);
            } else {
                assert(norm_words(ws)[j] == rest[j - wp.len()]);
            }
        }
        assert forall|j: int, k: int|
            0 <= j < norm_words(ws).len() && 0 <= k < norm_words(ws)[j].len() implies out_byte_ok(
            #[trigger] norm_words(ws)[j][k],
        ) by {
            if j < wp.len() {
                assert(norm_words(ws)[j] == wp[j]);
            } else {
                assert(norm_words(ws)[j] == rest[j - wp.len()]);
            }
        }
    }
}

proof fn lemma_norm_words_fixed(ws: Seq<Seq<u8>>)
    requires
        forall|j: int| 0 <= j < ws.len() ==> (#[trigger] ws[j]).len() > 0,
        forall|j: int| 0 <= j < ws.len() ==> !expandable(#[trigger] ws[j]),
        forall|j: int, k: int|
            0 <= j < ws.len() && 0 <= k < ws[j].len() ==> out_byte_ok(#[trigger] ws[j][k]),
    ensures
        norm_words(ws) == ws,
    decreases ws.len(),
{
    if ws.len() == 0 {
        assert(norm_words(ws) =~~= ws);
    } else {
        assert forall|i: int| 0 <= i < ws[0].len() implies !disallowed_b(#[trigger] ws[0][i]) && !(
        97 <= ws[0][i] <= 122) by {
            assert(out_byte_ok(ws[0][i]));
        }
        lemma_filter_upper_identity(ws[0]);
        assert(word_pieces(ws[0]) =~~= seq![ws[0]]);
        assert forall|j: int, k: int|
            0 <= j < ws.drop_first().len() && 0 <= k < ws.drop_first()[j].len() implies out_byte_ok(
            #[trigger] ws.drop_first()[j][k],
        ) by {
            assert(ws.drop_first()[j] == ws[j + 1]);
        }
        assert forall|j: int| 0 <= j < ws.drop_first().len() implies (#[trigger] ws.drop_first()[
            j
        ]).len() > 0 && !expandable(ws.drop_first()[j]) by {
            assert(ws.drop_first()[j] == ws[j + 1]);
        }
        lemma_norm_words_fixed(ws.drop_first());
        assert(norm_words(ws) =~~= seq![ws[0]] + ws.drop_first());
        assert(seq![ws[0]] + ws.drop_first() =~~= ws);
    }
}

proof fn lemma_split_join_tail(ps: Seq<Seq<u8>>)
    requires
        forall|j: int| 0 <= j < ps.len() ==> (#[trigger] ps[j]).len() > 0,
        forall|j: int, k: int|
            0 <= j < ps.len() && 0 <= k < ps[j].len() ==> !is_ws_b(#[trigger] ps[j][k]),
    ensures
        split_words(join_tail(ps)) == ps,
    decreases ps.len(),
{
    if ps.len() == 0 {
        assert(split_words(join_tail(ps)) =~~= ps);
    } else {
        let t = join_tail(ps);
        let body = ps[0] + join_tail(ps.drop_first());
        assert(t =~= seq![32u8] + body);
        assert(t[0] == 32);
        assert(is_ws_b(t[0]));
        assert(t.drop_first() =~= body);
        assert forall|k: int| 0 <= k < ps[0].len() implies !is_ws_b(#[trigger] body[k]) by {
            assert(body[k] == ps[0][k]);
        }
        if ps.drop_first().len() > 0 {
            assert(join_tail(ps.drop_first())[0] == 32);
            assert(body[ps[0].len() as int] == join_tail(ps.drop_first())[0]);
        }
        lemma_split_unfold_word(body, 0, ps[0].len() as int);
        assert(body.skip(0) =~= body);
        assert(body.subrange(0, ps[0].len() as int) =~= ps[0]);
        assert(body.skip(ps[0].len() as int) =~= join_tail(ps.drop_first()));
        assert forall|j: int, k: int|
            0 <= j < ps.drop_first().len() && 0 <= k < ps.drop_first()[j].len() implies !is_ws_b(
            #[trigger] ps.drop_first()[j][k],
        ) by {
            assert(ps.drop_first()[j] == ps[j + 1]);
        }
        assert forall|j: int| 0 <= j < ps.drop_first().len() implies (#[trigger] ps.drop_first()[
            j
        ]).len() > 0 by {
            assert(ps.drop_first()[j] == ps[j + 1]);
        }
        lemma_split_join_tail(ps.drop_first());
        assert(split_words(t) == split_words(body));
        assert(split_words(body) =~~= seq![ps[0]] + ps.drop_first());
        assert(seq![ps[0]] + ps.drop_first() =~~= ps);
    }
}

proof fn lemma_split_join(ps: Seq<Seq<u8>>)
    requires
        forall|j: int| 0 <= j < ps.len() ==> (#[trigger] ps[j]).len() > 0,
        forall|j: int, k: int|
            0 <= j < ps.len() && 0 <= k < ps[j].len() ==> !is_ws_b(#[trigger] ps[j][k]),
    ensures
        split_words(join_sp(ps)) == ps,
{
    if ps.len() == 0 {
        assert(split_words(join_sp(ps)) =~~= ps);
    } else {
        let body = ps[0] + join_tail(ps.drop_first());
        assert(join_sp(ps) == body);
        assert forall|k: int| 0 <= k < ps[0].len() implies !is_ws_b(#[trigger] body[k]) by {
            assert(body[k] == ps[0][k]);
        }
        if ps.drop_first().len() > 0 {
            assert(join_tail(ps.drop_first())[0] == 32);
            assert(body[ps[0].len() as int] == join_tail(ps.drop_first())[0]);
        }
        lemma_split_unfold_word(body, 0, ps[0].len() as int);
        assert(body.skip(0) =~= body);
        assert(body.subrange(0, ps[0].len() as int) =~= ps[0]);
        assert(body.skip(ps[0].len() as int) =~= join_tail(ps.drop_first()));
        assert forall|j: int, k: int|
            0 <= j < ps.drop_first().len() && 0 <= k < ps.drop_first()[j].len() implies !is_ws_b(
            #[trigger] ps.drop_first()[j][k],
        ) by {
            assert(ps.drop_first()[j] == ps[j + 1]);
        }
        assert forall|j: int| 0 <= j < ps.drop_first().len() implies (#[trigger] ps.drop_first()[
            j
        ]).len() > 0 by {
            assert(ps.drop_first()[j] == ps[j + 1]);
        }
        lemma_split_join_tail(ps.drop_first());
        assert(split_words(body) =~~= seq![ps[0]] + ps.drop_first());
        assert(seq![ps[0]] + ps.drop_first() =~~= ps);
    }
}

proof fn lemma_join_elems(ps: Seq<Seq<u8>>)
    requires
        forall|j: int, k: int|
            0 <= j < ps.len() && 0 <= k < ps[j].len() ==> out_byte_ok(#[trigger] ps[j][k]),
    ensures
        forall|i: int| 0 <= i < join_sp(ps).len() ==> (#[trigger] join_sp(ps)[i]) < 128,
        forall|i: int| 0 <= i < join_tail(ps).len() ==> (#[trigger] join_tail(ps)[i]) < 128,
    decreases ps.len(),
{
    if ps.len() == 0 {
    } else {
        assert forall|j: int, k: int|
            0 <= j < ps.drop_first().len() && 0 <= k < ps.drop_first()[j].len() implies out_byte_ok(
            #[trigger] ps.drop_first()[j][k],
        ) by {
            assert(ps.drop_first()[j] == ps[j + 1]);
        }
        lemma_join_elems(ps.drop_first());
        assert forall|i: int| 0 <= i < join_sp(ps).len() implies (#[trigger] join_sp(ps)[i])
            < 128 by {
            if i < ps[0].len() {
                assert(join_sp(ps)[i] == ps[0][i]);
                assert(out_byte_ok(ps[0][i]));
            } else {
                assert(join_sp(ps)[i] == join_tail(ps.drop_first())[i - ps[0].len()]);
            }
        }
        assert forall|i: int| 0 <= i < join_tail(ps).len() implies (#[trigger] join_tail(ps)[i])
            < 128 by {
            if i == 0 {
                assert(join_tail(ps)[0] == 32);
            } else if i < 1 + ps[0].len() {
                assert(join_tail(ps)[i] == ps[0][i - 1]);
                assert(out_byte_ok(ps[0][i - 1]));
            } else {
                assert(join_tail(ps)[i] == join_tail(ps.drop_first())[i - 1 - ps[0].len()]);
            }
        }
    }
}

/// Idempotence: normalizing already-normalized text changes nothing, for
/// every input whose output words are not themselves read as numerals. (A
/// token such as a digit run wrapped in stripped punctuation survives the
/// first pass as a bare numeral and would be expanded by a second one; those
/// inputs are excluded here.)
pub proof fn lemma_normalise_idempotent(s: Seq<char>)
    requires
        forall|j: int| 0 <= j < output_words(s).len() ==> !expandable(
            #[trigger] output_words(s)[j],
        ),
    ensures
        normalized_of(normalized_of(s)) == normalized_of(s),
{
    let fb = fold_bytes(s);
    assert forall|i: int| 0 <= i < fb.len() implies lt_128(#[trigger] fb[i]) by {
        assert(fb.len() == folded(s).len());
        assert(fb[i] == fold_byte_of(folded(s)[i]));
        let c = folded(s)[i];
        if (c as u32) < 128 {
            assert(fold_byte_of(c) == ((c as u32) as u8));
        } else {
            assert(fold_byte_of(c) == 32u8);
        }
    }
    let ws1 = split_words(fb);
    lemma_split_elems(fb, |b: u8| lt_128(b));
    assert forall|j: int, k: int|
        0 <= j < ws1.len() && 0 <= k < ws1[j].len() implies !is_ws_b(#[trigger] ws1[j][k])
        && lt_128(ws1[j][k]) by {}
    let nw = norm_words(ws1);
    lemma_norm_words_elems(ws1);
    let nb = join_sp(nw);
    lemma_join_elems(nw);
    let t = chars_of_bytes(nb);
    assert(t == normalized_of(s));
    assert forall|i: int| 0 <= i < t.len() implies '\0' <= #[trigger] t[i] <= '\u{7f}' by {
        assert(t[i] == nb[i] as char);
        assert(nb[i] < 128);
    }
    assert(vstd::utf8::is_ascii_chars(t));
    assert(folded(t) == t);
    assert(fold_bytes(t) =~= nb) by {
        assert forall|i: int| 0 <= i < fold_bytes(t).len() implies #[trigger] fold_bytes(t)[i]
            == nb[i] by {
            let c = nb[i] as char;
            assert(folded(t)[i] == c);
            assert((c as u32) < 128);
            assert((c as u8) == nb[i]);
        }
    }
    lemma_split_join(nw);
    assert(split_words(fold_bytes(t)) == nw);
    assert forall|j: int| 0 <= j < nw.len() implies !expandable(#[trigger] nw[j]) by {
        assert(nw[j] == output_words(s)[j]);
    }
    lemma_norm_words_fixed(nw);
    assert(norm_words(split_words(fold_bytes(t))) == nw);
    assert(normalized_of(t) == chars_of_bytes(join_sp(nw)));
    assert(normalized_of(t) == t);
}

} // verus!
