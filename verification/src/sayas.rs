//! The say-as interpreter: renders a typed content hint (cardinal, ordinal,
//! spelled-out characters) plus literal text into normalized text.
use vstd::prelude::*;

use crate::chunks::{ChunkModel, NormaliserChunk};
use crate::textnorm::{
    cardinal_of, cardinal_words, expand_b, normalise_text, normalized_of, num_chars_ok,
    ordinal_of, ordinal_words,
};
use crate::NormError;
use unicode_segmentation::UnicodeSegmentation;

verus! {

broadcast use vstd::string::group_string_axioms;

pub open spec fn is_ws_c(c: char) -> bool {
    c == ' ' || c == '\t' || c == '\n' || c == '\u{c}' || c == '\r'
}

pub open spec fn is_digit_ch(c: char) -> bool {
    48 <= c as u32 <= 57
}

/// Count of leading whitespace characters.
pub open spec fn lead_ws(s: Seq<char>) -> int
    decreases s.len(),
{
    if s.len() == 0 || !is_ws_c(s[0]) {
        0
    } else {
        1 + lead_ws(s.drop_first())
    }
}

/// Count of trailing whitespace characters.
pub open spec fn trail_ws(s: Seq<char>) -> int
    decreases s.len(),
{
    if s.len() == 0 || !is_ws_c(s.last()) {
        0
    } else {
        1 + trail_ws(s.drop_last())
    }
}

/// The text with leading and trailing whitespace removed.
pub open spec fn trimmed(s: Seq<char>) -> Seq<char> {
    if lead_ws(s) == s.len() {
        Seq::empty()
    } else {
        s.subrange(lead_ws(s), s.len() - trail_ws(s))
    }
}

/// Value of a run of decimal digit characters, most significant first.
pub open spec fn digits_val_c(s: Seq<char>) -> int
    decreases s.len(),
{
    if s.len() == 0 {
        0
    } else {
        digits_val_c(s.drop_last()) * 10 + (s.last() as u32 - 48)
    }
}

pub const MIN_I64_MAG: u64 = 9223372036854775808;

pub open spec fn all_digits(s: Seq<char>) -> bool {
    forall|i: int| 0 <= i < s.len() ==> is_digit_ch(#[trigger] s[i])
}

/// How a signed decimal integer is read: an optional sign, then one or more
/// digits, and the value must fit a signed 64-bit number.
pub open spec fn int_parse(s: Seq<char>) -> Option<int> {
    if s.len() == 0 {
        None
    } else {
        let body = if s[0] == '-' || s[0] == '+' {
            s.drop_first()
        } else {
            s
        };
        if body.len() == 0 || !all_digits(body) {
            None
        } else {
            let v = digits_val_c(body);
            let sv = if s[0] == '-' {
                -v
            } else {
                v
            };
            if -(MIN_I64_MAG as int) <= sv < MIN_I64_MAG as int {
                Some(sv)
            } else {
                None
            }
        }
    }
}

proof fn lemma_digits_val_mono(s: Seq<char>, i: int)
    requires
        0 <= i <= s.len(),
        forall|k: int| 0 <= k < s.len() ==> is_digit_ch(#[trigger] s[k]),
    ensures
        digits_val_c(s) >= digits_val_c(s.take(i)) >= 0,
    decreases s.len(),
{
    if s.len() == 0 {
        assert(s.take(i) =~= s);
    } else if i == s.len() {
        assert(s.take(i) =~= s);
        let dl = s.drop_last();
        assert forall|k: int| 0 <= k < dl.len() implies is_digit_ch(#[trigger] dl[k]) by {
            assert(dl[k] == s[k]);
        }
        lemma_digits_val_mono(dl, dl.len() as int);
    } else {
        let dl = s.drop_last();
        assert forall|k: int| 0 <= k < dl.len() implies is_digit_ch(#[trigger] dl[k]) by {
            assert(dl[k] == s[k]);
        }
        lemma_digits_val_mono(dl, i);
        assert(s.take(i) =~= dl.take(i));
    }
}

proof fn lemma_digits_val_step(s: Seq<char>, i: int)
    requires
        0 <= i < s.len(),
    ensures
        digits_val_c(s.take(i + 1)) == digits_val_c(s.take(i)) * 10 + (s[i] as u32 - 48),
{
    assert(s.take(i + 1).drop_last() =~= s.take(i));
    assert(s.take(i + 1).last() == s[i]);
}

/// Reads a signed decimal integer, rejecting anything malformed or out of
/// range as an invalid numeral.
pub fn parse_i64(s: &str) -> (r: Result<i64, NormError>)
    ensures
        r matches Ok(n) ==> int_parse(s@) == Some(n as int),
        r is Err ==> int_parse(s@) is None && r == Err::<i64, NormError>(NormError::InvalidNumeral),
{
    let n = s.unicode_len();
    if n == 0 {
        return Err(NormError::InvalidNumeral);
    }
    let c0 = s.get_char(0);
    let neg = c0 == '-';
    let start: usize = if c0 == '-' || c0 == '+' {
        1
    } else {
        0
    };
    let ghost body = if s@[0] == '-' || s@[0] == '+' {
        s@.drop_first()
    } else {
        s@
    };
    proof {
        assert(body =~= s@.subrange(start as int, n as int));
    }
    if n == start {
        return Err(NormError::InvalidNumeral);
    }
    let mut mag: u64 = 0;
    let mut overflow = false;
    let mut i = start;
    proof {
        assert(body.take(0) =~= Seq::<char>::empty());
    }
    while i < n
        invariant
            start <= i <= n == s@.len(),
            n > 0,
            body == s@.subrange(start as int, n as int),
            body == (if s@[0] == '-' || s@[0] == '+' {
                s@.drop_first()
            } else {
                s@
            }),
            (start == 1) == (s@[0] == '-' || s@[0] == '+'),
            neg == (s@[0] == '-'),
            body.len() > 0,
            forall|k: int| 0 <= k < i - start ==> is_digit_ch(#[trigger] body[k]),
            !overflow ==> mag == digits_val_c(body.take(i - start)),
            overflow ==> (all_digits(body) ==> digits_val_c(body) > MIN_I64_MAG),
        decreases n - i,
    {
        let c = s.get_char(i);
        let cu = c as u32;
        proof {
            assert(body[i - start] == s@[i as int]);
        }
        if 48 <= cu && cu <= 57 {
            proof {
                lemma_digits_val_step(body, i - start);
            }
            if !overflow {
                let d = (cu - 48) as u64;
                let next = match mag.checked_mul(10) {
                    Some(t) => t.checked_add(d),
                    None => None,
                };
                match next {
                    Some(t) => {
                        mag = t;
                    },
                    None => {
                        proof {
                            if all_digits(body) {
                                lemma_digits_val_mono(body, i - start + 1);
                            }
                        }
                        overflow = true;
                    },
                }
            }
        } else {
            proof {
                assert(!is_digit_ch(body[i - start]));
                assert(!all_digits(body));
            }
            return Err(NormError::InvalidNumeral);
        }
        i += 1;
    }
    proof {
        assert(body.take(body.len() as int) =~= body);
        assert(body.len() == n - start);
        assert(all_digits(body));
    }
    if overflow {
        proof {
            assert(digits_val_c(body) > MIN_I64_MAG);
        }
        return Err(NormError::InvalidNumeral);
    }
    if neg {
        if mag > MIN_I64_MAG {
            return Err(NormError::InvalidNumeral);
        }
        if mag == MIN_I64_MAG {
            let min: i64 = -9223372036854775807i64 - 1;
            return Ok(min);
        }
        Ok(-(mag as i64))
    } else {
        if mag >= MIN_I64_MAG {
            return Err(NormError::InvalidNumeral);
        }
        Ok(mag as i64)
    }
}

} // verus!

verus! {

/// Expansion post-processing on characters: hyphens to spaces, upper-casing.
pub open spec fn expand_chars(ws: Seq<char>) -> Seq<char> {
    Seq::new(ws.len(), |i: int| expand_b(ws[i] as u8) as char)
}

/// What the grapheme segmentation returns: the user-perceived characters of
/// the text, in order.
pub uninterp spec fn graphemes_of(s: Seq<char>) -> Seq<Seq<char>>;

/// Relies on unicode_segmentation's extended grapheme segmentation: the
/// user-perceived characters of the text, in order.
#[verifier::external_body]
fn grapheme_split(s: &str) -> (r: Vec<String>)
    ensures
        r@.len() == graphemes_of(s@).len(),
        forall|i: int| 0 <= i < r@.len() ==> (#[trigger] r@[i])@ == graphemes_of(s@)[i],
{
    s.graphemes(true).map(|x| x.to_string()).collect()
}

/// Relies on str's equality: two string slices are equal exactly when their
/// character sequences are.
#[verifier::external_body]
fn str_eq(a: &str, b: &str) -> (r: bool)
    ensures
        r == (a@ == b@),
{
    a == b
}

pub open spec fn join_chars_sp(ps: Seq<Seq<char>>) -> Seq<char>
    decreases ps.len(),
{
    if ps.len() == 0 {
        Seq::empty()
    } else {
        ps[0] + join_chars_tail(ps.drop_first())
    }
}

pub open spec fn join_chars_tail(ps: Seq<Seq<char>>) -> Seq<char>
    decreases ps.len(),
{
    if ps.len() == 0 {
        Seq::empty()
    } else {
        seq![' '] + ps[0] + join_chars_tail(ps.drop_first())
    }
}

proof fn lemma_join_chars_tail_push(ps: Seq<Seq<char>>, p: Seq<char>)
    ensures
        join_chars_tail(ps.push(p)) == join_chars_tail(ps) + seq![' '] + p,
    decreases ps.len(),
{
    if ps.len() == 0 {
        assert(ps.push(p)[0] == p);
        assert(ps.push(p).drop_first() =~~= Seq::<Seq<char>>::empty());
        assert(join_chars_tail(Seq::<Seq<char>>::empty()) =~= Seq::<char>::empty());
        assert(join_chars_tail(ps.push(p)) =~= seq![' '] + p + Seq::<char>::empty());
        assert(seq![' '] + p + Seq::<char>::empty() =~= Seq::<char>::empty() + seq![' '] + p);
    } else {
        assert(ps.push(p)[0] == ps[0]);
        assert(ps.push(p).drop_first() =~~= ps.drop_first().push(p));
        lemma_join_chars_tail_push(ps.drop_first(), p);
        assert(seq![' '] + ps[0] + (join_chars_tail(ps.drop_first()) + seq![' '] + p)
            =~= (seq![' '] + ps[0] + join_chars_tail(ps.drop_first())) + seq![' '] + p);
    }
}

proof fn lemma_join_chars_push(ps: Seq<Seq<char>>, p: Seq<char>)
    ensures
        ps.len() == 0 ==> join_chars_sp(ps.push(p)) == p,
        ps.len() > 0 ==> join_chars_sp(ps.push(p)) == join_chars_sp(ps) + seq![' '] + p,
{
    if ps.len() == 0 {
        assert(ps.push(p)[0] == p);
        assert(ps.push(p).drop_first() =~~= Seq::<Seq<char>>::empty());
        assert(join_chars_tail(Seq::<Seq<char>>::empty()) =~= Seq::<char>::empty());
        assert(p + Seq::<char>::empty() =~= p);
    } else {
        assert(ps.push(p)[0] == ps[0]);
        assert(ps.push(p).drop_first() =~~= ps.drop_first().push(p));
        lemma_join_chars_tail_push(ps.drop_first(), p);
        assert(ps[0] + (join_chars_tail(ps.drop_first()) + seq![' '] + p) =~= (ps[0]
            + join_chars_tail(ps.drop_first())) + seq![' '] + p);
    }
}

/// The say-as contract: how each supported content hint renders its text,
/// and which inputs are rejected with which error.
pub open spec fn say_as_spec(kind: Seq<char>, text: Seq<char>) -> Result<Seq<char>, NormError> {
    if kind == "cardinal"@ {
        match int_parse(trimmed(text)) {
            Some(n) => Ok(expand_chars(cardinal_of(n))),
            None => Err(NormError::InvalidNumeral),
        }
    } else if kind == "ordinal"@ {
        match int_parse(trimmed(text)) {
            Some(n) => if n >= 0 {
                Ok(expand_chars(ordinal_of(n)))
            } else {
                Err(NormError::InvalidNumeral)
            },
            None => Err(NormError::InvalidNumeral),
        }
    } else if kind == "characters"@ {
        Ok(normalized_of(join_chars_sp(graphemes_of(text))))
    } else {
        Err(NormError::UnsupportedSayAs)
    }
}

proof fn lemma_lead_at(s: Seq<char>, m: int)
    requires
        0 <= m <= s.len(),
        forall|k: int| 0 <= k < m ==> is_ws_c(#[trigger] s[k]),
        m < s.len() ==> !is_ws_c(s[m]),
    ensures
        lead_ws(s) == m,
    decreases s.len(),
{
    if m == 0 {
    } else {
        assert(is_ws_c(s[0]));
        assert forall|k: int| 0 <= k < m - 1 implies is_ws_c(#[trigger] s.drop_first()[k]) by {
            assert(s.drop_first()[k] == s[k + 1]);
        }
        assert(m - 1 < s.drop_first().len() ==> !is_ws_c(s.drop_first()[m - 1]));
        lemma_lead_at(s.drop_first(), m - 1);
    }
}

proof fn lemma_trail_at(s: Seq<char>, m: int)
    requires
        0 <= m <= s.len(),
        forall|k: int| s.len() - m <= k < s.len() ==> is_ws_c(#[trigger] s[k]),
        m < s.len() ==> !is_ws_c(s[s.len() - 1 - m]),
    ensures
        trail_ws(s) == m,
    decreases s.len(),
{
    if m == 0 {
    } else {
        assert(is_ws_c(s.last()));
        let dl = s.drop_last();
        assert forall|k: int| dl.len() - (m - 1) <= k < dl.len() implies is_ws_c(
            #[trigger] dl[k],
        ) by {
            assert(dl[k] == s[k]);
        }
        assert(m - 1 < dl.len() ==> !is_ws_c(dl[dl.len() - 1 - (m - 1)]));
        lemma_trail_at(dl, m - 1);
    }
}

/// Strips leading and trailing whitespace.
fn trim_exec<'a>(s: &'a str) -> (r: &'a str)
    ensures
        r@ == trimmed(s@),
{
    let n = s.unicode_len();
    let mut lead: usize = 0;
    while lead < n && is_ws_exec_c(s.get_char(lead))
        invariant
            0 <= lead <= n == s@.len(),
            forall|k: int| 0 <= k < lead ==> is_ws_c(#[trigger] s@[k]),
        decreases n - lead,
    {
        lead += 1;
    }
    proof {
        lemma_lead_at(s@, lead as int);
    }
    if lead == n {
        let r = s.substring_char(0, 0);
        proof {
            assert(r@ =~= trimmed(s@));
        }
        return r;
    }
    let mut trail: usize = 0;
    while trail < n - 1 - lead && is_ws_exec_c(s.get_char(n - 1 - trail))
        invariant
            0 <= lead < n == s@.len(),
            0 <= trail <= n - 1 - lead,
            !is_ws_c(s@[lead as int]),
            forall|k: int| n - trail <= k < n ==> is_ws_c(#[trigger] s@[k]),
        decreases n - trail,
    {
        trail += 1;
    }
    let t = trail;
    proof {
        assert(!is_ws_c(s@[(n - 1 - t) as int]));
        lemma_trail_at(s@, t as int);
    }
    let r = s.substring_char(lead, n - t);
    proof {
        assert(r@ =~= trimmed(s@));
    }
    r
}

fn is_ws_exec_c(c: char) -> (r: bool)
    ensures
        r == is_ws_c(c),
{
    c == ' ' || c == '\t' || c == '\n' || c == '\u{c}' || c == '\r'
}

/// Rewrites expansion words for output: hyphens to spaces, upper-case.
fn expand_string(s: String) -> (r: String)
    requires
        vstd::utf8::is_ascii_chars(s@),
    ensures
        r@ == expand_chars(s@),
        vstd::utf8::is_ascii_chars(r@),
{
    let st = s.as_str();
    let sb = st.as_bytes_vec();
    proof {
        assert(vstd::string::is_ascii(st));
        assert(sb@ =~= crate::textnorm::bytes_of_chars(s@));
        assert forall|i: int| 0 <= i < sb@.len() implies crate::textnorm::lt_128(
            #[trigger] sb@[i],
        ) by {
            assert(s@[i] <= '\u{7f}');
            assert(sb@[i] == s@[i] as u8);
        }
    }
    let mut eb: Vec<u8> = Vec::new();
    let mut i: usize = 0;
    while i < sb.len()
        invariant
            0 <= i <= sb@.len(),
            eb@.len() == i,
            forall|t: int| 0 <= t < i ==> #[trigger] eb@[t] == expand_b(sb@[t]),
            forall|t: int| 0 <= t < sb@.len() ==> crate::textnorm::lt_128(#[trigger] sb@[t]),
        decreases sb@.len() - i,
    {
        let b = sb[i];
        let e = if b == 45 {
            32
        } else if 97 <= b && b <= 122 {
            b - 32
        } else {
            b
        };
        eb.push(e);
        i += 1;
    }
    let out = crate::textnorm::ascii_to_string(eb);
    proof {
        assert forall|t: int| 0 <= t < out@.len() implies #[trigger] out@[t] == expand_chars(
            s@,
        )[t] by {
            assert(out@[t] == eb@[t] as char);
            assert(eb@[t] == expand_b(sb@[t]));
            assert(sb@[t] == s@[t] as u8);
        }
        assert(out@ =~= expand_chars(s@));
        assert forall|t: int| 0 <= t < out@.len() implies '\0' <= #[trigger] out@[t]
            <= '\u{7f}' by {
            assert(out@[t] == eb@[t] as char);
            assert(eb@[t] == expand_b(sb@[t]));
            assert(crate::textnorm::lt_128(sb@[t]));
        }
    }
    out
}

/// Interprets a say-as content hint: cardinal and ordinal numerals become
/// their word expansions, `characters` spells the text out; any other kind is
/// unsupported.
pub fn interpret(kind: &str, text: &str) -> (r: Result<NormaliserChunk, NormError>)
    ensures
        match r {
            Ok(c) => say_as_spec(kind@, text@) matches Ok(t) && c@ == ChunkModel::Text(t)
                && crate::chunks::chunk_wf(c@),
            Err(e) => say_as_spec(kind@, text@) == Err::<Seq<char>, NormError>(e),
        },
{
    if str_eq(kind, "cardinal") {
        let tr = trim_exec(text);
        match parse_i64(tr) {
            Ok(n) => {
                let ws = cardinal_words(n);
                let out = expand_string(ws);
                Ok(NormaliserChunk::Text(out))
            },
            Err(e) => Err(e),
        }
    } else if str_eq(kind, "ordinal") {
        let tr = trim_exec(text);
        match parse_i64(tr) {
            Ok(n) => {
                if n < 0 {
                    Err(NormError::InvalidNumeral)
                } else {
                    let ws = ordinal_words(n);
                    let out = expand_string(ws);
                    Ok(NormaliserChunk::Text(out))
                }
            },
            Err(e) => Err(e),
        }
    } else if str_eq(kind, "characters") {
        let gs = grapheme_split(text);
        let mut joined = String::new();
        let mut i: usize = 0;
        let ghost gv = graphemes_of(text@);
        proof {
            assert(gv.take(0) =~~= Seq::<Seq<char>>::empty());
        }
        while i < gs.len()
            invariant
                0 <= i <= gs@.len(),
                gs@.len() == gv.len(),
                forall|k: int| 0 <= k < gs@.len() ==> (#[trigger] gs@[k])@ == gv[k],
                joined@ == join_chars_sp(gv.take(i as int)),
            decreases gs@.len() - i,
        {
            if i > 0 {
                joined.append(" ");
            }
            joined.append(gs[i].as_str());
            proof {
                reveal_strlit(" ");
                assert(gv.take(i as int).push(gv[i as int]) =~~= gv.take(i as int + 1));
                lemma_join_chars_push(gv.take(i as int), gv[i as int]);
                if i > 0 {
                    assert(" "@ =~= seq![' ']);
                    assert((join_chars_sp(gv.take(i as int)) + seq![' ']) + gv[i as int]
                        =~= join_chars_sp(gv.take(i as int)) + seq![' '] + gv[i as int]);
                }
            }
            i += 1;
        }
        proof {
            assert(gv.take(gv.len() as int) =~~= gv);
        }
        let out = normalise_text(joined.as_str());
        Ok(NormaliserChunk::Text(out))
    } else {
        Err(NormError::UnsupportedSayAs)
    }
}

} // verus!
