//! Byte-level text utilities: integer-literal parsing, quote-aware statement
//! tokenization, parameter-list splitting and joining, and decimal rendering
//! of register values.

use vstd::prelude::*;
use crate::scan::{
    contains_byte, count_nl, is_ws, is_ws_byte, lemma_span_end_at_least, lemma_span_end_is,
    lemma_span_end_range, span_end, NEWLINE,
};

verus! {

/// Double-quote byte.
pub const DQUOTE: u8 = 34;

/// Single-quote byte.
pub const SQUOTE: u8 = 39;

/// Space byte, the separator of instruction parameter lists.
pub const SPACE: u8 = 32;

/// The ASCII whitespace bytes as a sequence, for use with [`span_end`].
pub open spec fn ws_seq() -> Seq<u8> {
    seq![32u8, 9u8, 10u8, 11u8, 12u8, 13u8]
}

pub proof fn lemma_ws_seq(b: u8)
    ensures
        contains_byte(ws_seq(), b) == is_ws(b),
{
    if is_ws(b) {
        if b == 32 {
            assert(ws_seq()[0] == b);
        } else if b == 9 {
            assert(ws_seq()[1] == b);
        } else if b == 10 {
            assert(ws_seq()[2] == b);
        } else if b == 11 {
            assert(ws_seq()[3] == b);
        } else if b == 12 {
            assert(ws_seq()[4] == b);
        } else {
            assert(ws_seq()[5] == b);
        }
    }
}

/// The views of a sequence of byte buffers.
pub open spec fn views(ts: Seq<Vec<u8>>) -> Seq<Seq<u8>> {
    ts.map_values(|t: Vec<u8>| t@)
}

/// Exact byte-for-byte equality of two buffers.
pub fn bytes_eq(a: &Vec<u8>, b: &Vec<u8>) -> (r: bool)
    ensures
        r == (a@ == b@),
{
    if a.len() != b.len() {
        return false;
    }
    let mut i: usize = 0;
    while i < a.len()
        invariant
            a@.len() == b@.len(),
            i <= a@.len(),
            forall|k: int| 0 <= k < i ==> a@[k] == b@[k],
        decreases a@.len() - i,
    {
        if a[i] != b[i] {
            return false;
        }
        i = i + 1;
    }
    proof {
        assert(a@ =~= b@);
    }
    true
}

/// Copy of the byte range `[from, to)` of `s`.
pub fn sub_vec(s: &Vec<u8>, from: usize, to: usize) -> (r: Vec<u8>)
    requires
        from <= to <= s@.len(),
    ensures
        r@ == s@.subrange(from as int, to as int),
{
    let mut out: Vec<u8> = Vec::new();
    let mut i: usize = from;
    proof {
        assert(out@ =~= s@.subrange(from as int, from as int));
    }
    while i < to
        invariant
            from <= i <= to <= s@.len(),
            out@ == s@.subrange(from as int, i as int),
        decreases to - i,
    {
        proof {
            assert(s@.subrange(from as int, i + 1) =~= s@.subrange(from as int, i as int).push(
                s@[i as int],
            ));
        }
        out.push(s[i]);
        i = i + 1;
    }
    out
}

/// First position at or after `from` holding byte `b`, or the end of `s`.
pub fn find_stop(s: &Vec<u8>, from: usize, b: u8) -> (j: usize)
    requires
        from <= s@.len(),
    ensures
        j == span_end(s@, seq![b], from as int, false),
        from <= j <= s@.len(),
{
    let mut i: usize = from;
    loop
        invariant
            from <= i <= s@.len(),
            forall|k: int| from <= k < i ==> s@[k] != b,
        ensures
            from <= i <= s@.len(),
            i == span_end(s@, seq![b], from as int, false),
        decreases s@.len() - i,
    {
        proof {
            assert(forall|k: int|
                from <= k < i ==> !contains_byte(seq![b], s@[k])) by {
                assert(forall|k: int| from <= k < i ==> s@[k] != b);
                assert(forall|x: u8| contains_byte(seq![b], x) ==> x == b);
            }
        }
        if i >= s.len() {
            proof {
                lemma_span_end_is(s@, seq![b], from as int, false, i as int);
            }
            break;
        }
        if s[i] == b {
            proof {
                assert(contains_byte(seq![b], s@[i as int])) by {
                    assert(seq![b][0] == b);
                }
                lemma_span_end_is(s@, seq![b], from as int, false, i as int);
            }
            break;
        }
        i = i + 1;
    }
    i
}

/// First position at or after `from` holding a whitespace byte, or the end.
pub fn find_ws(s: &Vec<u8>, from: usize) -> (j: usize)
    requires
        from <= s@.len(),
    ensures
        j == span_end(s@, ws_seq(), from as int, false),
        from <= j <= s@.len(),
{
    let mut i: usize = from;
    loop
        invariant
            from <= i <= s@.len(),
            forall|k: int| from <= k < i ==> !is_ws(s@[k]),
        ensures
            from <= i <= s@.len(),
            i == span_end(s@, ws_seq(), from as int, false),
        decreases s@.len() - i,
    {
        proof {
            assert forall|k: int| from <= k < i implies !contains_byte(ws_seq(), s@[k]) by {
                lemma_ws_seq(s@[k]);
            }
        }
        if i >= s.len() {
            proof {
                lemma_span_end_is(s@, ws_seq(), from as int, false, i as int);
            }
            break;
        }
        if is_ws_byte(s[i]) {
            proof {
                lemma_ws_seq(s@[i as int]);
                lemma_span_end_is(s@, ws_seq(), from as int, false, i as int);
            }
            break;
        }
        i = i + 1;
    }
    i
}

/// True when a newline occurs in the byte range `[from, to)` of `s`.
pub fn range_has_nl(s: &Vec<u8>, from: usize, to: usize) -> (r: bool)
    requires
        from <= to <= s@.len(),
    ensures
        r == contains_byte(s@.subrange(from as int, to as int), NEWLINE),
{
    let mut i: usize = from;
    while i < to
        invariant
            from <= i <= to <= s@.len(),
            forall|k: int| from <= k < i ==> s@[k] != NEWLINE,
        decreases to - i,
    {
        if s[i] == NEWLINE {
            proof {
                assert(s@.subrange(from as int, to as int)[i - from] == NEWLINE);
            }
            return true;
        }
        i = i + 1;
    }
    proof {
        assert(forall|k: int|
            0 <= k < to - from ==> s@.subrange(from as int, to as int)[k] != NEWLINE);
    }
    false
}

// ------------------------------------------------------------------
// Integer literals
// ------------------------------------------------------------------

/// ASCII decimal digit.
pub open spec fn is_digit(b: u8) -> bool {
    48 <= b <= 57
}

/// Every byte of `s` is a decimal digit.
pub open spec fn all_digits(s: Seq<u8>) -> bool {
    forall|i: int| 0 <= i < s.len() ==> is_digit(#[trigger] s[i])
}

/// Value of a digit string, most significant first.
pub open spec fn digits_val(s: Seq<u8>) -> int
    decreases s.len(),
{
    if s.len() == 0 {
        0
    } else {
        digits_val(s.drop_last()) * 10 + (s.last() - 48)
    }
}

/// The digit part of an integer token: everything after an optional sign.
pub open spec fn int_body(s: Seq<u8>) -> Seq<u8> {
    if s.len() > 0 && (s[0] == 43 || s[0] == 45) {
        s.subrange(1, s.len() as int)
    } else {
        s
    }
}

/// The sign of an integer token.
pub open spec fn int_sign(s: Seq<u8>) -> int {
    if s.len() > 0 && s[0] == 45 {
        -1
    } else {
        1
    }
}

/// The value `s` denotes as a decimal integer literal, when it is one that
/// fits in an `i64`: an optional `+`/`-` sign followed by one or more digits.
pub open spec fn parse_int_spec(s: Seq<u8>) -> Option<i64> {
    let b = int_body(s);
    let v = int_sign(s) * digits_val(b);
    if b.len() > 0 && all_digits(b) && i64::MIN <= v <= i64::MAX {
        Some(v as i64)
    } else {
        None
    }
}

pub proof fn lemma_digits_val_nonneg(s: Seq<u8>)
    requires
        all_digits(s),
    ensures
        digits_val(s) >= 0,
    decreases s.len(),
{
    if s.len() > 0 {
        assert(is_digit(s[s.len() - 1]));
        assert(all_digits(s.drop_last()));
        lemma_digits_val_nonneg(s.drop_last());
    }
}

pub proof fn lemma_digits_val_push(s: Seq<u8>, b: u8)
    ensures
        digits_val(s.push(b)) == digits_val(s) * 10 + (b - 48),
{
    assert(s.push(b).drop_last() =~= s);
}

/// The value of a digit string is at least the value of any of its prefixes.
pub proof fn lemma_digits_val_prefix(s: Seq<u8>, i: int)
    requires
        all_digits(s),
        0 <= i <= s.len(),
    ensures
        digits_val(s.subrange(0, i)) <= digits_val(s),
    decreases s.len() - i,
{
    if i < s.len() {
        assert(s.subrange(0, i + 1) =~= s.subrange(0, i).push(s[i]));
        lemma_digits_val_push(s.subrange(0, i), s[i]);
        assert(all_digits(s.subrange(0, i)));
        lemma_digits_val_nonneg(s.subrange(0, i));
        assert(is_digit(s[i]));
        assert(digits_val(s.subrange(0, i)) <= digits_val(s.subrange(0, i + 1)));
        lemma_digits_val_prefix(s, i + 1);
    } else {
        assert(s.subrange(0, i) =~= s);
    }
}

/// Parse `tok` as a signed decimal integer literal.
pub fn parse_int(tok: &Vec<u8>) -> (r: Option<i64>)
    ensures
        r == parse_int_spec(tok@),
{
    let len = tok.len();
    if len == 0 {
        return None;
    }
    let neg = tok[0] == 45;
    let start: usize = if tok[0] == 45 || tok[0] == 43 {
        1
    } else {
        0
    };
    proof {
        assert(int_body(tok@) =~= tok@.subrange(start as int, len as int));
    }
    if start >= len {
        return None;
    }
    let ghost body = tok@.subrange(start as int, len as int);
    let mut acc: u64 = 0;
    let mut i: usize = start;
    proof {
        assert(body.subrange(0, 0) =~= Seq::<u8>::empty());
    }
    while i < len
        invariant
            start <= i <= len,
            len == tok@.len(),
            body == tok@.subrange(start as int, len as int),
            body == int_body(tok@),
            neg == (int_sign(tok@) == -1),
            start < len,
            forall|k: int| start <= k < i ==> is_digit(#[trigger] tok@[k]),
            acc == digits_val(body.subrange(0, i - start)),
        decreases len - i,
    {
        let b = tok[i];
        if b < 48 || b > 57 {
            proof {
                assert(body[i - start] == tok@[i as int]);
                assert(!all_digits(body));
            }
            return None;
        }
        let d = (b - 48) as u64;
        let next = match acc.checked_mul(10) {
            Some(x) => x.checked_add(d),
            None => None,
        };
        proof {
            assert(body.subrange(0, i - start + 1) =~= body.subrange(0, i - start).push(
                body[i - start],
            ));
            lemma_digits_val_push(body.subrange(0, i - start), body[i - start]);
            assert(body[i - start] == tok@[i as int]);
        }
        match next {
            Some(x) => {
                acc = x;
            },
            None => {
                // The value no longer fits in a `u64`, so it cannot fit in an
                // `i64` either, whatever the sign.
                proof {
                    if all_digits(body) {
                        lemma_digits_val_prefix(body, i - start + 1);
                        assert(digits_val(body) > u64::MAX);
                    }
                }
                return None;
            },
        }
        i = i + 1;
    }
    proof {
        assert(body.subrange(0, len - start) =~= body);
        assert(acc == digits_val(body));
        assert forall|j: int| 0 <= j < body.len() implies is_digit(#[trigger] body[j]) by {
            assert(body[j] == tok@[start + j]);
        }
        assert(all_digits(body));
    }
    if neg {
        if acc > 0x8000_0000_0000_0000u64 {
            return None;
        }
        if acc == 0x8000_0000_0000_0000u64 {
            Some(i64::MIN)
        } else {
            Some(-(acc as i64))
        }
    } else {
        if acc > 0x7fff_ffff_ffff_ffffu64 {
            return None;
        }
        Some(acc as i64)
    }
}

// ------------------------------------------------------------------
// Statement tokenization
// ------------------------------------------------------------------

/// Position of the closing quote for a quoted token opened at `p`: the first
/// later occurrence of the same quote byte.
pub open spec fn quote_close(s: Seq<u8>, p: int) -> int {
    span_end(s, seq![s[p]], p + 1, false)
}

/// A quoted token opened at `p` is well formed when its closing quote exists
/// and no newline intervenes.
pub open spec fn quote_ok(s: Seq<u8>, p: int) -> bool {
    quote_close(s, p) < s.len() && !contains_byte(
        s.subrange(p + 1, quote_close(s, p)),
        NEWLINE,
    )
}

/// The raw argument tokens of a statement, reading from position `p`: a
/// quote byte opens a token running to the matching quote on the same line
/// (quotes included); otherwise a token is a maximal run of non-whitespace
/// bytes; whitespace separates tokens.
pub open spec fn spec_tokens_from(s: Seq<u8>, p: int) -> Seq<Seq<u8>>
    decreases s.len() - p,
{
    if !(0 <= p < s.len()) {
        Seq::empty()
    } else if is_ws(s[p]) {
        spec_tokens_from(s, p + 1)
    } else if (s[p] == SQUOTE || s[p] == DQUOTE) && quote_ok(s, p) {
        proof {
            lemma_span_end_range(s, seq![s[p]], p + 1, false);
        }
        seq![s.subrange(p, quote_close(s, p) + 1)] + spec_tokens_from(s, quote_close(s, p) + 1)
    } else {
        proof {
            lemma_ws_seq(s[p]);
            lemma_span_end_range(s, ws_seq(), p + 1, false);
        }
        seq![s.subrange(p, span_end(s, ws_seq(), p, false))] + spec_tokens_from(
            s,
            span_end(s, ws_seq(), p, false),
        )
    }
}

/// The tokens of a whole statement.
pub open spec fn spec_tokens(s: Seq<u8>) -> Seq<Seq<u8>> {
    spec_tokens_from(s, 0)
}

/// Tokenize the statement bytes of `s` starting at `p`.
pub fn tokens_from(s: &Vec<u8>, p: usize) -> (r: Vec<Vec<u8>>)
    ensures
        views(r@) == spec_tokens_from(s@, p as int),
    decreases s@.len() - p,
{
    if p >= s.len() {
        let r: Vec<Vec<u8>> = Vec::new();
        proof {
            assert(views(r@) =~= spec_tokens_from(s@, p as int));
        }
        return r;
    }
    let c = s[p];
    if is_ws_byte(c) {
        return tokens_from(s, p + 1);
    }
    if c == SQUOTE || c == DQUOTE {
        let j = find_stop(s, p + 1, c);
        if j < s.len() && !range_has_nl(s, p + 1, j) {
            let token = sub_vec(s, p, j + 1);
            let mut rest = tokens_from(s, j + 1);
            let mut out: Vec<Vec<u8>> = Vec::new();
            out.push(token);
            let ghost rest_view = views(rest@);
            out.append(&mut rest);
            proof {
                assert(quote_close(s@, p as int) == j);
                assert(quote_ok(s@, p as int));
                assert(views(out@) =~= seq![s@.subrange(p as int, j + 1)] + rest_view);
            }
            return out;
        }
    }
    let j = find_ws(s, p);
    proof {
        lemma_ws_seq(s@[p as int]);
        lemma_span_end_range(s@, ws_seq(), p + 1, false);
        assert(j >= p + 1);
    }
    let token = sub_vec(s, p, j);
    let mut rest = tokens_from(s, j);
    let mut out: Vec<Vec<u8>> = Vec::new();
    out.push(token);
    let ghost rest_view = views(rest@);
    out.append(&mut rest);
    proof {
        assert(views(out@) =~= seq![s@.subrange(p as int, j as int)] + rest_view);
    }
    out
}

/// Tokenize a whole statement: mnemonic first, then the raw argument tokens.
pub fn tokenize(s: &Vec<u8>) -> (r: Vec<Vec<u8>>)
    ensures
        views(r@) == spec_tokens(s@),
{
    tokens_from(s, 0)
}

/// A statement has no more tokens than bytes.
pub proof fn lemma_tokens_count(s: Seq<u8>, p: int)
    requires
        0 <= p,
    ensures
        spec_tokens_from(s, p).len() <= s.len() - p || spec_tokens_from(s, p).len() == 0,
    decreases s.len() - p,
{
    if 0 <= p < s.len() {
        if is_ws(s[p]) {
            lemma_tokens_count(s, p + 1);
        } else if (s[p] == SQUOTE || s[p] == DQUOTE) && quote_ok(s, p) {
            lemma_span_end_range(s, seq![s[p]], p + 1, false);
            lemma_tokens_count(s, quote_close(s, p) + 1);
        } else {
            lemma_ws_seq(s[p]);
            lemma_span_end_range(s, ws_seq(), p + 1, false);
            assert(span_end(s, ws_seq(), p, false) == span_end(s, ws_seq(), p + 1, false));
            lemma_tokens_count(s, span_end(s, ws_seq(), p, false));
        }
    }
}

/// Deep copy of a list of parameter names.
pub fn copy_params(v: &Vec<Vec<u8>>) -> (r: Vec<Vec<u8>>)
    ensures
        r.deep_view() == v.deep_view(),
{
    let mut out: Vec<Vec<u8>> = Vec::new();
    let mut i: usize = 0;
    while i < v.len()
        invariant
            i <= v@.len(),
            out.deep_view() == v.deep_view().subrange(0, i as int),
        decreases v@.len() - i,
    {
        let part = sub_vec(&v[i], 0, v[i].len());
        proof {
            assert(part.deep_view() =~= part@);
            assert(part@ =~= v@[i as int]@);
            assert(v@[i as int].deep_view() =~= v@[i as int]@);
            assert(v.deep_view()[i as int] == v@[i as int].deep_view());
        }
        let ghost prev = out.deep_view();
        let ghost partv = part.deep_view();
        out.push(part);
        proof {
            assert(out.deep_view() =~= prev.push(partv));
            assert(prev.push(partv) =~= v.deep_view().subrange(0, i + 1));
        }
        i = i + 1;
    }
    proof {
        assert(v.deep_view().subrange(0, v@.len() as int) =~= v.deep_view());
    }
    out
}

/// `s` with every double-quote byte removed.
pub open spec fn strip_dquotes(s: Seq<u8>) -> Seq<u8>
    decreases s.len(),
{
    if s.len() == 0 {
        Seq::empty()
    } else {
        strip_dquotes(s.drop_last()) + if s.last() == DQUOTE {
            Seq::empty()
        } else {
            seq![s.last()]
        }
    }
}

pub proof fn lemma_strip_dquotes_push(s: Seq<u8>, b: u8)
    ensures
        strip_dquotes(s.push(b)) == strip_dquotes(s) + if b == DQUOTE {
            Seq::<u8>::empty()
        } else {
            seq![b]
        },
{
    assert(s.push(b).drop_last() =~= s);
}

/// Remove every double-quote byte, as the validator does when it accepts a
/// string-literal operand.
pub fn remove_dquotes(s: &Vec<u8>) -> (r: Vec<u8>)
    ensures
        r@ == strip_dquotes(s@),
{
    let mut out: Vec<u8> = Vec::new();
    let mut i: usize = 0;
    proof {
        assert(s@.subrange(0, 0) =~= Seq::<u8>::empty());
    }
    while i < s.len()
        invariant
            i <= s@.len(),
            out@ == strip_dquotes(s@.subrange(0, i as int)),
        decreases s@.len() - i,
    {
        proof {
            assert(s@.subrange(0, i + 1) =~= s@.subrange(0, i as int).push(s@[i as int]));
            lemma_strip_dquotes_push(s@.subrange(0, i as int), s@[i as int]);
        }
        if s[i] != DQUOTE {
            out.push(s[i]);
        }
        i = i + 1;
    }
    proof {
        assert(s@.subrange(0, s@.len() as int) =~= s@);
    }
    out
}

/// Some byte of `s` is a decimal digit.
pub open spec fn has_digit(s: Seq<u8>) -> bool {
    exists|i: int| 0 <= i < s.len() && is_digit(#[trigger] s[i])
}

/// Executable test for [`has_digit`].
pub fn contains_digit(s: &Vec<u8>) -> (r: bool)
    ensures
        r == has_digit(s@),
{
    let mut i: usize = 0;
    while i < s.len()
        invariant
            i <= s@.len(),
            forall|k: int| 0 <= k < i ==> !is_digit(#[trigger] s@[k]),
        decreases s@.len() - i,
    {
        let b = s[i];
        if b >= 48 && b <= 57 {
            return true;
        }
        i = i + 1;
    }
    false
}

/// Position one past the last non-whitespace byte of `s`.
pub open spec fn trim_end_at(s: Seq<u8>) -> int
    decreases s.len(),
{
    if s.len() == 0 {
        0
    } else if is_ws(s.last()) {
        trim_end_at(s.drop_last())
    } else {
        s.len() as int
    }
}

/// `s` with leading and trailing whitespace removed: from the end of the
/// leading whitespace run to the end of the last non-whitespace byte.
pub open spec fn trim_of(s: Seq<u8>) -> Seq<u8> {
    let a = span_end(s, ws_seq(), 0, true);
    let b = trim_end_at(s);
    if a <= b {
        s.subrange(a, b)
    } else {
        Seq::empty()
    }
}

pub proof fn lemma_trim_end_range(s: Seq<u8>)
    ensures
        0 <= trim_end_at(s) <= s.len(),
        forall|k: int| trim_end_at(s) <= k < s.len() ==> is_ws(s[k]),
        trim_end_at(s) > 0 ==> !is_ws(s[trim_end_at(s) - 1]),
    decreases s.len(),
{
    if s.len() > 0 && is_ws(s.last()) {
        lemma_trim_end_range(s.drop_last());
        assert forall|k: int| trim_end_at(s) <= k < s.len() implies is_ws(s[k]) by {
            if k < s.len() - 1 {
                assert(s.drop_last()[k] == s[k]);
            }
        }
    }
}

pub proof fn lemma_trim_end_is(s: Seq<u8>, b: int)
    requires
        0 <= b <= s.len(),
        forall|k: int| b <= k < s.len() ==> is_ws(s[k]),
        b > 0 ==> !is_ws(s[b - 1]),
    ensures
        trim_end_at(s) == b,
    decreases s.len(),
{
    if s.len() > 0 {
        if is_ws(s.last()) {
            assert(b < s.len());
            lemma_trim_end_is(s.drop_last(), b);
        }
    }
}

/// Strip leading and trailing whitespace from a raw statement.
pub fn trim_bytes(s: &Vec<u8>) -> (r: Vec<u8>)
    ensures
        r@ == trim_of(s@),
        r@.len() <= s@.len(),
{
    let mut a: usize = 0;
    while a < s.len() && is_ws_byte(s[a])
        invariant
            a <= s@.len(),
            forall|k: int| 0 <= k < a ==> is_ws(#[trigger] s@[k]),
        decreases s@.len() - a,
    {
        a = a + 1;
    }
    proof {
        assert forall|k: int| 0 <= k < a implies contains_byte(ws_seq(), s@[k]) == true by {
            lemma_ws_seq(s@[k]);
        }
        if a < s@.len() {
            lemma_ws_seq(s@[a as int]);
        }
        lemma_span_end_is(s@, ws_seq(), 0, true, a as int);
    }
    let mut b: usize = s.len();
    while b > a && is_ws_byte(s[b - 1])
        invariant
            a <= b <= s@.len(),
            forall|k: int| b <= k < s@.len() ==> is_ws(#[trigger] s@[k]),
            forall|k: int| 0 <= k < a ==> is_ws(#[trigger] s@[k]),
        decreases b,
    {
        b = b - 1;
    }
    proof {
        lemma_trim_end_range(s@);
        if b > a {
            lemma_trim_end_is(s@, b as int);
        } else {
            // everything from `a` on is whitespace, so the trimmed end is
            // within the leading run
            assert(forall|k: int| a <= k < s@.len() ==> is_ws(#[trigger] s@[k]));
            assert(trim_end_at(s@) <= a) by {
                if trim_end_at(s@) > a {
                    assert(!is_ws(s@[trim_end_at(s@) - 1]));
                }
            }
        }
    }
    if b <= a {
        let r: Vec<u8> = Vec::new();
        proof {
            if trim_end_at(s@) >= a {
                assert(s@.subrange(a as int, trim_end_at(s@)) =~= Seq::<u8>::empty());
            }
        }
        return r;
    }
    let r = sub_vec(s, a, b);
    r
}

// ------------------------------------------------------------------
// Parameter lists
// ------------------------------------------------------------------

/// Split on every single space byte; empty segments are kept, and the empty
/// string splits into one empty segment.
pub open spec fn split_sp(s: Seq<u8>) -> Seq<Seq<u8>>
    decreases s.len(),
{
    let j = span_end(s, seq![SPACE], 0, false);
    if j >= s.len() {
        seq![s]
    } else {
        proof {
            lemma_span_end_range(s, seq![SPACE], 0, false);
        }
        seq![s.subrange(0, j)] + split_sp(s.subrange(j + 1, s.len() as int))
    }
}

/// Join with a single space byte between segments.
pub open spec fn join_sp(ps: Seq<Seq<u8>>) -> Seq<u8>
    decreases ps.len(),
{
    if ps.len() == 0 {
        Seq::empty()
    } else if ps.len() == 1 {
        ps[0]
    } else {
        ps[0] + seq![SPACE] + join_sp(ps.drop_first())
    }
}

/// Split a raw parameter list into parameter names.
pub fn split_params(s: Vec<u8>) -> (r: Vec<Vec<u8>>)
    ensures
        views(r@) == split_sp(s@),
    decreases s@.len(),
{
    let ghost sv = s@;
    let j = find_stop(&s, 0, SPACE);
    if j >= s.len() {
        let mut out: Vec<Vec<u8>> = Vec::new();
        out.push(s);
        proof {
            assert(views(out@) =~= seq![sv]);
            assert(split_sp(sv) == seq![sv]);
        }
        return out;
    }
    let token = sub_vec(&s, 0, j);
    let rest = sub_vec(&s, j + 1, s.len());
    let mut tail = split_params(rest);
    let mut out: Vec<Vec<u8>> = Vec::new();
    out.push(token);
    let ghost tail_view = views(tail@);
    out.append(&mut tail);
    proof {
        assert(views(out@) =~= seq![s@.subrange(0, j as int)] + tail_view);
    }
    out
}

/// Serialize parameter names back to the raw space-separated form.
pub fn join_params(ps: &Vec<Vec<u8>>) -> (r: Vec<u8>)
    ensures
        r@ == join_sp(views(ps@)),
    decreases ps@.len(),
{
    let ghost pv = views(ps@);
    let ghost n = ps@.len() as int;
    let mut out: Vec<u8> = Vec::new();
    let mut i: usize = 0;
    proof {
        assert(pv.subrange(0, n) =~= pv);
        assert(Seq::<u8>::empty() + join_sp(pv) =~= join_sp(pv));
    }
    while i < ps.len()
        invariant
            i <= ps@.len(),
            pv == views(ps@),
            n == ps@.len() as int,
            join_sp(pv) == out@ + join_sp(pv.subrange(i as int, n)),
        decreases ps@.len() - i,
    {
        proof {
            lemma_join_sp_step(pv, i as int);
        }
        let ghost prev = out@;
        let mut part = sub_vec(&ps[i], 0, ps[i].len());
        proof {
            assert(part@ =~= ps@[i as int]@);
            assert(pv[i as int] == ps@[i as int]@);
        }
        out.append(&mut part);
        if i + 1 < ps.len() {
            out.push(SPACE);
            proof {
                assert(out@ =~= prev + pv[i as int] + seq![SPACE]);
                assert(out@ + join_sp(pv.subrange(i + 1, n)) =~= prev + (pv[i as int] + seq![SPACE]
                    + join_sp(pv.subrange(i + 1, n))));
            }
        } else {
            proof {
                assert(out@ =~= prev + pv[i as int]);
                assert(pv.subrange(i + 1, n) =~= Seq::<Seq<u8>>::empty());
                assert(join_sp(Seq::<Seq<u8>>::empty()) == Seq::<u8>::empty());
                assert(out@ + Seq::<u8>::empty() =~= out@);
            }
        }
        i = i + 1;
    }
    proof {
        assert(pv.subrange(n, n) =~= Seq::<Seq<u8>>::empty());
        assert(join_sp(Seq::<Seq<u8>>::empty()) == Seq::<u8>::empty());
        assert(out@ + Seq::<u8>::empty() =~= out@);
    }
    out
}

/// One step of joining: the first segment, a space when more follow, then
/// the join of the rest.
proof fn lemma_join_sp_step(ps: Seq<Seq<u8>>, i: int)
    requires
        0 <= i < ps.len(),
    ensures
        ps.len() - i == 1 ==> join_sp(ps.subrange(i, ps.len() as int)) == ps[i],
        ps.len() - i > 1 ==> join_sp(ps.subrange(i, ps.len() as int)) == ps[i] + seq![SPACE]
            + join_sp(ps.subrange(i + 1, ps.len() as int)),
{
    let suffix = ps.subrange(i, ps.len() as int);
    if ps.len() - i == 1 {
        assert(suffix.len() == 1);
        assert(suffix[0] == ps[i]);
    } else {
        assert(suffix.len() > 1);
        assert(suffix[0] == ps[i]);
        assert(suffix.drop_first() =~= ps.subrange(i + 1, ps.len() as int));
    }
}

/// Splitting on spaces undoes joining with spaces: parsing and then
/// re-serializing a parameter list keeps the order and count of arguments.
pub proof fn lemma_params_round_trip(ps: Seq<Seq<u8>>)
    requires
        ps.len() >= 1,
        forall|i: int| 0 <= i < ps.len() ==> !contains_byte(#[trigger] ps[i], SPACE),
    ensures
        split_sp(join_sp(ps)) == ps,
    decreases ps.len(),
{
    let s = join_sp(ps);
    if ps.len() == 1 {
        assert(s == ps[0]);
        assert(forall|k: int| 0 <= k < s.len() ==> s[k] != SPACE) by {
            assert(!contains_byte(ps[0], SPACE));
        }
        assert(forall|k: int| 0 <= k < s.len() ==> !contains_byte(seq![SPACE], s[k])) by {
            assert(forall|x: u8| contains_byte(seq![SPACE], x) ==> x == SPACE);
        }
        lemma_span_end_is(s, seq![SPACE], 0, false, s.len() as int);
        assert(split_sp(s) =~= seq![s]);
        assert(seq![s] =~= ps);
    } else {
        let rest = ps.drop_first();
        let tail = join_sp(rest);
        let n = ps[0].len() as int;
        assert(s == ps[0] + seq![SPACE] + tail);
        assert(s.len() == n + 1 + tail.len());
        assert(forall|k: int| 0 <= k < n ==> s[k] == ps[0][k]);
        assert(forall|k: int| 0 <= k < n ==> s[k] != SPACE) by {
            assert(!contains_byte(ps[0], SPACE));
        }
        assert(forall|k: int| 0 <= k < n ==> !contains_byte(seq![SPACE], s[k])) by {
            assert(forall|x: u8| contains_byte(seq![SPACE], x) ==> x == SPACE);
        }
        assert(s[n] == SPACE);
        assert(contains_byte(seq![SPACE], s[n])) by {
            assert(seq![SPACE][0] == SPACE);
        }
        lemma_span_end_is(s, seq![SPACE], 0, false, n);
        assert(span_end(s, seq![SPACE], 0, false) == n);
        assert(s.subrange(0, n) =~= ps[0]);
        assert(s.subrange(n + 1, s.len() as int) =~= tail);
        assert(forall|i: int| 0 <= i < rest.len() ==> !contains_byte(#[trigger] rest[i], SPACE))
            by {
            assert(forall|i: int| 0 <= i < rest.len() ==> rest[i] == ps[i + 1]);
        }
        lemma_params_round_trip(rest);
        assert(split_sp(s) =~= seq![ps[0]] + rest);
        assert(seq![ps[0]] + rest =~= ps);
    }
}

/// Split on every newline byte; empty lines are kept, and the empty string
/// splits into one empty line.
pub open spec fn split_nl(s: Seq<u8>) -> Seq<Seq<u8>>
    decreases s.len(),
{
    let j = span_end(s, seq![NEWLINE], 0, false);
    if j >= s.len() {
        seq![s]
    } else {
        proof {
            lemma_span_end_range(s, seq![NEWLINE], 0, false);
        }
        seq![s.subrange(0, j)] + split_nl(s.subrange(j + 1, s.len() as int))
    }
}

/// Split a source text into its lines.
pub fn split_lines(s: Vec<u8>) -> (r: Vec<Vec<u8>>)
    ensures
        views(r@) == split_nl(s@),
        r@.len() >= 1,
    decreases s@.len(),
{
    let ghost sv = s@;
    let j = find_stop(&s, 0, NEWLINE);
    if j >= s.len() {
        let mut out: Vec<Vec<u8>> = Vec::new();
        out.push(s);
        proof {
            assert(views(out@) =~= seq![sv]);
            assert(split_nl(sv) == seq![sv]);
        }
        return out;
    }
    let token = sub_vec(&s, 0, j);
    let rest = sub_vec(&s, j + 1, s.len());
    let mut tail = split_lines(rest);
    let mut out: Vec<Vec<u8>> = Vec::new();
    out.push(token);
    let ghost tail_view = views(tail@);
    out.append(&mut tail);
    proof {
        assert(views(out@) =~= seq![sv.subrange(0, j as int)] + tail_view);
    }
    out
}

// ------------------------------------------------------------------
// Decimal rendering
// ------------------------------------------------------------------

/// Decimal digits of a nonnegative number, most significant first.
pub open spec fn dec_digits(n: nat) -> Seq<u8>
    decreases n,
{
    if n < 10 {
        seq![(n + 48) as u8]
    } else {
        proof {
            assert(n / 10 < n) by (nonlinear_arith)
                requires
                    n >= 10,
            ;
        }
        dec_digits(n / 10).push((n % 10 + 48) as u8)
    }
}

/// Decimal rendering of a register value, with a leading minus sign for
/// negative values.
pub open spec fn dec_repr(v: int) -> Seq<u8> {
    if v < 0 {
        seq![45u8] + dec_digits((-v) as nat)
    } else {
        dec_digits(v as nat)
    }
}

/// Render a register value in decimal, as the display opcodes print it.
pub fn format_value(v: i64) -> (r: Vec<u8>)
    ensures
        r@ == dec_repr(v as int),
{
    let neg = v < 0;
    let m: u64 = if v < 0 {
        (-(v + 1)) as u64 + 1
    } else {
        v as u64
    };
    proof {
        assert(m == if v < 0 {
            -(v as int)
        } else {
            v as int
        });
    }
    let mut out: Vec<u8> = Vec::new();
    let mut cur: u64 = m;
    proof {
        assert(dec_digits(m as nat) + Seq::<u8>::empty() =~= dec_digits(m as nat));
    }
    loop
        invariant_except_break
            dec_digits(m as nat) == dec_digits(cur as nat) + out@,
        ensures
            dec_digits(m as nat) == out@,
        decreases cur,
    {
        let d: u8 = (cur % 10) as u8;
        let next = cur / 10;
        let ghost prev = out@;
        proof {
            if cur >= 10 {
                assert(cur / 10 < cur) by (nonlinear_arith)
                    requires
                        cur >= 10,
                ;
            }
        }
        out.insert(0, d + 48);
        proof {
            assert(out@ =~= seq![(d + 48) as u8] + prev);
            if cur >= 10 {
                assert(dec_digits(cur as nat) == dec_digits(next as nat).push((d + 48) as u8));
                assert(dec_digits(next as nat).push((d + 48) as u8) + prev =~= dec_digits(
                    next as nat,
                ) + (seq![(d + 48) as u8] + prev));
            } else {
                assert(next == 0);
                assert(dec_digits(cur as nat) =~= seq![(d + 48) as u8]);
            }
        }
        if next == 0 {
            break;
        }
        cur = next;
    }
    if neg {
        let ghost prev = out@;
        out.insert(0, 45);
        proof {
            assert(out@ =~= seq![45u8] + prev);
        }
    }
    out
}

} // verus!
