//! Position-tracking cursor primitives over a source file's byte stream.
//!
//! A `ReadHead` records the current line and column for diagnostics.  The
//! free functions consume bytes from a buffer through a cursor index until a
//! delimiter is reached, counting crossed lines and columns so the caller can
//! advance its `ReadHead` by the consumed amounts.

use vstd::prelude::*;

verus! {

/// Newline byte; advancing over it starts a new line.
pub const NEWLINE: u8 = 10;

/// Largest supported source length, so that line and column counts fit in `i32`.
pub const MAX_SRC_LEN: usize = 0x3000_0000;

/// True for the ASCII whitespace bytes (space, tab, line feed, vertical tab,
/// form feed, carriage return).
pub open spec fn is_ws(b: u8) -> bool {
    b == 32 || b == 9 || b == 10 || b == 11 || b == 12 || b == 13
}

/// Executable test for [`is_ws`].
pub fn is_ws_byte(b: u8) -> (r: bool)
    ensures
        r == is_ws(b),
{
    b == 32 || b == 9 || b == 10 || b == 11 || b == 12 || b == 13
}

/// True when byte `b` occurs somewhere in `s`.
pub open spec fn contains_byte(s: Seq<u8>, b: u8) -> bool {
    exists|i: int| 0 <= i < s.len() && s[i] == b
}

/// Executable membership test for [`contains_byte`].
pub fn byte_in(set: &Vec<u8>, b: u8) -> (r: bool)
    ensures
        r == contains_byte(set@, b),
{
    let mut i: usize = 0;
    while i < set.len()
        invariant
            i <= set@.len(),
            forall|k: int| 0 <= k < i ==> set@[k] != b,
        decreases set@.len() - i,
    {
        if set[i] == b {
            return true;
        }
        i = i + 1;
    }
    false
}

/// Number of newline bytes in `s`.
pub open spec fn count_nl(s: Seq<u8>) -> int
    decreases s.len(),
{
    if s.len() == 0 {
        0
    } else {
        count_nl(s.drop_last()) + if s.last() == NEWLINE {
            1int
        } else {
            0int
        }
    }
}

/// `s` with all whitespace bytes removed.
pub open spec fn strip_ws(s: Seq<u8>) -> Seq<u8>
    decreases s.len(),
{
    if s.len() == 0 {
        Seq::empty()
    } else {
        strip_ws(s.drop_last()) + if is_ws(s.last()) {
            Seq::empty()
        } else {
            seq![s.last()]
        }
    }
}

pub proof fn lemma_count_nl_bound(s: Seq<u8>)
    ensures
        0 <= count_nl(s) <= s.len(),
    decreases s.len(),
{
    if s.len() > 0 {
        lemma_count_nl_bound(s.drop_last());
    }
}

pub proof fn lemma_count_nl_push(s: Seq<u8>, b: u8)
    ensures
        count_nl(s.push(b)) == count_nl(s) + if b == NEWLINE {
            1int
        } else {
            0int
        },
{
    assert(s.push(b).drop_last() =~= s);
}

pub proof fn lemma_strip_ws_len(s: Seq<u8>)
    ensures
        strip_ws(s).len() <= s.len(),
    decreases s.len(),
{
    if s.len() > 0 {
        lemma_strip_ws_len(s.drop_last());
    }
}

pub proof fn lemma_strip_ws_push(s: Seq<u8>, b: u8)
    ensures
        strip_ws(s.push(b)) == strip_ws(s) + if is_ws(b) {
            Seq::<u8>::empty()
        } else {
            seq![b]
        },
{
    assert(s.push(b).drop_last() =~= s);
}

/// First index at or after `from` whose byte's membership in `set` differs
/// from `in_set`, or the end of `src`.  With `in_set == false` this is the
/// first occurrence of a delimiter from `set`; with `in_set == true` it is
/// the end of the run of bytes drawn from `set`.
pub open spec fn span_end(src: Seq<u8>, set: Seq<u8>, from: int, in_set: bool) -> int
    decreases src.len() - from,
{
    if from < src.len() && from >= 0 {
        if contains_byte(set, src[from]) == in_set {
            span_end(src, set, from + 1, in_set)
        } else {
            from
        }
    } else {
        src.len() as int
    }
}

pub proof fn lemma_span_end_range(src: Seq<u8>, set: Seq<u8>, from: int, in_set: bool)
    requires
        0 <= from <= src.len(),
    ensures
        from <= span_end(src, set, from, in_set) <= src.len(),
        forall|k: int|
            from <= k < span_end(src, set, from, in_set) ==> contains_byte(set, src[k]) == in_set,
        span_end(src, set, from, in_set) < src.len() ==> contains_byte(
            set,
            src[span_end(src, set, from, in_set)],
        ) != in_set,
    decreases src.len() - from,
{
    if from < src.len() && contains_byte(set, src[from]) == in_set {
        lemma_span_end_range(src, set, from + 1, in_set);
    }
}

/// A span reaches at least as far as any prefix of matching bytes.
pub proof fn lemma_span_end_at_least(src: Seq<u8>, set: Seq<u8>, from: int, in_set: bool, j: int)
    requires
        0 <= from <= j <= src.len(),
        forall|k: int| from <= k < j ==> contains_byte(set, src[k]) == in_set,
    ensures
        span_end(src, set, from, in_set) >= j,
    decreases j - from,
{
    if from < j {
        assert(contains_byte(set, src[from]) == in_set);
        lemma_span_end_at_least(src, set, from + 1, in_set, j);
    } else {
        lemma_span_end_range(src, set, from, in_set);
    }
}

/// A span stops exactly where scanning from the left says it stops.
pub proof fn lemma_span_end_is(src: Seq<u8>, set: Seq<u8>, from: int, in_set: bool, j: int)
    requires
        0 <= from <= j <= src.len(),
        forall|k: int| from <= k < j ==> contains_byte(set, src[k]) == in_set,
        j < src.len() ==> contains_byte(set, src[j]) != in_set,
    ensures
        span_end(src, set, from, in_set) == j,
    decreases j - from,
{
    if from < j {
        assert(contains_byte(set, src[from]) == in_set);
        lemma_span_end_is(src, set, from + 1, in_set, j);
    }
}

/// A position-tracking read head over a source stream; `line` and `column`
/// are one-based and advance as bytes are consumed.
#[derive(Debug, Clone, Copy, PartialEq, Eq, Structural)]
pub struct ReadHead {
    pub column: i32,
    pub line: i32,
}

impl ReadHead {
    /// Head at the start of a file: line 1, column 1.
    pub fn new() -> (r: ReadHead)
        ensures
            r.line == 1,
            r.column == 1,
    {
        ReadHead { line: 1, column: 1 }
    }

    /// A copy of this head shifted by `line` lines and `col` columns.
    pub fn new_by(&self, line: i32, col: i32) -> (r: ReadHead)
        requires
            i32::MIN <= self.line + line <= i32::MAX,
            i32::MIN <= self.column + col <= i32::MAX,
        ensures
            r.line == self.line + line,
            r.column == self.column + col,
    {
        ReadHead { line: self.line + line, column: self.column + col }
    }

    /// Shift this head in place by `line` lines and `col` columns.
    pub fn advance_by(&mut self, line: i32, col: i32)
        requires
            i32::MIN <= old(self).line + line <= i32::MAX,
            i32::MIN <= old(self).column + col <= i32::MAX,
        ensures
            final(self).line == old(self).line + line,
            final(self).column == old(self).column + col,
    {
        self.column = self.column + col;
        self.line = self.line + line;
    }

    /// Advance over one consumed byte: a newline starts the next line at
    /// column 0, any other byte moves one column right.
    pub fn advance(&mut self, ch: u8)
        requires
            old(self).line < i32::MAX,
            old(self).column < i32::MAX,
        ensures
            final(self).line == old(self).line + if ch == NEWLINE {
                1int
            } else {
                0int
            },
            final(self).column == if ch == NEWLINE {
                0int
            } else {
                old(self).column + 1
            },
    {
        if ch == NEWLINE {
            self.advance_by(1, 0);
            self.column = 0;
        } else {
            self.advance_by(0, 1);
        }
    }
}

/// Count of newline bytes in `x`.
pub fn newlines(x: &Vec<u8>) -> (r: i32)
    requires
        x@.len() <= MAX_SRC_LEN,
    ensures
        r == count_nl(x@),
{
    let mut i: usize = 0;
    let mut n: i32 = 0;
    proof {
        assert(x@.subrange(0, 0) =~= Seq::<u8>::empty());
    }
    while i < x.len()
        invariant
            i <= x@.len(),
            x@.len() <= MAX_SRC_LEN,
            n == count_nl(x@.subrange(0, i as int)),
            0 <= n <= i,
        decreases x@.len() - i,
    {
        proof {
            assert(x@.subrange(0, i + 1) =~= x@.subrange(0, i as int).push(x@[i as int]));
            lemma_count_nl_push(x@.subrange(0, i as int), x@[i as int]);
        }
        if x[i] == NEWLINE {
            n = n + 1;
        }
        i = i + 1;
    }
    proof {
        assert(x@.subrange(0, x@.len() as int) =~= x@);
    }
    n
}

/// Core scan.  Starting at `*at`, consumes the bytes whose membership in
/// `set` equals `in_set`, stopping with the byte that ended the run next
/// and not consumed.  Returns the crossed line count, the crossed column
/// count and the raw bytes of the run.
fn take_span(src: &Vec<u8>, at: &mut usize, set: &Vec<u8>, in_set: bool) -> (r: (i32, i32, Vec<u8>))
    requires
        *old(at) <= src@.len(),
        src@.len() <= MAX_SRC_LEN,
    ensures
        ({
            let j = span_end(src@, set@, *old(at) as int, in_set);
            &&& *final(at) == j
            &&& r.2@ == src@.subrange(*old(at) as int, j)
            &&& r.0 == count_nl(r.2@)
            &&& r.1 == j - *old(at) - r.0
            &&& 0 <= r.0 <= r.2@.len()
            &&& 0 <= r.1
        }),
{
    let ghost orig = *at as int;
    let mut raw: Vec<u8> = Vec::new();
    proof {
        assert(raw@ =~= src@.subrange(orig, orig));
    }
    loop
        invariant
            0 <= orig <= *at <= src@.len(),
            src@.len() <= MAX_SRC_LEN,
            raw@ == src@.subrange(orig, *at as int),
            forall|k: int| orig <= k < *at ==> contains_byte(set@, src@[k]) == in_set,
        ensures
            ({
                let j = span_end(src@, set@, orig, in_set);
                &&& *at == j
                &&& raw@ == src@.subrange(orig, j)
            }),
        decreases src@.len() - *at,
    {
        if *at >= src.len() {
            proof {
                lemma_span_end_is(src@, set@, orig, in_set, *at as int);
            }
            break;
        }
        let c = src[*at];
        if byte_in(set, c) != in_set {
            proof {
                lemma_span_end_is(src@, set@, orig, in_set, *at as int);
            }
            break;
        }
        let ghost cur = *at as int;
        proof {
            assert(src@.subrange(orig, cur + 1) =~= src@.subrange(orig, cur).push(src@[cur]));
        }
        raw.push(c);
        *at = *at + 1;
    }
    let nl = newlines(&raw);
    proof {
        lemma_count_nl_bound(raw@);
    }
    let cols = raw.len() as i32 - nl;
    (nl, cols, raw)
}

/// Strip whitespace bytes from `v`.
pub fn filter_ws(v: &Vec<u8>) -> (r: Vec<u8>)
    ensures
        r@ == strip_ws(v@),
{
    let mut out: Vec<u8> = Vec::new();
    let mut i: usize = 0;
    proof {
        assert(v@.subrange(0, 0) =~= Seq::<u8>::empty());
        assert(out@ =~= strip_ws(v@.subrange(0, 0)));
    }
    while i < v.len()
        invariant
            i <= v@.len(),
            out@ == strip_ws(v@.subrange(0, i as int)),
        decreases v@.len() - i,
    {
        proof {
            assert(v@.subrange(0, i + 1) =~= v@.subrange(0, i as int).push(v@[i as int]));
            lemma_strip_ws_push(v@.subrange(0, i as int), v@[i as int]);
        }
        if !is_ws_byte(v[i]) {
            out.push(v[i]);
        }
        i = i + 1;
    }
    proof {
        assert(v@.subrange(0, v@.len() as int) =~= v@);
    }
    out
}

/// Consume until one of the `ch` delimiters is next (the delimiter itself
/// is not consumed), returning crossed lines, crossed columns and the
/// consumed bytes with all whitespace removed.
pub fn read_until(src: &Vec<u8>, at: &mut usize, ch: &Vec<u8>) -> (r: (i32, i32, Vec<u8>))
    requires
        *old(at) <= src@.len(),
        src@.len() <= MAX_SRC_LEN,
    ensures
        ({
            let j = span_end(src@, ch@, *old(at) as int, false);
            &&& *final(at) == j
            &&& r.2@ == strip_ws(src@.subrange(*old(at) as int, j))
            &&& r.0 == count_nl(src@.subrange(*old(at) as int, j))
            &&& r.1 == j - *old(at) - r.0
            &&& 0 <= r.0 && 0 <= r.1 && r.0 + r.1 == j - *old(at)
        }),
{
    let (nl, cols, raw) = take_span(src, at, ch, false);
    let content = filter_ws(&raw);
    (nl, cols, content)
}

/// Consume until one of the `ch` delimiters is next (the delimiter itself
/// is not consumed), returning crossed lines, crossed columns and the
/// consumed bytes with whitespace kept.
pub fn read_until_spare_ws(src: &Vec<u8>, at: &mut usize, ch: &Vec<u8>) -> (r: (i32, i32, Vec<u8>))
    requires
        *old(at) <= src@.len(),
        src@.len() <= MAX_SRC_LEN,
    ensures
        ({
            let j = span_end(src@, ch@, *old(at) as int, false);
            &&& *final(at) == j
            &&& r.2@ == src@.subrange(*old(at) as int, j)
            &&& r.0 == count_nl(r.2@)
            &&& r.1 == j - *old(at) - r.0
            &&& 0 <= r.0 <= r.2@.len()
        }),
{
    take_span(src, at, ch, false)
}

/// Consume the run of bytes drawn from `ch`, stopping with the first byte
/// outside the run next and not consumed, returning crossed lines, crossed
/// columns and the run.
pub fn read_all_until_any(src: &Vec<u8>, at: &mut usize, ch: &Vec<u8>) -> (r: (i32, i32, Vec<u8>))
    requires
        *old(at) <= src@.len(),
        src@.len() <= MAX_SRC_LEN,
    ensures
        ({
            let j = span_end(src@, ch@, *old(at) as int, true);
            &&& *final(at) == j
            &&& r.2@ == src@.subrange(*old(at) as int, j)
            &&& r.0 == count_nl(r.2@)
            &&& r.1 == j - *old(at) - r.0
        }),
{
    take_span(src, at, ch, true)
}

/// Lookahead without consuming: true when one of the `exists` bytes occurs
/// before the first `until` delimiter.  Whitespace bytes are never
/// reported, since the consuming reads strip them from their content.
pub fn any_exists_until(src: &Vec<u8>, at: usize, exists_set: &Vec<u8>, until: &Vec<u8>) -> (r:
    bool)
    requires
        at <= src@.len(),
        src@.len() <= MAX_SRC_LEN,
    ensures
        r == exists|k: int|
            at <= k < span_end(src@, until@, at as int, false) && !is_ws(src@[k]) && contains_byte(
                exists_set@,
                src@[k],
            ),
{
    let ghost j = span_end(src@, until@, at as int, false);
    proof {
        lemma_span_end_range(src@, until@, at as int, false);
    }
    let mut i: usize = at;
    loop
        invariant
            at <= i <= src@.len(),
            src@.len() <= MAX_SRC_LEN,
            forall|k: int| at <= k < i ==> !contains_byte(until@, src@[k]),
            forall|k: int| at <= k < i ==> !(!is_ws(src@[k]) && contains_byte(exists_set@, src@[k])),
        ensures
            !(exists|k: int|
                at <= k < span_end(src@, until@, at as int, false) && !is_ws(src@[k])
                    && contains_byte(exists_set@, src@[k])),
        decreases src@.len() - i,
    {
        if i >= src.len() {
            proof {
                lemma_span_end_is(src@, until@, at as int, false, i as int);
            }
            break;
        }
        let c = src[i];
        if byte_in(until, c) {
            proof {
                lemma_span_end_is(src@, until@, at as int, false, i as int);
                lemma_span_end_range(src@, until@, at as int, false);
            }
            break;
        }
        if !is_ws_byte(c) && byte_in(exists_set, c) {
            proof {
                lemma_span_end_at_least(src@, until@, at as int, false, i + 1);
                assert(at <= i < span_end(src@, until@, at as int, false) && !is_ws(src@[i as int])
                    && contains_byte(exists_set@, src@[i as int]));
            }
            return true;
        }
        i = i + 1;
    }
    false
}

/// Advance `head` by the line and column counts of a read result and hand
/// back the read content.
pub fn traverse_read(head: &mut ReadHead, data: (i32, i32, Vec<u8>)) -> (r: Vec<u8>)
    requires
        i32::MIN <= old(head).line + data.0 <= i32::MAX,
        i32::MIN <= old(head).column + data.1 <= i32::MAX,
    ensures
        final(head).line == old(head).line + data.0,
        final(head).column == old(head).column + data.1,
        r == data.2,
{
    let (row, col, dat) = data;
    head.advance_by(row, col);
    dat
}

/// Skip past the next `ch` delimiter: discard the content before it,
/// consume the delimiter itself, and advance `head` over everything
/// consumed.
pub fn dump_until(head: &mut ReadHead, src: &Vec<u8>, at: &mut usize, ch: &Vec<u8>)
    requires
        *old(at) <= src@.len(),
        src@.len() <= MAX_SRC_LEN,
        i32::MIN + (MAX_SRC_LEN as i32) <= old(head).line <= i32::MAX - (MAX_SRC_LEN as i32) - 1,
        i32::MIN + (MAX_SRC_LEN as i32) <= old(head).column <= i32::MAX - (MAX_SRC_LEN as i32) - 1,
    ensures
        ({
            let j = span_end(src@, ch@, *old(at) as int, false);
            let nl = count_nl(src@.subrange(*old(at) as int, j));
            &&& *final(at) == if j < src@.len() {
                j + 1
            } else {
                j
            }
            &&& if j < src@.len() && src@[j] == NEWLINE {
                final(head).line == old(head).line + nl + 1 && final(head).column == 0
            } else if j < src@.len() {
                final(head).line == old(head).line + nl && final(head).column == old(head).column
                    + (j - *old(at)) - nl + 1
            } else {
                final(head).line == old(head).line + nl && final(head).column == old(head).column
                    + (j - *old(at)) - nl
            }
        }),
{
    let ghost start = *at as int;
    proof {
        lemma_span_end_range(src@, ch@, start, false);
        lemma_count_nl_bound(src@.subrange(start, span_end(src@, ch@, start, false)));
    }
    let data = read_until_spare_ws(src, at, ch);
    let _ = traverse_read(head, data);
    if *at < src.len() {
        let d = src[*at];
        *at = *at + 1;
        head.advance(d);
    }
}

/// Skip past the run of bytes drawn from `ch`: discard the run, consume the
/// byte that ended it, and advance `head` over everything consumed.
pub fn dump_all_until_any(head: &mut ReadHead, src: &Vec<u8>, at: &mut usize, ch: &Vec<u8>)
    requires
        *old(at) <= src@.len(),
        src@.len() <= MAX_SRC_LEN,
        i32::MIN + (MAX_SRC_LEN as i32) <= old(head).line <= i32::MAX - (MAX_SRC_LEN as i32) - 1,
        i32::MIN + (MAX_SRC_LEN as i32) <= old(head).column <= i32::MAX - (MAX_SRC_LEN as i32) - 1,
    ensures
        ({
            let j = span_end(src@, ch@, *old(at) as int, true);
            let nl = count_nl(src@.subrange(*old(at) as int, j));
            &&& *final(at) == if j < src@.len() {
                j + 1
            } else {
                j
            }
            &&& if j < src@.len() && src@[j] == NEWLINE {
                final(head).line == old(head).line + nl + 1 && final(head).column == 0
            } else if j < src@.len() {
                final(head).line == old(head).line + nl && final(head).column == old(head).column
                    + (j - *old(at)) - nl + 1
            } else {
                final(head).line == old(head).line + nl && final(head).column == old(head).column
                    + (j - *old(at)) - nl
            }
        }),
{
    let ghost start = *at as int;
    proof {
        lemma_span_end_range(src@, ch@, start, true);
        lemma_count_nl_bound(src@.subrange(start, span_end(src@, ch@, start, true)));
    }
    let data = read_all_until_any(src, at, ch);
    let _ = traverse_read(head, data);
    if *at < src.len() {
        let d = src[*at];
        *at = *at + 1;
        head.advance(d);
    }
}

/// A buffer holding `times` copies of `ch` (empty when `times` is negative).
pub fn repeat(times: i32, ch: u8) -> (r: Vec<u8>)
    ensures
        r@.len() == if times <= 0 {
            0int
        } else {
            times as int
        },
        forall|k: int| 0 <= k < r@.len() ==> r@[k] == ch,
{
    let mut buff: Vec<u8> = Vec::new();
    if times <= 0 {
        return buff;
    }
    let mut i: i32 = 0;
    while i < times
        invariant
            0 <= i <= times,
            buff@.len() == i as int,
            forall|k: int| 0 <= k < buff@.len() ==> buff@[k] == ch,
        decreases times - i,
    {
        buff.push(ch);
        i = i + 1;
    }
    buff
}

} // verus!
