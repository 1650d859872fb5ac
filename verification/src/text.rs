//! Byte-level building blocks: character classes and the scans built on them.

use vstd::prelude::*;

verus! {

/// A byte that may start an identifier: an ASCII letter or `_`.
pub open spec fn is_ident_start(b: u8) -> bool {
    ('a' as u8 <= b && b <= 'z' as u8) || ('A' as u8 <= b && b <= 'Z' as u8) || b == '_' as u8
}

/// A byte that may continue an identifier: an ASCII letter, a digit or `_`.
pub open spec fn is_ident_part(b: u8) -> bool {
    is_ident_start(b) || ('0' as u8 <= b && b <= '9' as u8)
}

/// White space that separates tokens inside a script block without ending a line.
pub open spec fn is_blank(b: u8) -> bool {
    b == ' ' as u8 || b == '\t' as u8 || b == '\r' as u8
}

/// Whether `b` may start an identifier.
pub(crate) fn ident_start(b: u8) -> (r: bool)
    ensures
        r == is_ident_start(b),
{
    ('a' as u8 <= b && b <= 'z' as u8) || ('A' as u8 <= b && b <= 'Z' as u8) || b == '_' as u8
}

/// Whether `b` may continue an identifier.
pub(crate) fn ident_part(b: u8) -> (r: bool)
    ensures
        r == is_ident_part(b),
{
    ident_start(b) || ('0' as u8 <= b && b <= '9' as u8)
}

/// Whether `b` is blank.
pub(crate) fn blank(b: u8) -> (r: bool)
    ensures
        r == is_blank(b),
{
    b == ' ' as u8 || b == '\t' as u8 || b == '\r' as u8
}

/// Whether `{{` stands at `pos`.
pub open spec fn opens_block(s: Seq<u8>, pos: int) -> bool {
    0 <= pos && pos + 1 < s.len() && s[pos] == '{' as u8 && s[pos + 1] == '{' as u8
}

/// Whether `}}` stands at `pos`.
pub open spec fn closes_block(s: Seq<u8>, pos: int) -> bool {
    0 <= pos && pos + 1 < s.len() && s[pos] == '}' as u8 && s[pos + 1] == '}' as u8
}

/// Where the run of identifier bytes that starts at `pos` ends.
pub open spec fn ident_end(s: Seq<u8>, pos: int) -> int
    decreases s.len() - pos,
{
    if 0 <= pos < s.len() && is_ident_part(s[pos]) {
        ident_end(s, pos + 1)
    } else {
        pos
    }
}

/// The first line feed at or after `pos`, or the end of `s`.
pub open spec fn line_end(s: Seq<u8>, pos: int) -> int
    decreases s.len() - pos,
{
    if 0 <= pos < s.len() && s[pos] != '\n' as u8 {
        line_end(s, pos + 1)
    } else {
        pos
    }
}

/// The first `{{` at or after `pos`, or the end of `s`.
pub open spec fn host_end(s: Seq<u8>, pos: int) -> int
    decreases s.len() - pos,
{
    if 0 <= pos < s.len() && !opens_block(s, pos) {
        host_end(s, pos + 1)
    } else {
        pos
    }
}

/// The quote that closes a string literal whose contents start at `pos`, or
/// the end of `s` where none does. A quote behind a backslash does not close.
pub open spec fn string_end(s: Seq<u8>, pos: int) -> int
    decreases s.len() - pos,
{
    if 0 <= pos < s.len() && s[pos] != '"' as u8 {
        if s[pos] == '\\' as u8 && pos + 1 < s.len() && s[pos + 1] == '"' as u8 {
            string_end(s, pos + 2)
        } else {
            string_end(s, pos + 1)
        }
    } else {
        pos
    }
}

/// A run of identifier bytes ends at or after its start, inside `s`.
pub proof fn lemma_ident_end_bounds(s: Seq<u8>, pos: int)
    requires
        0 <= pos <= s.len(),
    ensures
        pos <= ident_end(s, pos) <= s.len(),
    decreases s.len() - pos,
{
    if pos < s.len() && is_ident_part(s[pos]) {
        lemma_ident_end_bounds(s, pos + 1);
    }
}

/// A line ends at or after any of its places, inside `s`.
pub proof fn lemma_line_end_bounds(s: Seq<u8>, pos: int)
    requires
        0 <= pos <= s.len(),
    ensures
        pos <= line_end(s, pos) <= s.len(),
    decreases s.len() - pos,
{
    if pos < s.len() && s[pos] != '\n' as u8 {
        lemma_line_end_bounds(s, pos + 1);
    }
}

/// A run of host text ends at or after its start, inside `s`.
pub proof fn lemma_host_end_bounds(s: Seq<u8>, pos: int)
    requires
        0 <= pos <= s.len(),
    ensures
        pos <= host_end(s, pos) <= s.len(),
    decreases s.len() - pos,
{
    if pos < s.len() && !opens_block(s, pos) {
        lemma_host_end_bounds(s, pos + 1);
    }
}

/// The contents of a string literal end at or after their start, inside `s`.
pub proof fn lemma_string_end_bounds(s: Seq<u8>, pos: int)
    requires
        0 <= pos <= s.len(),
    ensures
        pos <= string_end(s, pos) <= s.len(),
    decreases s.len() - pos,
{
    if pos < s.len() && s[pos] != '"' as u8 {
        if s[pos] == '\\' as u8 && pos + 1 < s.len() && s[pos + 1] == '"' as u8 {
            lemma_string_end_bounds(s, pos + 2);
        } else {
            lemma_string_end_bounds(s, pos + 1);
        }
    }
}

/// Finds where the run of identifier bytes that starts at `pos` ends.
pub(crate) fn scan_ident(s: &[u8], pos: usize) -> (end: usize)
    requires
        pos <= s@.len(),
    ensures
        end == ident_end(s@, pos as int),
        pos <= end <= s@.len(),
{
    let mut i: usize = pos;
    while i < s.len() && ident_part(s[i])
        invariant
            pos <= i <= s@.len(),
            ident_end(s@, pos as int) == ident_end(s@, i as int),
        decreases s@.len() - i,
    {
        i += 1;
    }
    i
}

/// Finds the first line feed at or after `pos`, or the end of `s`.
pub(crate) fn scan_line(s: &[u8], pos: usize) -> (end: usize)
    requires
        pos <= s@.len(),
    ensures
        end == line_end(s@, pos as int),
        pos <= end <= s@.len(),
{
    let mut i: usize = pos;
    while i < s.len() && s[i] != '\n' as u8
        invariant
            pos <= i <= s@.len(),
            line_end(s@, pos as int) == line_end(s@, i as int),
        decreases s@.len() - i,
    {
        i += 1;
    }
    i
}

/// Whether `{{` stands at `pos`.
pub(crate) fn at_open(s: &[u8], pos: usize) -> (r: bool)
    ensures
        r == opens_block(s@, pos as int),
{
    pos < s.len() && s.len() - pos > 1 && s[pos] == '{' as u8 && s[pos + 1] == '{' as u8
}

/// Whether `}}` stands at `pos`.
pub(crate) fn at_close(s: &[u8], pos: usize) -> (r: bool)
    ensures
        r == closes_block(s@, pos as int),
{
    pos < s.len() && s.len() - pos > 1 && s[pos] == '}' as u8 && s[pos + 1] == '}' as u8
}

/// Finds the first `{{` at or after `pos`, or the end of `s`.
pub(crate) fn scan_host(s: &[u8], pos: usize) -> (end: usize)
    requires
        pos <= s@.len(),
    ensures
        end == host_end(s@, pos as int),
        pos <= end <= s@.len(),
{
    let mut i: usize = pos;
    while i < s.len() && !at_open(s, i)
        invariant
            pos <= i <= s@.len(),
            host_end(s@, pos as int) == host_end(s@, i as int),
        decreases s@.len() - i,
    {
        i += 1;
    }
    i
}

/// Finds the quote that closes a string literal whose contents start at
/// `pos`, or the end of `s`.
pub(crate) fn scan_string(s: &[u8], pos: usize) -> (end: usize)
    requires
        pos <= s@.len(),
    ensures
        end == string_end(s@, pos as int),
        pos <= end <= s@.len(),
{
    let mut i: usize = pos;
    while i < s.len() && s[i] != '"' as u8
        invariant
            pos <= i <= s@.len(),
            string_end(s@, pos as int) == string_end(s@, i as int),
        decreases s@.len() - i,
    {
        if s[i] == '\\' as u8 && s.len() - i > 1 && s[i + 1] == '"' as u8 {
            i += 2;
        } else {
            i += 1;
        }
    }
    i
}

/// How many line feeds stand before `pos`.
pub open spec fn newlines_before(s: Seq<u8>, pos: int) -> nat
    decreases pos,
{
    if pos <= 0 || pos > s.len() {
        0
    } else if s[pos - 1] == '\n' as u8 {
        newlines_before(s, pos - 1) + 1
    } else {
        newlines_before(s, pos - 1)
    }
}

/// Where the line that holds `pos` starts: just behind the last line feed before `pos`.
pub open spec fn line_start(s: Seq<u8>, pos: int) -> int
    decreases pos,
{
    if pos <= 0 || pos > s.len() {
        0
    } else if s[pos - 1] == '\n' as u8 {
        pos
    } else {
        line_start(s, pos - 1)
    }
}

/// No more line feeds stand before `pos` than bytes, and the line that
/// holds `pos` starts at or before it.
pub proof fn lemma_line_bounds(s: Seq<u8>, pos: int)
    requires
        0 <= pos <= s.len(),
    ensures
        newlines_before(s, pos) <= pos,
        0 <= line_start(s, pos) <= pos,
    decreases pos,
{
    if pos > 0 {
        lemma_line_bounds(s, pos - 1);
    }
}

/// Counts the line feeds in `from..to` and finds the start of the line that
/// holds `to`, given both for `from`.
pub(crate) fn count_lines(s: &[u8], from: usize, to: usize, line: usize, start: usize) -> (r: (usize, usize))
    requires
        from <= to <= s@.len(),
        line == newlines_before(s@, from as int),
        start == line_start(s@, from as int),
    ensures
        r.0 == newlines_before(s@, to as int),
        r.1 == line_start(s@, to as int),
{
    let mut i: usize = from;
    let mut line: usize = line;
    let mut start: usize = start;
    proof {
        lemma_line_bounds(s@, from as int);
    }
    while i < to
        invariant
            from <= i <= to <= s@.len(),
            line == newlines_before(s@, i as int),
            start == line_start(s@, i as int),
            line <= i,
        decreases to - i,
    {
        if s[i] == '\n' as u8 {
            line += 1;
            start = i + 1;
        }
        i += 1;
    }
    (line, start)
}

/// Whether two byte strings are equal.
pub(crate) fn bytes_eq(a: &[u8], b: &[u8]) -> (r: bool)
    ensures
        r == (a@ == b@),
{
    if a.len() != b.len() {
        return false;
    }
    let mut i: usize = 0;
    while i < a.len()
        invariant
            i <= a@.len(),
            a@.len() == b@.len(),
            forall|j: int| 0 <= j < i ==> a@[j] == b@[j],
        decreases a@.len() - i,
    {
        if a[i] != b[i] {
            return false;
        }
        i += 1;
    }
    assert(a@ =~= b@);
    true
}

/// An owned copy of a byte string.
pub(crate) fn to_vec(s: &[u8]) -> (v: Vec<u8>)
    ensures
        v@ == s@,
{
    let mut v: Vec<u8> = Vec::new();
    v.extend_from_slice(s);
    assert(v@ =~= s@);
    v
}

/// Whether the bytes of `a` from `i` on come before those of `b` in
/// dictionary order: at the first place where they differ `a` has the smaller
/// byte, or `a` ends there and `b` does not.
pub open spec fn precedes_from(a: Seq<u8>, b: Seq<u8>, i: int) -> bool
    decreases a.len() - i,
{
    if i < 0 || i >= b.len() {
        false
    } else if i >= a.len() {
        true
    } else if a[i] != b[i] {
        a[i] < b[i]
    } else {
        precedes_from(a, b, i + 1)
    }
}

/// Whether `a` comes before `b` in dictionary order.
pub open spec fn precedes(a: Seq<u8>, b: Seq<u8>) -> bool {
    precedes_from(a, b, 0)
}

/// No byte string comes before itself.
pub proof fn lemma_precedes_irreflexive(a: Seq<u8>, i: int)
    ensures
        !precedes_from(a, a, i),
    decreases a.len() - i,
{
    if 0 <= i < a.len() {
        lemma_precedes_irreflexive(a, i + 1);
    }
}

/// What comes before a string that comes before a third comes before the
/// third.
pub proof fn lemma_precedes_transitive(a: Seq<u8>, b: Seq<u8>, c: Seq<u8>, i: int)
    requires
        precedes_from(a, b, i),
        precedes_from(b, c, i),
    ensures
        precedes_from(a, c, i),
    decreases a.len() - i,
{
    if i < a.len() && a[i] == b[i] && b[i] == c[i] {
        lemma_precedes_transitive(a, b, c, i + 1);
    }
}

/// Two byte strings of which neither comes before the other are equal.
pub proof fn lemma_precedes_total(a: Seq<u8>, b: Seq<u8>, i: int)
    requires
        0 <= i <= a.len(),
        i <= b.len(),
        forall|j: int| 0 <= j < i ==> a[j] == b[j],
        !precedes_from(a, b, i),
        !precedes_from(b, a, i),
    ensures
        a == b,
    decreases a.len() - i,
{
    if i < a.len() && i < b.len() {
        lemma_precedes_total(a, b, i + 1);
    } else {
        assert(a =~= b);
    }
}

/// Whether `a` comes before `b` in dictionary order.
pub fn bytes_less(a: &[u8], b: &[u8]) -> (r: bool)
    ensures
        r == precedes(a@, b@),
{
    let mut i: usize = 0;
    while i < a.len() && i < b.len()
        invariant
            i <= a@.len(),
            i <= b@.len(),
            precedes(a@, b@) == precedes_from(a@, b@, i as int),
        decreases a@.len() - i,
    {
        if a[i] != b[i] {
            return a[i] < b[i];
        }
        i += 1;
    }
    i < b.len()
}

/// The decimal digits of `n`.
pub open spec fn decimal(n: nat) -> Seq<u8>
    decreases n,
{
    if n < 10 {
        seq![('0' as u8 + n) as u8]
    } else {
        decimal(n / 10).push(('0' as u8 + n % 10) as u8)
    }
}

/// The decimal digits of `n`.
pub fn to_decimal(n: u128) -> (r: Vec<u8>)
    ensures
        r@ == decimal(n as nat),
    decreases n,
{
    if n < 10 {
        let mut r: Vec<u8> = Vec::new();
        r.push('0' as u8 + n as u8);
        assert(r@ =~= decimal(n as nat));
        r
    } else {
        let mut r = to_decimal(n / 10);
        r.push('0' as u8 + (n % 10) as u8);
        r
    }
}

/// Where the line that holds `pos` starts.
pub(crate) fn start_of_line(s: &[u8], pos: usize) -> (r: usize)
    requires
        pos <= s@.len(),
    ensures
        r == line_start(s@, pos as int),
        r <= pos,
{
    let mut i: usize = pos;
    while i > 0 && s[i - 1] != '\n' as u8
        invariant
            i <= pos <= s@.len(),
            line_start(s@, pos as int) == line_start(s@, i as int),
        decreases i,
    {
        i -= 1;
    }
    i
}

/// `n` times the byte `b`.
pub open spec fn repeat(b: u8, n: nat) -> Seq<u8> {
    Seq::new(n, |i: int| b)
}

/// Writes `text` behind what `sink` holds.
pub(crate) fn emit(sink: &mut Vec<u8>, text: &[u8])
    ensures
        final(sink)@ == old(sink)@ + text@,
{
    sink.extend_from_slice(text);
    assert(sink@ =~= old(sink)@ + text@);
}

/// Writes the byte `b` to `sink`, `n` times.
pub(crate) fn pad(sink: &mut Vec<u8>, b: u8, n: usize)
    ensures
        final(sink)@ == old(sink)@ + repeat(b, n as nat),
{
    let mut i: usize = 0;
    assert(sink@ =~= old(sink)@ + repeat(b, 0));
    while i < n
        invariant
            i <= n,
            sink@ == old(sink)@ + repeat(b, i as nat),
        decreases n - i,
    {
        sink.push(b);
        i += 1;
        assert(sink@ =~= old(sink)@ + repeat(b, i as nat));
    }
}

/// `s[i..]` with four spaces in place of each tab.
pub open spec fn tabs_expanded(s: Seq<u8>, i: int) -> Seq<u8>
    decreases s.len() - i,
{
    if i < 0 || i >= s.len() {
        Seq::empty()
    } else if s[i] == '\t' as u8 {
        repeat(' ' as u8, 4) + tabs_expanded(s, i + 1)
    } else {
        seq![s[i]] + tabs_expanded(s, i + 1)
    }
}

/// A copy of `text` with four spaces in place of each tab.
pub fn expand_tabs(text: &[u8]) -> (r: Vec<u8>)
    ensures
        r@ == tabs_expanded(text@, 0),
{
    let mut r: Vec<u8> = Vec::new();
    let mut i: usize = 0;
    assert(r@ + tabs_expanded(text@, 0) =~= tabs_expanded(text@, 0));
    while i < text.len()
        invariant
            i <= text@.len(),
            tabs_expanded(text@, 0) == r@ + tabs_expanded(text@, i as int),
        decreases text@.len() - i,
    {
        let ghost before = r@;
        let ghost rest = tabs_expanded(text@, i + 1);
        if text[i] == '\t' as u8 {
            pad(&mut r, ' ' as u8, 4);
            assert(before + (repeat(' ' as u8, 4) + rest) =~= r@ + rest);
        } else {
            r.push(text[i]);
            assert(before + (seq![text@[i as int]] + rest) =~= r@ + rest);
        }
        i += 1;
    }
    assert(r@ + Seq::<u8>::empty() =~= r@);
    r
}

/// The line `pos..end` of `s`, where `end` is the line feed that ends it or
/// the end of `s`: without the carriage return that may stand before the
/// line feed.
pub open spec fn line_at(s: Seq<u8>, pos: int, end: int) -> Seq<u8> {
    if pos < end < s.len() && s[end - 1] == '\r' as u8 {
        s.subrange(pos, end - 1)
    } else {
        s.subrange(pos, end)
    }
}

/// The lines of `s` from `pos` on. A line ends with a line feed, or with a
/// carriage return and a line feed, and neither belongs to it; the last line
/// needs no line ending, and a line ending at the very end starts no further
/// line.
pub open spec fn lines_from(s: Seq<u8>, pos: int) -> Seq<Seq<u8>>
    decreases s.len() - pos,
{
    if pos < 0 || pos >= s.len() {
        Seq::empty()
    } else {
        let end = line_end(s, pos);
        proof {
            lemma_line_end_bounds(s, pos);
        }
        let next = if end < s.len() {
            end + 1
        } else {
            end
        };
        seq![line_at(s, pos, end)] + lines_from(s, next)
    }
}

/// The lines of `s`.
pub open spec fn lines(s: Seq<u8>) -> Seq<Seq<u8>> {
    lines_from(s, 0)
}

/// Splits `text` into its lines.
pub fn split_lines(text: &[u8]) -> (r: Vec<Vec<u8>>)
    ensures
        r.deep_view() == lines(text@),
{
    let mut r: Vec<Vec<u8>> = Vec::new();
    let mut pos: usize = 0;
    assert(r.deep_view() + lines(text@) =~= lines(text@));
    while pos < text.len()
        invariant
            pos <= text@.len(),
            lines(text@) == r.deep_view() + lines_from(text@, pos as int),
        decreases text@.len() - pos,
    {
        let end = scan_line(text, pos);
        let stop = if pos < end && end < text.len() && text[end - 1] == '\r' as u8 {
            end - 1
        } else {
            end
        };
        let line = to_vec(vstd::slice::slice_subrange(text, pos, stop));
        let next = if end < text.len() { end + 1 } else { end };
        let ghost before = r.deep_view();
        let ghost rest = lines_from(text@, next as int);
        r.push(line);
        proof {
            assert(line.deep_view() =~= line@);
            assert(r.deep_view() =~= before.push(line@));
            assert(before + (seq![line@] + rest) =~= before.push(line@) + rest);
        }
        pos = next;
    }
    assert(r.deep_view() + Seq::<Seq<u8>>::empty() =~= r.deep_view());
    r
}

} // verus!
