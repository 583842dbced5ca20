//! Splitting a byte stream into lines.
//!
//! `scan` reads a stream byte by byte. It keeps the non-blank complete lines
//! seen so far and the line still under way. A line is complete once its
//! terminating newline has arrived; the newline itself is not part of it.

use vstd::prelude::*;

verus! {

/// The byte that ends a record line.
pub const NEWLINE: u8 = 10;

/// JSON's whitespace bytes: space, tab, line feed and carriage return.
pub open spec fn is_space(b: u8) -> bool {
    b == 32 || b == 9 || b == 10 || b == 13
}

/// A line is blank when it holds nothing but whitespace (the empty line too).
pub open spec fn is_blank(line: Seq<u8>) -> bool {
    forall|i: int| 0 <= i < line.len() ==> is_space(#[trigger] line[i])
}

/// Reads `s` after `lines` have been completed and `cur` is under way: the
/// non-blank complete lines, and the unterminated rest.
pub open spec fn scan(lines: Seq<Seq<u8>>, cur: Seq<u8>, s: Seq<u8>) -> (Seq<Seq<u8>>, Seq<u8>)
    decreases s.len(),
{
    if s.len() == 0 {
        (lines, cur)
    } else if s[0] == NEWLINE {
        let done = if is_blank(cur) {
            lines
        } else {
            lines.push(cur)
        };
        scan(done, Seq::empty(), s.drop_first())
    } else {
        scan(lines, cur.push(s[0]), s.drop_first())
    }
}

/// The non-blank complete lines of a whole stream, and its unterminated tail.
pub open spec fn frame(s: Seq<u8>) -> (Seq<Seq<u8>>, Seq<u8>) {
    scan(Seq::empty(), Seq::empty(), s)
}

/// What the unterminated tail of a body adds at its end: itself as a last
/// line, unless it is blank.
pub open spec fn tail_lines(tail: Seq<u8>) -> Seq<Seq<u8>> {
    if is_blank(tail) {
        Seq::empty()
    } else {
        seq![tail]
    }
}

/// The lines that a whole body yields once its end has been reached: the
/// non-blank complete lines, then the tail flushed as a last line.
pub open spec fn body_lines(s: Seq<u8>) -> Seq<Seq<u8>> {
    frame(s).0 + tail_lines(frame(s).1)
}

/// Whether `s` stops on a line boundary: it is empty or ends with a newline.
pub open spec fn ends_line(s: Seq<u8>) -> bool {
    s.len() == 0 || s.last() == NEWLINE
}

/// What a decoder hands out when the stream comes as `chunks`, starting with
/// `pending` held back: the lines of each chunk in turn, and what is held back
/// at the end.
pub open spec fn feed(pending: Seq<u8>, chunks: Seq<Seq<u8>>) -> (Seq<Seq<u8>>, Seq<u8>)
    decreases chunks.len(),
{
    if chunks.len() == 0 {
        (Seq::empty(), pending)
    } else {
        let first = scan(Seq::empty(), pending, chunks[0]);
        let rest = feed(first.1, chunks.drop_first());
        (first.0 + rest.0, rest.1)
    }
}

/// The views of a vector of lines.
pub open spec fn lines_view(v: Seq<Vec<u8>>) -> Seq<Seq<u8>> {
    v.map_values(|l: Vec<u8>| l@)
}

/// Lines already completed only stand in front of what the rest yields.
pub proof fn lemma_scan_keeps_lines(lines: Seq<Seq<u8>>, cur: Seq<u8>, s: Seq<u8>)
    ensures
        scan(lines, cur, s).0 == lines + scan(Seq::empty(), cur, s).0,
        scan(lines, cur, s).1 == scan(Seq::empty(), cur, s).1,
    decreases s.len(),
{
    if s.len() > 0 {
        let rest = s.drop_first();
        if s[0] == NEWLINE {
            if !is_blank(cur) {
                lemma_scan_keeps_lines(lines.push(cur), Seq::empty(), rest);
                lemma_scan_keeps_lines(seq![cur], Seq::empty(), rest);
                let tail = scan(Seq::<Seq<u8>>::empty(), Seq::empty(), rest).0;
                assert(lines.push(cur) + tail =~= lines + (seq![cur] + tail));
                assert(Seq::<Seq<u8>>::empty().push(cur) =~= seq![cur]);
            } else {
                lemma_scan_keeps_lines(lines, Seq::empty(), rest);
            }
        } else {
            lemma_scan_keeps_lines(lines, cur.push(s[0]), rest);
        }
    } else {
        assert(lines + Seq::<Seq<u8>>::empty() =~= lines);
    }
}

/// Reading `a + b` is reading `a`, then `b` from where `a` left off.
pub proof fn lemma_scan_append(lines: Seq<Seq<u8>>, cur: Seq<u8>, a: Seq<u8>, b: Seq<u8>)
    ensures
        scan(lines, cur, a + b) == scan(scan(lines, cur, a).0, scan(lines, cur, a).1, b),
    decreases a.len(),
{
    if a.len() == 0 {
        assert(a + b =~= b);
    } else {
        assert((a + b)[0] == a[0]);
        assert((a + b).drop_first() =~= a.drop_first() + b);
        if a[0] == NEWLINE {
            let done = if is_blank(cur) {
                lines
            } else {
                lines.push(cur)
            };
            lemma_scan_append(done, Seq::empty(), a.drop_first(), b);
        } else {
            lemma_scan_append(lines, cur.push(a[0]), a.drop_first(), b);
        }
    }
}

/// A stretch without a newline completes no line.
pub proof fn lemma_scan_no_newline(lines: Seq<Seq<u8>>, cur: Seq<u8>, s: Seq<u8>)
    requires
        forall|i: int| 0 <= i < s.len() ==> s[i] != NEWLINE,
    ensures
        scan(lines, cur, s).0 == lines,
        scan(lines, cur, s).1 == cur + s,
    decreases s.len(),
{
    if s.len() > 0 {
        assert(s[0] != NEWLINE);
        let rest = s.drop_first();
        assert forall|i: int| 0 <= i < rest.len() implies rest[i] != NEWLINE by {
            assert(rest[i] == s[i + 1]);
        }
        lemma_scan_no_newline(lines, cur.push(s[0]), rest);
        assert(cur.push(s[0]) + rest =~= cur + s);
    } else {
        assert(cur + s =~= cur);
    }
}

/// A newline completes the line under way, and keeps it unless it is blank.
pub proof fn lemma_scan_newline(lines: Seq<Seq<u8>>, cur: Seq<u8>)
    ensures
        scan(lines, cur, seq![NEWLINE]) == (if is_blank(cur) {
            lines
        } else {
            lines.push(cur)
        }, Seq::<u8>::empty()),
{
    let nl: Seq<u8> = seq![NEWLINE];
    assert(nl[0] == NEWLINE);
    assert(nl.drop_first() =~= Seq::<u8>::empty());
    let done = if is_blank(cur) {
        lines
    } else {
        lines.push(cur)
    };
    assert(scan(done, Seq::empty(), Seq::<u8>::empty()) == (done, Seq::<u8>::empty()));
}

/// A stream that stops on a line boundary holds nothing back.
pub proof fn lemma_boundary_holds_nothing(s: Seq<u8>)
    requires
        ends_line(s),
    ensures
        frame(s).1 == Seq::<u8>::empty(),
{
    if s.len() > 0 {
        let nl: Seq<u8> = seq![NEWLINE];
        assert(s =~= s.drop_last() + nl);
        lemma_scan_append(Seq::empty(), Seq::empty(), s.drop_last(), nl);
        lemma_scan_newline(frame(s.drop_last()).0, frame(s.drop_last()).1);
    }
}

/// After a line boundary, the lines of the rest follow those before it.
pub proof fn lemma_body_lines_append(a: Seq<u8>, b: Seq<u8>)
    requires
        frame(a).1 == Seq::<u8>::empty(),
    ensures
        body_lines(a + b) == frame(a).0 + body_lines(b),
{
    lemma_scan_append(Seq::empty(), Seq::empty(), a, b);
    lemma_scan_keeps_lines(frame(a).0, Seq::empty(), b);
    assert(frame(a).0 + frame(b).0 + tail_lines(frame(b).1) =~= frame(a).0 + (frame(b).0 + tail_lines(frame(b).1)));
}

/// A line and its newline, then the rest: the line (unless blank), then the
/// lines of the rest.
pub proof fn lemma_line_then_rest(line: Seq<u8>, rest: Seq<u8>)
    requires
        forall|i: int| 0 <= i < line.len() ==> line[i] != NEWLINE,
    ensures
        body_lines(line + seq![NEWLINE] + rest) == tail_lines(line) + body_lines(rest),
{
    let nl: Seq<u8> = seq![NEWLINE];
    lemma_scan_no_newline(Seq::empty(), Seq::empty(), line);
    assert(Seq::<u8>::empty() + line =~= line);
    lemma_scan_append(Seq::empty(), Seq::empty(), line, nl);
    lemma_scan_newline(Seq::empty(), line);
    assert(Seq::<Seq<u8>>::empty().push(line) =~= seq![line]);
    assert(frame(line + nl).0 =~= tail_lines(line));
    lemma_body_lines_append(line + nl, rest);
}

/// Feeding chunks one after another, starting from any held-back bytes, yields
/// the same lines and the same tail as reading their concatenation at once.
pub proof fn lemma_feed_is_scan(pending: Seq<u8>, chunks: Seq<Seq<u8>>)
    ensures
        feed(pending, chunks) == scan(Seq::empty(), pending, chunks.flatten()),
    decreases chunks.len(),
{
    if chunks.len() > 0 {
        let first = scan(Seq::empty(), pending, chunks[0]);
        let rest = chunks.drop_first();
        lemma_feed_is_scan(first.1, rest);
        lemma_scan_append(Seq::empty(), pending, chunks[0], rest.flatten());
        lemma_scan_keeps_lines(first.0, first.1, rest.flatten());
    }
}

/// Chunk boundaries are invisible: however a stream is cut into chunks (one
/// byte each, or all in one), a decoder that starts with nothing held back
/// hands out the same lines, in the same order, and holds back the same
/// unterminated tail, as when the whole stream is read at once.
pub proof fn chunk_boundaries_are_invisible(chunks: Seq<Seq<u8>>)
    ensures
        feed(Seq::empty(), chunks) == frame(chunks.flatten()),
{
    lemma_feed_is_scan(Seq::empty(), chunks);
}

/// A stream that breaks off in the middle of a line completes the same lines
/// as the stream before the fragment: the fragment is only held back.
pub proof fn trailing_fragment_is_dropped(s: Seq<u8>, fragment: Seq<u8>)
    requires
        forall|i: int| 0 <= i < fragment.len() ==> fragment[i] != NEWLINE,
    ensures
        frame(s + fragment).0 == frame(s).0,
{
    lemma_scan_append(Seq::empty(), Seq::empty(), s, fragment);
    lemma_scan_no_newline(frame(s).0, frame(s).1, fragment);
}

/// Whether `line` holds nothing but whitespace.
pub fn is_blank_line(line: &Vec<u8>) -> (r: bool)
    ensures
        r == is_blank(line@),
{
    let mut i: usize = 0;
    while i < line.len()
        invariant
            i <= line.len(),
            forall|j: int| 0 <= j < i ==> is_space(#[trigger] line@[j]),
        decreases line.len() - i,
    {
        let b = line[i];
        if !(b == 32 || b == 9 || b == 10 || b == 13) {
            return false;
        }
        i += 1;
    }
    true
}

} // verus!
