//! The decoding state of one streaming request.
//!
//! A `DecodeState` takes the response body chunk by chunk and hands out the
//! non-blank lines that each chunk completes. The caller parses each line and
//! passes the outcome back, `None` for a line that is not a record; the state
//! appends each record's token to the accumulated text, reports the tokens to
//! show, and stops at the terminal record. At the end of the body the bytes
//! still held back are flushed as a last line.

use crate::framing::{
    body_lines, chunk_boundaries_are_invisible, ends_line, feed, frame, is_blank, is_blank_line,
    lemma_body_lines_append, lemma_boundary_holds_nothing, lemma_line_then_rest, lines_view, scan,
    tail_lines, NEWLINE,
};
use crate::transport::{check_status, is_success, DecodeError};
use vstd::prelude::*;

verus! {

/// One record of the stream: an increment of text, and whether it is the last.
pub struct StreamRecord {
    pub token: String,
    pub done: bool,
}

/// A record as the model sees it.
pub type RecordModel = (Seq<char>, bool);

/// What the model sees of a parse outcome.
pub open spec fn record_model(r: Option<StreamRecord>) -> Option<RecordModel> {
    match r {
        Some(rec) => Some((rec.token@, rec.done)),
        None => None,
    }
}

/// The state's contents: the bytes held back from the last chunk, the text so
/// far, and whether the terminal record has arrived.
pub struct DecodeModel {
    pub pending: Seq<u8>,
    pub text: Seq<char>,
    pub finished: bool,
}

/// The model of taking one parse outcome: the next state, and the token to
/// report, if any. Nothing changes once the stream is finished, nor for a line
/// that was not a record; a record's token is appended, and reported unless
/// the record is the terminal one.
pub open spec fn accept_model(m: DecodeModel, rec: Option<RecordModel>) -> (DecodeModel, Option<Seq<char>>) {
    if m.finished {
        (m, None)
    } else {
        match rec {
            None => (m, None),
            Some((token, done)) => (
                DecodeModel { pending: m.pending, text: m.text + token, finished: done },
                if done {
                    None
                } else {
                    Some(token)
                },
            ),
        }
    }
}

/// Taking the parse outcomes `recs` one after another from state `m`: the
/// final state, and the tokens reported, in order.
pub open spec fn run_records(m: DecodeModel, recs: Seq<Option<RecordModel>>) -> (DecodeModel, Seq<Seq<char>>)
    decreases recs.len(),
{
    if recs.len() == 0 {
        (m, Seq::empty())
    } else {
        let (next, event) = accept_model(m, recs[0]);
        let (last, events) = run_records(next, recs.drop_first());
        let reported = match event {
            Some(t) => seq![t] + events,
            None => events,
        };
        (last, reported)
    }
}

/// The concatenation of the tokens of the records among `recs`, in order, up
/// to and including the first terminal one; lines that were no record count
/// for nothing.
pub open spec fn text_through_done(recs: Seq<Option<RecordModel>>) -> Seq<char>
    decreases recs.len(),
{
    if recs.len() == 0 {
        Seq::empty()
    } else {
        match recs[0] {
            None => text_through_done(recs.drop_first()),
            Some((token, done)) => if done {
                token
            } else {
                token + text_through_done(recs.drop_first())
            },
        }
    }
}

/// The tokens of the non-terminal records among `recs` that come before the
/// first terminal one, in order.
pub open spec fn events_before_done(recs: Seq<Option<RecordModel>>) -> Seq<Seq<char>>
    decreases recs.len(),
{
    if recs.len() == 0 {
        Seq::empty()
    } else {
        match recs[0] {
            None => events_before_done(recs.drop_first()),
            Some((token, done)) => if done {
                Seq::empty()
            } else {
                seq![token] + events_before_done(recs.drop_first())
            },
        }
    }
}

/// Taking outcomes from a finished state changes nothing; from an unfinished
/// one it appends the text through the first terminal record and reports the
/// tokens before it. The held-back bytes are never touched.
pub proof fn lemma_run_records(m: DecodeModel, recs: Seq<Option<RecordModel>>)
    ensures
        m.finished ==> run_records(m, recs) == (m, Seq::<Seq<char>>::empty()),
        !m.finished ==> run_records(m, recs).0.text == m.text + text_through_done(recs),
        !m.finished ==> run_records(m, recs).1 == events_before_done(recs),
        run_records(m, recs).0.pending == m.pending,
    decreases recs.len(),
{
    if recs.len() == 0 {
        assert(m.text + Seq::<char>::empty() =~= m.text);
    } else {
        let rest = recs.drop_first();
        let next = accept_model(m, recs[0]).0;
        lemma_run_records(next, rest);
        if !m.finished {
            match recs[0] {
                None => {},
                Some((token, done)) => {
                    if done {
                        assert(run_records(m, recs).1 =~= Seq::<Seq<char>>::empty());
                    } else {
                        assert(m.text + token + text_through_done(rest) =~= m.text + (token + text_through_done(rest)));
                    }
                },
            }
        }
    }
}

/// Whether some record among `recs` is terminal.
pub open spec fn has_done(recs: Seq<Option<RecordModel>>) -> bool
    decreases recs.len(),
{
    recs.len() > 0 && (recs[0] matches Some((_, true)) || has_done(recs.drop_first()))
}

/// A run ends finished exactly when it started so, or some record was terminal.
pub proof fn lemma_finished_iff_done(m: DecodeModel, recs: Seq<Option<RecordModel>>)
    ensures
        run_records(m, recs).0.finished <==> (m.finished || has_done(recs)),
    decreases recs.len(),
{
    if recs.len() > 0 {
        lemma_finished_iff_done(accept_model(m, recs[0]).0, recs.drop_first());
    }
}

/// The text, the tokens and the terminal flag of two runs of outcomes one
/// after the other.
pub proof fn lemma_records_append(a: Seq<Option<RecordModel>>, b: Seq<Option<RecordModel>>)
    ensures
        has_done(a + b) == (has_done(a) || has_done(b)),
        text_through_done(a + b) == if has_done(a) {
            text_through_done(a)
        } else {
            text_through_done(a) + text_through_done(b)
        },
        events_before_done(a + b) == if has_done(a) {
            events_before_done(a)
        } else {
            events_before_done(a) + events_before_done(b)
        },
    decreases a.len(),
{
    if a.len() == 0 {
        assert(a + b =~= b);
        assert(Seq::<char>::empty() + text_through_done(b) =~= text_through_done(b));
        assert(Seq::<Seq<char>>::empty() + events_before_done(b) =~= events_before_done(b));
    } else {
        let rest = a.drop_first();
        assert((a + b)[0] == a[0]);
        assert((a + b).drop_first() =~= rest + b);
        lemma_records_append(rest, b);
        match a[0] {
            None => {},
            Some((token, done)) => {
                if !done && !has_done(rest) {
                    let tb = text_through_done(b);
                    let eb = events_before_done(b);
                    assert(token + (text_through_done(rest) + tb) =~= token + text_through_done(rest) + tb);
                    assert(seq![token] + (events_before_done(rest) + eb)
                        =~= seq![token] + events_before_done(rest) + eb);
                }
            },
        }
    }
}

/// An outcome that is no record, wherever it stands among the others, changes
/// neither the text nor the tokens reported.
pub proof fn lemma_none_is_ignored(before: Seq<Option<RecordModel>>, after: Seq<Option<RecordModel>>)
    ensures
        text_through_done(before + seq![None] + after) == text_through_done(before + after),
        events_before_done(before + seq![None] + after) == events_before_done(before + after),
    decreases before.len(),
{
    let with = before + seq![None] + after;
    let without = before + after;
    if before.len() == 0 {
        assert(with[0] is None);
        assert(with.drop_first() =~= after);
        assert(without =~= after);
    } else {
        lemma_none_is_ignored(before.drop_first(), after);
        assert(with[0] == before[0]);
        assert(without[0] == before[0]);
        assert(with.drop_first() =~= before.drop_first() + seq![None] + after);
        assert(without.drop_first() =~= before.drop_first() + after);
    }
}

/// The outcomes after a terminal record change neither the text nor the
/// tokens reported.
pub proof fn lemma_cut_after_done(before: Seq<Option<RecordModel>>, token: Seq<char>, after: Seq<Option<RecordModel>>)
    ensures
        text_through_done(before + seq![Some((token, true))] + after)
            == text_through_done(before + seq![Some((token, true))]),
        events_before_done(before + seq![Some((token, true))] + after)
            == events_before_done(before + seq![Some((token, true))]),
    decreases before.len(),
{
    let last: Option<RecordModel> = Some((token, true));
    let with = before + seq![last] + after;
    let cut = before + seq![last];
    if before.len() == 0 {
        assert(with[0] == last);
        assert(cut[0] == last);
    } else {
        lemma_cut_after_done(before.drop_first(), token, after);
        assert(with[0] == before[0]);
        assert(cut[0] == before[0]);
        assert(with.drop_first() =~= before.drop_first() + seq![last] + after);
        assert(cut.drop_first() =~= before.drop_first() + seq![last]);
    }
}

/// The parse outcomes of `lines`, under the parser `parse`.
pub open spec fn parse_lines(lines: Seq<Seq<u8>>, parse: spec_fn(Seq<u8>) -> Option<RecordModel>) -> Seq<Option<RecordModel>> {
    lines.map_values(parse)
}

/// A request driven chunk by chunk, as `on_event` (or `push_chunk`) and
/// `accept` do it: a
/// chunk that arrives once the state is finished is ignored; otherwise the
/// lines it completes are parsed by `parse` and taken in order. The final
/// state, and the tokens reported.
pub open spec fn decode_chunks(
    m: DecodeModel,
    chunks: Seq<Seq<u8>>,
    parse: spec_fn(Seq<u8>) -> Option<RecordModel>,
) -> (DecodeModel, Seq<Seq<char>>)
    decreases chunks.len(),
{
    if chunks.len() == 0 {
        (m, Seq::empty())
    } else if m.finished {
        decode_chunks(m, chunks.drop_first(), parse)
    } else {
        let framed = scan(Seq::empty(), m.pending, chunks[0]);
        let (next, first) = run_records(DecodeModel { pending: framed.1, ..m }, parse_lines(framed.0, parse));
        let (last, rest) = decode_chunks(next, chunks.drop_first(), parse);
        (last, first + rest)
    }
}

/// A finished request ignores every further chunk.
pub proof fn lemma_decode_finished(m: DecodeModel, chunks: Seq<Seq<u8>>, parse: spec_fn(Seq<u8>) -> Option<RecordModel>)
    requires
        m.finished,
    ensures
        decode_chunks(m, chunks, parse) == (m, Seq::<Seq<char>>::empty()),
    decreases chunks.len(),
{
    if chunks.len() > 0 {
        lemma_decode_finished(m, chunks.drop_first(), parse);
    }
}

/// An unfinished request driven chunk by chunk ends as the outcomes of all the
/// lines that the chunks complete, taken at once.
pub proof fn lemma_decode_chunks(m: DecodeModel, chunks: Seq<Seq<u8>>, parse: spec_fn(Seq<u8>) -> Option<RecordModel>)
    requires
        !m.finished,
    ensures
        ({
            let recs = parse_lines(feed(m.pending, chunks).0, parse);
            let r = decode_chunks(m, chunks, parse);
            &&& r.0.text == m.text + text_through_done(recs)
            &&& r.0.finished == has_done(recs)
            &&& r.1 == events_before_done(recs)
            &&& !r.0.finished ==> r.0.pending == feed(m.pending, chunks).1
        }),
    decreases chunks.len(),
{
    if chunks.len() == 0 {
        assert(m.text + Seq::<char>::empty() =~= m.text);
        assert(parse_lines(Seq::empty(), parse) =~= Seq::<Option<RecordModel>>::empty());
    } else {
        let framed = scan(Seq::empty(), m.pending, chunks[0]);
        let start = DecodeModel { pending: framed.1, ..m };
        let first = parse_lines(framed.0, parse);
        let next = run_records(start, first).0;
        let tail = chunks.drop_first();
        lemma_run_records(start, first);
        lemma_finished_iff_done(start, first);
        let later = parse_lines(feed(framed.1, tail).0, parse);
        assert(parse_lines(feed(m.pending, chunks).0, parse) =~= first + later);
        lemma_records_append(first, later);
        if next.finished {
            lemma_decode_finished(next, tail, parse);
            assert(run_records(start, first).1 + Seq::<Seq<char>>::empty() =~= run_records(start, first).1);
        } else {
            lemma_decode_chunks(next, tail, parse);
            assert(m.text + text_through_done(first) + text_through_done(later)
                =~= m.text + (text_through_done(first) + text_through_done(later)));
        }
    }
}

/// The end of the body, as `flush` and `accept` take it: unless the request
/// is finished, the tail held back is parsed as a last line when it is not
/// blank. The final state, and the tokens reported.
pub open spec fn end_model(m: DecodeModel, parse: spec_fn(Seq<u8>) -> Option<RecordModel>) -> (DecodeModel, Seq<Seq<char>>) {
    let last = if m.finished {
        Seq::empty()
    } else {
        parse_lines(tail_lines(m.pending), parse)
    };
    run_records(DecodeModel { pending: Seq::empty(), ..m }, last)
}

/// A whole request: the chunks of the body in order, then its end.
pub open spec fn decode_body(
    m: DecodeModel,
    chunks: Seq<Seq<u8>>,
    parse: spec_fn(Seq<u8>) -> Option<RecordModel>,
) -> (DecodeModel, Seq<Seq<char>>) {
    let (driven, first) = decode_chunks(m, chunks, parse);
    let (last, rest) = end_model(driven, parse);
    (last, first + rest)
}

/// The state at the start of a request.
pub open spec fn is_fresh(m: DecodeModel) -> bool {
    m == (DecodeModel { pending: Seq::empty(), text: Seq::empty(), finished: false })
}

/// What a caller sees of a finished request: the text, whether the terminal
/// record arrived, and the tokens reported in order.
pub open spec fn outcome(r: (DecodeModel, Seq<Seq<char>>)) -> (Seq<char>, bool, Seq<Seq<char>>) {
    (r.0.text, r.0.finished, r.1)
}

/// The text that a request accumulates is the in-order concatenation of the
/// tokens of every record of its body, up to and including the first terminal
/// one, or up to the end where none is terminal; an unterminated last line is
/// flushed at the end and counts as a line. The tokens reported are those of
/// the records before the terminal one, in order.
pub proof fn accumulated_text_is_concatenation(
    start: DecodeModel,
    chunks: Seq<Seq<u8>>,
    parse: spec_fn(Seq<u8>) -> Option<RecordModel>,
)
    requires
        is_fresh(start),
    ensures
        ({
            let recs = parse_lines(body_lines(chunks.flatten()), parse);
            let r = decode_body(start, chunks, parse);
            &&& r.0.text == text_through_done(recs)
            &&& r.0.finished == has_done(recs)
            &&& r.1 == events_before_done(recs)
        }),
{
    let body = chunks.flatten();
    chunk_boundaries_are_invisible(chunks);
    lemma_decode_chunks(start, chunks, parse);
    let (driven, first) = decode_chunks(start, chunks, parse);
    let complete = parse_lines(frame(body).0, parse);
    let last = parse_lines(tail_lines(frame(body).1), parse);
    assert(parse_lines(body_lines(body), parse) =~= complete + last);
    assert(start.text + text_through_done(complete) =~= text_through_done(complete));
    lemma_records_append(complete, last);
    let ended = DecodeModel { pending: Seq::empty(), ..driven };
    if driven.finished {
        assert(first + Seq::<Seq<char>>::empty() =~= first);
    } else {
        lemma_run_records(ended, last);
        lemma_finished_iff_done(ended, last);
    }
}

/// Chunk boundaries are invisible to the outcome: however the body is cut
/// into chunks (one byte each, or any other way), the request ends with the
/// same text, the same terminal flag and the same tokens reported, in the same
/// order, as when the whole body comes in one chunk.
pub proof fn outcome_is_independent_of_chunking(
    start: DecodeModel,
    chunks: Seq<Seq<u8>>,
    parse: spec_fn(Seq<u8>) -> Option<RecordModel>,
)
    requires
        is_fresh(start),
    ensures
        outcome(decode_body(start, chunks, parse)) == outcome(decode_body(start, seq![chunks.flatten()], parse)),
{
    accumulated_text_is_concatenation(start, chunks, parse);
    accumulated_text_is_concatenation(start, seq![chunks.flatten()], parse);
    seq![chunks.flatten()].lemma_flatten_singleton();
}

/// A body that breaks off in the middle of a line that does not parse ends as
/// its complete lines alone: the unterminated fragment adds nothing.
pub proof fn unparsable_tail_adds_nothing(
    start: DecodeModel,
    chunks: Seq<Seq<u8>>,
    parse: spec_fn(Seq<u8>) -> Option<RecordModel>,
)
    requires
        is_fresh(start),
        parse(frame(chunks.flatten()).1) is None,
    ensures
        ({
            let recs = parse_lines(frame(chunks.flatten()).0, parse);
            let r = decode_body(start, chunks, parse);
            &&& r.0.text == text_through_done(recs)
            &&& r.0.finished == has_done(recs)
            &&& r.1 == events_before_done(recs)
        }),
{
    let body = chunks.flatten();
    accumulated_text_is_concatenation(start, chunks, parse);
    let complete = parse_lines(frame(body).0, parse);
    let last = parse_lines(tail_lines(frame(body).1), parse);
    assert(parse_lines(body_lines(body), parse) =~= complete + last);
    lemma_records_append(complete, last);
    if last.len() > 0 {
        assert(last[0] is None);
        assert(last.drop_first() =~= Seq::<Option<RecordModel>>::empty());
        assert(text_through_done(last) == text_through_done(last.drop_first()));
        assert(events_before_done(last) == events_before_done(last.drop_first()));
        assert(!has_done(last.drop_first()));
    } else {
        assert(last =~= Seq::<Option<RecordModel>>::empty());
    }
    assert(text_through_done(complete) + Seq::<char>::empty() =~= text_through_done(complete));
    assert(events_before_done(complete) + Seq::<Seq<char>>::empty() =~= events_before_done(complete));
}

/// A line of the body that is not a record, between any complete lines and
/// whatever follows, leaves the outcome as it is without that line.
pub proof fn malformed_line_is_ignored(
    start: DecodeModel,
    before: Seq<u8>,
    line: Seq<u8>,
    after: Seq<u8>,
    parse: spec_fn(Seq<u8>) -> Option<RecordModel>,
)
    requires
        is_fresh(start),
        ends_line(before),
        forall|i: int| 0 <= i < line.len() ==> line[i] != NEWLINE,
        parse(line) is None,
    ensures
        outcome(decode_body(start, seq![before + line + seq![NEWLINE] + after], parse))
            == outcome(decode_body(start, seq![before + after], parse)),
{
    let with = before + line + seq![NEWLINE] + after;
    let without = before + after;
    accumulated_text_is_concatenation(start, seq![with], parse);
    accumulated_text_is_concatenation(start, seq![without], parse);
    seq![with].lemma_flatten_singleton();
    seq![without].lemma_flatten_singleton();
    lemma_boundary_holds_nothing(before);
    assert(with =~= before + (line + seq![NEWLINE] + after));
    lemma_body_lines_append(before, line + seq![NEWLINE] + after);
    lemma_line_then_rest(line, after);
    lemma_body_lines_append(before, after);
    let head = parse_lines(frame(before).0, parse);
    let mid = parse_lines(tail_lines(line), parse);
    let tail = parse_lines(body_lines(after), parse);
    assert(parse_lines(body_lines(with), parse) =~= head + mid + tail);
    assert(parse_lines(body_lines(without), parse) =~= head + tail);
    if !is_blank(line) {
        let none: Seq<Option<RecordModel>> = seq![None];
        assert(mid =~= none);
        lemma_none_is_ignored(head, tail);
        lemma_records_append(head + none, tail);
        lemma_records_append(head, none);
        lemma_records_append(head, tail);
        assert(!has_done(none.drop_first()));
    } else {
        assert(head + mid =~= head);
    }
}

/// Whatever follows a terminal record in the body, in the same chunk or in
/// later ones, is ignored entirely: the outcome is that of the body cut right
/// after the terminal record's line.
pub proof fn nothing_after_done(
    start: DecodeModel,
    before: Seq<u8>,
    line: Seq<u8>,
    after: Seq<u8>,
    parse: spec_fn(Seq<u8>) -> Option<RecordModel>,
)
    requires
        is_fresh(start),
        ends_line(before),
        forall|i: int| 0 <= i < line.len() ==> line[i] != NEWLINE,
        !is_blank(line),
        parse(line) matches Some((_, true)),
    ensures
        outcome(decode_body(start, seq![before + line + seq![NEWLINE] + after], parse))
            == outcome(decode_body(start, seq![before + line + seq![NEWLINE]], parse)),
{
    let with = before + line + seq![NEWLINE] + after;
    let cut = before + line + seq![NEWLINE];
    let empty = Seq::<u8>::empty();
    accumulated_text_is_concatenation(start, seq![with], parse);
    accumulated_text_is_concatenation(start, seq![cut], parse);
    seq![with].lemma_flatten_singleton();
    seq![cut].lemma_flatten_singleton();
    lemma_boundary_holds_nothing(before);
    assert(with =~= before + (line + seq![NEWLINE] + after));
    assert(cut =~= before + (line + seq![NEWLINE] + empty));
    lemma_body_lines_append(before, line + seq![NEWLINE] + after);
    lemma_body_lines_append(before, line + seq![NEWLINE] + empty);
    lemma_line_then_rest(line, after);
    lemma_line_then_rest(line, empty);
    assert(body_lines(empty) =~= Seq::<Seq<u8>>::empty());
    let token = match parse(line) {
        Some((t, _)) => t,
        None => Seq::empty(),
    };
    let done: Seq<Option<RecordModel>> = seq![Some((token, true))];
    let head = parse_lines(frame(before).0, parse);
    let tail = parse_lines(body_lines(after), parse);
    assert(parse_lines(body_lines(with), parse) =~= head + done + tail);
    assert(parse_lines(body_lines(cut), parse) =~= head + done);
    lemma_cut_after_done(head, token, tail);
    lemma_records_append(head + done, tail);
    lemma_records_append(head, done);
    assert(has_done(done));
}

/// What happens next on the response body.
pub enum BodyEvent {
    /// A chunk of the body arrived.
    Chunk(Vec<u8>),
    /// Reading the body failed; the text says why.
    ReadFailed(String),
    /// The body ended.
    End,
}

/// What the caller does after an event.
pub enum Next {
    /// Parse these lines in order and `accept` each outcome, then read on.
    Parse(Vec<Vec<u8>>),
    /// Parse these lines in order and `accept` each outcome; the body is over.
    Last(Vec<Vec<u8>>),
    /// The terminal record has arrived: read no further.
    Stop,
    /// The request failed: no text is returned.
    Fail(DecodeError),
}

/// The state of a request in flight.
pub struct DecodeState {
    pending: Vec<u8>,
    text: String,
    finished: bool,
}

impl View for DecodeState {
    type V = DecodeModel;

    closed spec fn view(&self) -> DecodeModel {
        DecodeModel { pending: self.pending@, text: self.text@, finished: self.finished }
    }
}

impl DecodeState {
    /// The state at the start of a request: nothing held back, no text.
    pub fn new() -> (r: DecodeState)
        ensures
            r@.pending == Seq::<u8>::empty(),
            r@.text == Seq::<char>::empty(),
            !r@.finished,
    {
        DecodeState { pending: Vec::new(), text: String::new(), finished: false }
    }

    /// The state for a response with status `code`: a fresh state for a
    /// success status, else a transport failure that carries `status_text`.
    /// A refused response thus has no state to report any token through.
    pub fn open(code: u16, status_text: String) -> (r: Result<DecodeState, DecodeError>)
        ensures
            r is Ok <==> is_success(code),
            r matches Ok(st) ==> is_fresh(st@),
            r matches Err(DecodeError::TransportFailure(d)) ==> d@ == status_text@,
    {
        match check_status(code, status_text) {
            Ok(()) => Ok(DecodeState::new()),
            Err(e) => Err(e),
        }
    }

    /// Whether the terminal record has arrived.
    pub fn is_finished(&self) -> (r: bool)
        ensures
            r == self@.finished,
    {
        self.finished
    }

    /// The text accumulated so far.
    pub fn text(&self) -> (r: &String)
        ensures
            r@ == self@.text,
    {
        &self.text
    }

    /// Takes the next chunk of the body: prepends the bytes held back, returns
    /// the non-blank lines that are now complete, in order, and holds back what
    /// follows the last newline. Once finished, a chunk is ignored entirely.
    pub fn push_chunk(&mut self, chunk: &[u8]) -> (lines: Vec<Vec<u8>>)
        ensures
            old(self)@.finished ==> lines@.len() == 0 && final(self)@ == old(self)@,
            !old(self)@.finished ==> lines_view(lines@) == scan(Seq::empty(), old(self)@.pending, chunk@).0,
            !old(self)@.finished ==> final(self)@ == (DecodeModel {
                pending: scan(Seq::empty(), old(self)@.pending, chunk@).1,
                ..old(self)@
            }),
    {
        let mut out: Vec<Vec<u8>> = Vec::new();
        if self.finished {
            return out;
        }
        let ghost start = self.pending@;
        let mut i: usize = 0;
        assert(lines_view(out@) =~= Seq::<Seq<u8>>::empty());
        assert(chunk@.skip(0) =~= chunk@);
        while i < chunk.len()
            invariant
                i <= chunk.len(),
                !self.finished,
                self.text@ == old(self).text@,
                scan(Seq::empty(), start, chunk@) == scan(lines_view(out@), self.pending@, chunk@.skip(i as int)),
            decreases chunk.len() - i,
        {
            let b = chunk[i];
            let ghost lines = lines_view(out@);
            let ghost cur = self.pending@;
            assert(chunk@.skip(i as int)[0] == b);
            assert(chunk@.skip(i as int).drop_first() =~= chunk@.skip(i + 1));
            if b == NEWLINE {
                let mut line: Vec<u8> = Vec::new();
                std::mem::swap(&mut line, &mut self.pending);
                if !is_blank_line(&line) {
                    out.push(line);
                    assert(lines_view(out@) =~= lines.push(cur));
                }
            } else {
                self.pending.push(b);
            }
            i += 1;
        }
        assert(chunk@.skip(i as int) =~= Seq::<u8>::empty());
        out
    }

    /// Takes the outcome of parsing one line, `None` for a line that is not a
    /// record, and returns the token to report, if any.
    pub fn accept(&mut self, rec: Option<StreamRecord>) -> (event: Option<String>)
        ensures
            (final(self)@, match event {
                Some(t) => Some(t@),
                None => None,
            }) == accept_model(old(self)@, record_model(rec)),
    {
        if self.finished {
            return None;
        }
        match rec {
            None => None,
            Some(r) => {
                self.text.append(r.token.as_str());
                self.finished = r.done;
                if r.done {
                    None
                } else {
                    Some(r.token)
                }
            },
        }
    }

    /// At the end of the body: hands out the bytes held back as a last line,
    /// unless the request is finished or they are blank, and holds nothing
    /// back any more.
    pub fn flush(&mut self) -> (line: Option<Vec<u8>>)
        ensures
            final(self)@ == (DecodeModel { pending: Seq::empty(), ..old(self)@ }),
            line matches Some(l) ==> l@ == old(self)@.pending,
            line is Some <==> (!old(self)@.finished && !is_blank(old(self)@.pending)),
    {
        let mut tail: Vec<u8> = Vec::new();
        std::mem::swap(&mut tail, &mut self.pending);
        if self.finished || is_blank_line(&tail) {
            None
        } else {
            Some(tail)
        }
    }

    /// Takes the next event on the body and says what to do. Once finished,
    /// every event gives `Stop`. A read failure fails the request. A chunk
    /// gives the lines it completes, as `push_chunk` does; the end of the body
    /// gives the tail flushed as a last line, as `flush` does.
    pub fn on_event(&mut self, ev: BodyEvent) -> (r: Next)
        ensures
            old(self)@.finished ==> r is Stop && final(self)@ == old(self)@,
            !old(self)@.finished ==> match ev {
                BodyEvent::Chunk(c) => r matches Next::Parse(lines)
                    && lines_view(lines@) == scan(Seq::empty(), old(self)@.pending, c@).0
                    && final(self)@ == (DecodeModel {
                        pending: scan(Seq::empty(), old(self)@.pending, c@).1,
                        ..old(self)@
                    }),
                BodyEvent::ReadFailed(d) => r matches Next::Fail(DecodeError::TransportFailure(e))
                    && e@ == d@ && final(self)@ == old(self)@,
                BodyEvent::End => r matches Next::Last(lines)
                    && lines_view(lines@) == tail_lines(old(self)@.pending)
                    && final(self)@ == (DecodeModel { pending: Seq::empty(), ..old(self)@ }),
            },
    {
        if self.finished {
            return Next::Stop;
        }
        match ev {
            BodyEvent::Chunk(c) => Next::Parse(self.push_chunk(c.as_slice())),
            BodyEvent::ReadFailed(d) => Next::Fail(DecodeError::TransportFailure(d)),
            BodyEvent::End => {
                let ghost tail = self@.pending;
                let mut lines: Vec<Vec<u8>> = Vec::new();
                match self.flush() {
                    Some(l) => {
                        lines.push(l);
                        assert(lines_view(lines@) =~= seq![tail]);
                    },
                    None => {
                        assert(lines_view(lines@) =~= Seq::<Seq<u8>>::empty());
                    },
                }
                Next::Last(lines)
            },
        }
    }

    /// Ends the request and returns the accumulated text. Bytes still held
    /// back are not decoded here: `flush` hands them out first.
    pub fn into_text(self) -> (r: String)
        ensures
            r@ == self@.text,
    {
        self.text
    }
}

} // verus!
