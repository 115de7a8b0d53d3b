//! What reads add up to when the bytes handed to them are those of one
//! unchanging source.

use crate::encoder::EncoderView;
use crate::encoding::{encoded_len, lemma_window, standard_base64};
use vstd::prelude::*;

verus! {

/// The bytes that a source holding `raw` hands over when asked at `pos` and
/// willing to give `got` bytes: those from `pos` on, as far as they exist.
pub open spec fn fetched(raw: Seq<u8>, pos: nat, got: nat) -> Seq<u8> {
    let start = if pos <= raw.len() { pos } else { raw.len() };
    let end = if pos + got <= raw.len() { pos + got } else { raw.len() };
    raw.subrange(start as int, end as int)
}

/// The view of a source holding `raw`, with its cursor at `cursor`.
pub open spec fn view_of(raw: Seq<u8>, cursor: nat) -> EncoderView {
    EncoderView { source_len: raw.len(), cursor }
}

/// The text of the whole source without its first `cursor` bytes; nothing
/// where the text is shorter than that.
pub open spec fn text_from(raw: Seq<u8>, cursor: nat) -> Seq<u8> {
    let text = standard_base64(raw);
    if cursor <= text.len() {
        text.skip(cursor as int)
    } else {
        Seq::empty()
    }
}

/// One read as its caller and the source shape it: the source is willing to
/// give `got` bytes, the caller has room for `want` bytes of text.
pub struct Request {
    pub got: nat,
    pub want: nat,
}

/// The text that one read hands out at `cursor`.
pub open spec fn read_at(raw: Seq<u8>, cursor: nat, request: Request) -> Seq<u8> {
    let view = view_of(raw, cursor);
    view.emitted(fetched(raw, view.source_pos(), request.got), request.want)
}

/// Whether the source gives a read at `cursor` enough to go on: a whole
/// group, or all that it has left.
pub open spec fn gives_enough(raw: Seq<u8>, cursor: nat, request: Request) -> bool {
    request.got >= 3 || request.got >= view_of(raw, cursor).room()
}

/// The text that a run of reads hands out, one after the other, each
/// starting where the one before left the cursor.
pub open spec fn replay(raw: Seq<u8>, cursor: nat, requests: Seq<Request>) -> Seq<u8>
    decreases requests.len(),
{
    if requests.len() == 0 {
        Seq::empty()
    } else {
        let first = read_at(raw, cursor, requests[0]);
        first + replay(raw, cursor + first.len(), requests.skip(1))
    }
}

/// How much a read hands out: what was asked for, or what the bytes it
/// encodes give from the cursor on, whichever is less.
pub proof fn lemma_emitted_len(view: EncoderView, chunk: Seq<u8>, want: nat)
    ensures
        view.emitted(chunk, want).len() == if encoded_len(view.usable(chunk.len()))
            <= view.skip() {
            0
        } else if want <= encoded_len(view.usable(chunk.len())) - view.skip() {
            want as int
        } else {
            encoded_len(view.usable(chunk.len())) - view.skip()
        },
{
}

/// At or past the end of the text a read hands out nothing, whatever bytes
/// it is given.
pub proof fn lemma_nothing_past_end(view: EncoderView, chunk: Seq<u8>, want: nat)
    requires
        view.cursor >= view.encoded_len(),
    ensures
        view.emitted(chunk, want).len() == 0,
{
}

/// Seeking to a position and reading there gives what reading from the start
/// gives once the bytes before that position are thrown away.
pub proof fn lemma_read_matches_text(raw: Seq<u8>, cursor: nat, request: Request)
    ensures
        read_at(raw, cursor, request).len() <= text_from(raw, cursor).len(),
        read_at(raw, cursor, request) == text_from(raw, cursor).take(
            read_at(raw, cursor, request).len() as int,
        ),
{
    let view = view_of(raw, cursor);
    let chunk = fetched(raw, view.source_pos(), request.got);
    let usable = view.usable(chunk.len());
    let q = cursor / 4;
    let out = read_at(raw, cursor, request);
    if view.source_pos() < raw.len() {
        assert(chunk.take(usable as int) =~= raw.subrange(3 * q as int, 3 * q + usable as int));
        lemma_window(raw, q, usable);
    }
    assert(out =~= text_from(raw, cursor).take(out.len() as int));
}

/// A read hands out text whenever there is room for some, the cursor is
/// before the end of the text, and the source gives enough.
pub proof fn lemma_read_makes_progress(raw: Seq<u8>, cursor: nat, request: Request)
    requires
        request.want > 0,
        cursor < encoded_len(raw.len()),
        gives_enough(raw, cursor, request),
    ensures
        read_at(raw, cursor, request).len() > 0,
{
    let view = view_of(raw, cursor);
    let chunk = fetched(raw, view.source_pos(), request.got);
    lemma_emitted_len(view, chunk, request.want);
}

/// Reads of any sizes, one after the other, hand out the text of the source
/// from the first cursor on, with nothing left out and nothing twice.
pub proof fn lemma_reads_add_up(raw: Seq<u8>, cursor: nat, requests: Seq<Request>)
    ensures
        replay(raw, cursor, requests).len() <= text_from(raw, cursor).len(),
        replay(raw, cursor, requests) == text_from(raw, cursor).take(
            replay(raw, cursor, requests).len() as int,
        ),
    decreases requests.len(),
{
    let all = replay(raw, cursor, requests);
    if requests.len() > 0 {
        let first = read_at(raw, cursor, requests[0]);
        lemma_read_matches_text(raw, cursor, requests[0]);
        lemma_reads_add_up(raw, cursor + first.len(), requests.skip(1));
    }
    assert(all =~= text_from(raw, cursor).take(all.len() as int));
}

/// A run of reads with one more read at its end hands out what the run
/// hands out, and then what the last read hands out where the run left the
/// cursor.
pub proof fn lemma_replay_one_more(
    raw: Seq<u8>,
    cursor: nat,
    requests: Seq<Request>,
    last: Request,
)
    ensures
        replay(raw, cursor, requests.push(last)) == replay(raw, cursor, requests) + read_at(
            raw,
            cursor + replay(raw, cursor, requests).len(),
            last,
        ),
    decreases requests.len(),
{
    let longer = requests.push(last);
    if requests.len() == 0 {
        reveal_with_fuel(replay, 2);
        assert(longer.skip(1) =~= Seq::<Request>::empty());
        assert(replay(raw, cursor, longer) =~= read_at(raw, cursor, last));
    } else {
        let first = read_at(raw, cursor, requests[0]);
        assert(longer.skip(1) =~= requests.skip(1).push(last));
        lemma_replay_one_more(raw, cursor + first.len(), requests.skip(1), last);
        assert(replay(raw, cursor, longer) =~= replay(raw, cursor, requests) + read_at(
            raw,
            cursor + replay(raw, cursor, requests).len(),
            last,
        ));
    }
}

/// Reads from the start that reach the end of the text hand out, put
/// together, the text of the whole source.
pub proof fn lemma_reads_to_end_give_text(raw: Seq<u8>, requests: Seq<Request>)
    requires
        replay(raw, 0, requests).len() == encoded_len(raw.len()),
    ensures
        replay(raw, 0, requests) == standard_base64(raw),
{
    lemma_reads_add_up(raw, 0, requests);
    assert(replay(raw, 0, requests) =~= standard_base64(raw));
}

/// Reading from the start until a read comes back empty collects the text
/// of the whole source: if, after a run of reads, one more read that has
/// room for text and is given enough hands out nothing, the run has handed
/// out all of the text.
pub proof fn lemma_reads_until_empty_give_text(
    raw: Seq<u8>,
    requests: Seq<Request>,
    last: Request,
)
    requires
        last.want > 0,
        gives_enough(raw, replay(raw, 0, requests).len(), last),
        read_at(raw, replay(raw, 0, requests).len(), last).len() == 0,
    ensures
        replay(raw, 0, requests) == standard_base64(raw),
        replay(raw, 0, requests.push(last)) == standard_base64(raw),
{
    let cursor = replay(raw, 0, requests).len();
    lemma_reads_add_up(raw, 0, requests);
    if cursor < encoded_len(raw.len()) {
        lemma_read_makes_progress(raw, cursor, last);
    }
    lemma_reads_to_end_give_text(raw, requests);
    lemma_replay_one_more(raw, 0, requests, last);
    assert(replay(raw, 0, requests.push(last)) =~= standard_base64(raw));
}

} // verus!
