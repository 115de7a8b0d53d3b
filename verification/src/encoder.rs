//! The view itself: cached lengths and a cursor in encoded text.

use crate::encoding::{encode_standard, encoded_len, standard_base64};
use vstd::prelude::*;

verus! {

/// Most source bytes that one read looks at. A multiple of three, so that a
/// full chunk ends between two groups.
pub const CHUNK_SIZE: usize = 1023;

/// Where a seek counts from, in bytes of encoded text.
#[derive(Debug, Clone, Copy, PartialEq, Eq)]
pub enum SeekFrom {
    /// From the start of the text.
    Start(u64),
    /// From the end of the text, as last measured.
    End(i64),
    /// From the cursor.
    Current(i64),
}

/// A seek asked for a position before the start of the text, or one that no
/// `u64` holds.
#[derive(Debug, Clone, Copy, PartialEq, Eq)]
pub struct InvalidSeek;

impl InvalidSeek {
    /// The error in words.
    pub fn message(&self) -> (words: &'static str)
        ensures
            words@ == "invalid seek to a negative or overflowing position"@,
    {
        "invalid seek to a negative or overflowing position"
    }
}

/// What a view is, to its users: the length of its source, as last measured,
/// and the cursor in the encoded text.
pub struct EncoderView {
    pub source_len: nat,
    pub cursor: nat,
}

impl EncoderView {
    /// Length of the whole encoded text.
    pub open spec fn encoded_len(self) -> nat {
        encoded_len(self.source_len)
    }

    /// Where in the source the quartet under the cursor begins.
    pub open spec fn source_pos(self) -> nat {
        self.cursor / 4 * 3
    }

    /// How far into its quartet the cursor stands.
    pub open spec fn skip(self) -> nat {
        self.cursor % 4
    }

    /// Source bytes from `source_pos` to the end of the source.
    pub open spec fn room(self) -> nat {
        if self.source_pos() <= self.source_len {
            (self.source_len - self.source_pos()) as nat
        } else {
            0
        }
    }

    /// How many of `got` bytes fetched at `source_pos` a read encodes: no more
    /// than a chunk, none past the end of the source, and only whole groups
    /// unless they reach that end.
    pub open spec fn usable(self, got: nat) -> nat {
        let n = if got <= CHUNK_SIZE { got } else { CHUNK_SIZE as nat };
        if n >= self.room() {
            self.room()
        } else {
            (n - n % 3) as nat
        }
    }

    /// The text that a read hands out, given the bytes fetched at
    /// `source_pos` and room for `want` bytes of text.
    pub open spec fn emitted(self, chunk: Seq<u8>, want: nat) -> Seq<u8> {
        let text = standard_base64(chunk.take(self.usable(chunk.len()) as int));
        let take = if text.len() <= want + self.skip() { text.len() } else { want + self.skip() };
        if take <= self.skip() {
            Seq::empty()
        } else {
            text.subrange(self.skip() as int, take as int)
        }
    }

    /// The position that a seek asks for.
    pub open spec fn seek_target(self, style: SeekFrom) -> int {
        match style {
            SeekFrom::Start(n) => n as int,
            SeekFrom::End(n) => self.encoded_len() + n,
            SeekFrom::Current(n) => self.cursor + n,
        }
    }

    /// The same view with its cursor at `cursor`.
    pub open spec fn at(self, cursor: nat) -> EncoderView {
        EncoderView { source_len: self.source_len, cursor }
    }

    /// The cursor always splits into a whole number of quartets, which
    /// stand for the source up to `source_pos`, and the bytes to skip in the
    /// quartet after them.
    pub proof fn lemma_cursor_splits(self)
        ensures
            self.source_pos() % 3 == 0,
            self.skip() < 4,
            self.skip() == self.cursor - self.source_pos() / 3 * 4,
            self.source_pos() <= self.cursor,
    {
    }
}

/// A cursor over the standard base64 text of a source of known length.
#[derive(Debug)]
pub struct Encoder {
    source_len: usize,
    len: usize,
    pos: u64,
}

impl View for Encoder {
    type V = EncoderView;

    closed spec fn view(&self) -> EncoderView {
        EncoderView { source_len: self.source_len as nat, cursor: self.pos as nat }
    }
}

impl Encoder {
    #[verifier::type_invariant]
    spec fn len_is_cached(self) -> bool {
        self.len == encoded_len(self.source_len as nat)
    }

    /// A view of a source of `source_len` bytes, with its cursor at the start.
    pub fn new(source_len: usize) -> (encoder: Encoder)
        requires
            encoded_len(source_len as nat) <= usize::MAX,
        ensures
            encoder@ == (EncoderView { source_len: source_len as nat, cursor: 0 }),
    {
        let groups: usize = source_len / 3 + if source_len % 3 > 0 { 1 } else { 0 };
        Encoder { source_len, len: groups * 4, pos: 0 }
    }

    /// Takes a fresh measure of the source, puts the cursor back to the start
    /// and returns the length of the encoded text.
    pub fn len(&mut self, source_len: usize) -> (len: usize)
        requires
            encoded_len(source_len as nat) <= usize::MAX,
        ensures
            final(self)@ == (EncoderView { source_len: source_len as nat, cursor: 0 }),
            len == encoded_len(source_len as nat),
    {
        *self = Encoder::new(source_len);
        proof {
            use_type_invariant(&*self);
        }
        self.len
    }

    /// Whether the encoded text has any bytes. Mind the sense: `true` means
    /// that there is text, `false` that there is none.
    pub fn is_empty(&mut self) -> (has_text: bool)
        ensures
            has_text == (old(self)@.encoded_len() > 0),
            final(self)@ == old(self)@,
    {
        proof {
            use_type_invariant(&*self);
        }
        self.len > 0
    }

    /// Where to fetch the source bytes for the next read.
    pub fn source_pos(&self) -> (pos: u64)
        ensures
            pos == self@.source_pos(),
    {
        self.pos / 4 * 3
    }

    /// How many bytes of the quartet under the cursor the next read leaves
    /// out.
    pub fn skip(&self) -> (skip: usize)
        ensures
            skip == self@.skip(),
    {
        (self.pos % 4) as usize
    }

    /// How many of `got` bytes fetched at `source_pos` the next read encodes.
    fn usable(&self, got: usize) -> (n: usize)
        ensures
            n == self@.usable(got as nat),
            n <= got,
            n <= CHUNK_SIZE,
    {
        let start: u64 = self.source_pos();
        let end: u64 = self.source_len as u64;
        let room: u64 = if start <= end { end - start } else { 0 };
        let n: usize = if got <= CHUNK_SIZE { got } else { CHUNK_SIZE };
        if n as u64 >= room {
            room as usize
        } else {
            n - n % 3
        }
    }

    /// Hands out the text at the cursor and moves the cursor past it. `chunk`
    /// holds the bytes fetched from the source at `source_pos`; the text
    /// goes to the front of `dst`, as much of it as `chunk` gives and `dst`
    /// has room for, and the rest of `dst` stays as it was. Returns the
    /// number of bytes handed out. At or past the end of the text that is
    /// zero, whatever `chunk` holds.
    pub fn read(&mut self, chunk: &[u8], dst: &mut [u8]) -> (advance: usize)
        ensures
            advance == old(self)@.emitted(chunk@, old(dst)@.len()).len(),
            final(dst)@ == old(self)@.emitted(chunk@, old(dst)@.len()) + old(dst)@.skip(
                advance as int,
            ),
            final(self)@ == old(self)@.at(old(self)@.cursor + advance as nat),
            old(self)@.cursor >= old(self)@.encoded_len() ==> advance == 0,
    {
        proof {
            use_type_invariant(&*self);
        }
        let usable: usize = self.usable(chunk.len());
        let text = encode_standard(&chunk[0..usable]);
        let skip: usize = self.skip();
        if text.len() <= skip {
            return 0;
        }
        let ready: usize = text.len() - skip;
        let advance: usize = if dst.len() < ready { dst.len() } else { ready };
        let mut i: usize = 0;
        while i < advance
            invariant
                i <= advance,
                skip + advance <= text.len(),
                advance <= dst.len(),
                dst@.len() == old(dst)@.len(),
                dst@ =~= text@.subrange(skip as int, skip + i) + old(dst)@.skip(i as int),
            decreases advance - i,
        {
            dst[i] = text[skip + i];
            i += 1;
        }
        self.pos = self.pos + advance as u64;
        advance
    }

    /// Moves the cursor. Any position from zero up is allowed, also one past
    /// the end of the text.
    pub fn seek(&mut self, style: SeekFrom) -> (result: Result<u64, InvalidSeek>)
        ensures
            match result {
                Ok(pos) => {
                    &&& pos == old(self)@.seek_target(style)
                    &&& final(self)@ == old(self)@.at(pos as nat)
                },
                Err(_) => {
                    &&& !(0 <= old(self)@.seek_target(style) <= u64::MAX)
                    &&& final(self)@ == old(self)@
                },
            },
    {
        proof {
            use_type_invariant(&*self);
        }
        let (base, offset): (u64, i64) = match style {
            SeekFrom::Start(n) => {
                self.pos = n;
                return Ok(n);
            },
            SeekFrom::End(n) => (self.len as u64, n),
            SeekFrom::Current(n) => (self.pos, n),
        };
        let target: i128 = base as i128 + offset as i128;
        if 0 <= target && target <= u64::MAX as i128 {
            self.pos = target as u64;
            Ok(self.pos)
        } else {
            Err(InvalidSeek)
        }
    }
}

} // verus!
