//! The chunker: a cursor over a borrowed text that hands out one chunk at a
//! time.

use vstd::prelude::*;
use vstd::slice::slice_subrange;
use vstd::utf8::*;
use crate::boundary::{lemma_boundary_offset, lemma_boundary_step};
use crate::decode::next_utf8_char;
use crate::layout::{
    after_first_chunk, all_chunks, cuts_first_chunk, first_chunk, lemma_chunk_len_bounds,
    lemma_chunks_concat, lemma_cut_unique,
};
use crate::width::{
    display_width, fit, lemma_total_width_monotonic, lemma_total_width_step, total_width,
};

verus! {

/// A traversal of a text in chunks of bounded display width.
///
/// The text is borrowed, never copied: each chunk is a sub-slice of it. The
/// cursor is a byte offset into the text that always rests on a character
/// boundary and only moves forward.
pub struct Chunks<'a> {
    text: &'a str,
    pos: usize,
    width: usize,
}

/// The views of a run of string slices.
pub open spec fn views(chunks: Seq<&str>) -> Seq<Seq<char>> {
    Seq::new(chunks.len(), |i: int| chunks[i]@)
}

impl<'a> Chunks<'a> {
    /// The characters of the whole text.
    pub closed spec fn text(&self) -> Seq<char> {
        self.text@
    }

    /// The cursor: the byte offset at which the next chunk begins.
    pub closed spec fn cursor(&self) -> nat {
        self.pos as nat
    }

    /// The width limit, in columns.
    pub closed spec fn limit(&self) -> nat {
        self.width as nat
    }

    /// The bytes of the whole text.
    pub open spec fn source_bytes(&self) -> Seq<u8> {
        encode_utf8(self.text())
    }

    /// The invariant: the cursor rests on a character boundary of the text.
    pub open spec fn wf(&self) -> bool {
        is_char_boundary(self.source_bytes(), self.cursor() as int)
    }

    /// Whether the traversal has reached the end of the text.
    pub open spec fn is_done(&self) -> bool {
        self.cursor() == self.source_bytes().len()
    }

    /// The characters before the cursor: those handed out so far.
    pub open spec fn consumed(&self) -> Seq<char> {
        decode_utf8(self.source_bytes().subrange(0, self.cursor() as int))
    }

    /// The characters from the cursor on: those still to be handed out.
    pub open spec fn remaining(&self) -> Seq<char> {
        decode_utf8(
            self.source_bytes().subrange(self.cursor() as int, self.source_bytes().len() as int),
        )
    }

    /// The chunks still to come, in order.
    pub open spec fn pending(&self) -> Seq<Seq<char>> {
        all_chunks(self.remaining(), self.limit())
    }

    /// Scans forward from the cursor and returns the next chunk, without
    /// moving the cursor.
    fn next_chunk(&self) -> (chunk: &'a str)
        requires
            self.wf(),
            !self.is_done(),
        ensures
            chunk@ == first_chunk(self.remaining(), self.limit()),
            self.cursor() + encode_utf8(chunk@).len() <= self.source_bytes().len(),
            encode_utf8(chunk@) == self.source_bytes().subrange(
                self.cursor() as int,
                (self.cursor() + encode_utf8(chunk@).len()) as int,
            ),
            is_char_boundary(
                self.source_bytes(),
                (self.cursor() + encode_utf8(chunk@).len()) as int,
            ),
            decode_utf8(
                self.source_bytes().subrange(
                    (self.cursor() + encode_utf8(chunk@).len()) as int,
                    self.source_bytes().len() as int,
                ),
            ) == after_first_chunk(self.remaining(), self.limit()),
    {
        broadcast use encode_utf8_valid_utf8, encode_utf8_decode_utf8;

        let (_, rest) = self.text.split_at(self.pos);
        let bytes = rest.as_bytes();
        let ghost unread = rest@;
        proof {
            assert(decode_utf8(bytes@.subrange(0, bytes@.len() as int)) == unread) by {
                assert(bytes@.subrange(0, bytes@.len() as int) =~= bytes@);
            }
        }
        let mut width: usize = 0;
        let mut end: usize = 0;
        let ghost mut taken: int = 0;
        while end < bytes.len()
            invariant_except_break
                (end == 0) == (taken == 0),
                width == total_width(unread.take(taken)),
                width <= self.width,
            invariant
                valid_utf8(bytes@),
                decode_utf8(bytes@) == unread,
                bytes@.len() > 0,
                end <= bytes@.len(),
                is_char_boundary(bytes@, end as int),
                0 <= taken <= unread.len(),
                decode_utf8(bytes@.subrange(end as int, bytes@.len() as int)) == unread.skip(taken),
            ensures
                0 < end,
                cuts_first_chunk(unread, self.width as nat, taken),
            decreases bytes@.len() - end,
        {
            let ghost tail = bytes@.subrange(end as int, bytes@.len() as int);
            proof {
                lemma_boundary_step(bytes@, end as int);
                valid_utf8_split(bytes@, end as int);
                assert(pop_first_scalar(tail) =~= bytes@.subrange(
                    end + length_of_first_scalar(tail),
                    bytes@.len() as int,
                ));
                assert(unread.skip(taken).drop_first() =~= unread.skip(taken + 1));
                lemma_total_width_step(unread, taken);
            }
            let (ch, len) = next_utf8_char(slice_subrange(bytes, end, bytes.len()));
            assert(ch == unread[taken]) by {
                assert(unread.skip(taken)[0] == ch);
            }
            match fit(width, display_width(ch), self.width) {
                Some(sum) => {
                    width = sum;
                    end = end + len;
                    proof {
                        taken = taken + 1;
                    }
                },
                None => {
                    if end == 0 {
                        end = len;
                        proof {
                            taken = 1;
                            if unread.len() > 1 {
                                lemma_total_width_monotonic(unread, 1, 2);
                            }
                        }
                    }
                    break ;
                },
            }
        }
        let (chunk, _) = rest.split_at(end);
        proof {
            let source = self.source_bytes();
            let at = self.cursor() as int;
            decode_utf8_split(bytes@, end as int);
            lemma_cut_unique(unread, self.width as nat, taken);
            lemma_boundary_offset(source, at, end as int);
            assert(bytes@.subrange(end as int, bytes@.len() as int) =~= source.subrange(
                at + end,
                source.len() as int,
            ));
        }
        chunk
    }

    /// Hands out the next chunk and moves the cursor behind it, or returns
    /// `None` at the end of the text, as often as it is asked.
    ///
    /// The chunk is the longest run of characters from the cursor on whose
    /// widths add up to no more than the limit. Where not even the first
    /// character fits, the chunk is that character alone, so the cursor moves
    /// forward with every chunk. The chunk is cut out of the text at the old
    /// and the new cursor, both character boundaries.
    pub fn next(&mut self) -> (r: Option<&'a str>)
        requires
            old(self).wf(),
        ensures
            final(self).wf(),
            final(self).text() == old(self).text(),
            final(self).limit() == old(self).limit(),
            r is None <==> old(self).is_done(),
            r is None ==> *final(self) == *old(self),
            r matches Some(chunk) ==> {
                &&& chunk@ == first_chunk(old(self).remaining(), old(self).limit())
                &&& chunk@.len() >= 1
                &&& final(self).remaining() == after_first_chunk(
                    old(self).remaining(),
                    old(self).limit(),
                )
                &&& final(self).cursor() == old(self).cursor() + encode_utf8(chunk@).len()
                &&& final(self).cursor() > old(self).cursor()
                &&& encode_utf8(chunk@) == old(self).source_bytes().subrange(
                    old(self).cursor() as int,
                    final(self).cursor() as int,
                )
                &&& valid_utf8(
                    old(self).source_bytes().subrange(
                        old(self).cursor() as int,
                        final(self).cursor() as int,
                    ),
                )
                &&& chunk@ + final(self).remaining() == old(self).remaining()
                &&& final(self).consumed() == old(self).consumed() + chunk@
                &&& old(self).pending() == seq![chunk@] + final(self).pending()
            },
    {
        let total = self.text.as_bytes().len();
        if self.pos == total {
            return None;
        }
        let s = self.next_chunk();
        let ghost before = *self;
        proof {
            self.lemma_done_iff_nothing_remains();
            lemma_chunk_len_bounds(self.remaining(), self.limit());
        }
        self.pos = self.pos + s.as_bytes().len();
        proof {
            encode_utf8_valid_utf8(s@);
            before.lemma_consumed_and_remaining();
            self.lemma_consumed_and_remaining();
            assert(self.consumed() =~= before.consumed() + s@) by {
                assert(self.consumed() + self.remaining() == before.consumed() + (s@
                    + self.remaining()));
                assert(self.consumed().len() == before.consumed().len() + s@.len());
                assert(self.consumed() =~= (self.consumed() + self.remaining()).take(
                    self.consumed().len() as int,
                ));
            }
        }
        Some(s)
    }

    /// Drains the traversal: hands out all the chunks still to come.
    pub fn collect(self) -> (chunks: Vec<&'a str>)
        requires
            self.wf(),
        ensures
            views(chunks@) == self.pending(),
            views(chunks@).flatten() == self.remaining(),
    {
        proof {
            lemma_chunks_concat(self.remaining(), self.limit());
        }
        let mut it = self;
        let mut chunks: Vec<&'a str> = Vec::new();
        loop
            invariant
                it.wf(),
                it.text() == self.text(),
                it.limit() == self.limit(),
                views(chunks@) + it.pending() == self.pending(),
            ensures
                views(chunks@) == self.pending(),
            decreases it.source_bytes().len() - it.cursor(),
        {
            match it.next() {
                Some(s) => {
                    chunks.push(s);
                    proof {
                        it.lemma_done_iff_nothing_remains();
                    }
                },
                None => {
                    break ;
                },
            }
        }
        chunks
    }

    /// The traversal is at its end exactly when no characters remain.
    pub proof fn lemma_done_iff_nothing_remains(&self)
        requires
            self.wf(),
        ensures
            self.is_done() <==> self.remaining().len() == 0,
            self.cursor() <= self.source_bytes().len(),
    {
        broadcast use encode_utf8_valid_utf8;

        valid_utf8_split(self.source_bytes(), self.cursor() as int);
    }

    /// A traversal that has not begun has the whole text before it.
    pub proof fn lemma_fresh(&self)
        requires
            self.cursor() == 0,
        ensures
            self.wf(),
            self.consumed() == Seq::<char>::empty(),
            self.remaining() == self.text(),
            self.pending() == all_chunks(self.text(), self.limit()),
    {
        broadcast use encode_utf8_valid_utf8, encode_utf8_decode_utf8;

        let source = self.source_bytes();
        assert(source.subrange(0, source.len() as int) =~= source);
    }

    /// Determinism: what a traversal still hands out is a function of the
    /// text, the cursor and the limit. Two traversals that agree on these
    /// hand out the same chunks; two that have not begun need only agree on
    /// the text and the limit, and hand out the chunks of the whole text.
    pub proof fn lemma_deterministic(&self, other: &Chunks)
        requires
            self.text() == other.text(),
            self.cursor() == other.cursor(),
            self.limit() == other.limit(),
        ensures
            self.remaining() == other.remaining(),
            self.pending() == other.pending(),
            self.cursor() == 0 ==> self.pending() == all_chunks(self.text(), self.limit()),
    {
        if self.cursor() == 0 {
            self.lemma_fresh();
        }
    }

    /// What was handed out and what remains make up the text.
    pub proof fn lemma_consumed_and_remaining(&self)
        requires
            self.wf(),
        ensures
            self.consumed() + self.remaining() == self.text(),
    {
        broadcast use encode_utf8_valid_utf8, encode_utf8_decode_utf8;

        decode_utf8_split(self.source_bytes(), self.cursor() as int);
    }
}

/// Chunking for string slices.
pub trait UnicodeStrExt {
    /// The characters of the text.
    spec fn characters(&self) -> Seq<char>;

    /// Begins a traversal of the text in chunks that take no more than
    /// `width` columns each.
    fn chunks<'a>(&'a self, width: usize) -> (c: Chunks<'a>)
        ensures
            c.wf(),
            c.text() == self.characters(),
            c.cursor() == 0,
            c.limit() == width,
            c.remaining() == self.characters(),
            c.pending() == all_chunks(self.characters(), width as nat),
    ;
}

impl UnicodeStrExt for str {
    open spec fn characters(&self) -> Seq<char> {
        self@
    }

    fn chunks<'a>(&'a self, width: usize) -> (c: Chunks<'a>) {
        let c = Chunks { text: self, pos: 0, width };
        proof {
            c.lemma_fresh();
        }
        c
    }
}

} // verus!
