//! Where a text is cut: the model that the chunker is held to.
//!
//! A chunk is the longest run of characters, from the front of what is left
//! of the text, whose widths add up to no more than the limit. When not even
//! the first character fits (it is wider than the limit, or the limit is 0),
//! the chunk is that one character alone: a chunk is never empty, so cutting
//! always comes to an end.

use vstd::prelude::*;
use vstd::utf8::is_ascii_chars;
use crate::width::{column_width, lemma_total_width_monotonic, total_width};

verus! {

/// The length of the longest prefix of `chars` that takes no more than
/// `limit` columns.
pub open spec fn fitting_prefix(chars: Seq<char>, limit: nat) -> nat
    decreases chars.len(),
{
    if chars.len() == 0 || total_width(chars) <= limit {
        chars.len()
    } else {
        fitting_prefix(chars.drop_last(), limit)
    }
}

/// How many characters the first chunk of `chars` holds: those that fit, but
/// at least one while there is any.
pub open spec fn chunk_len(chars: Seq<char>, limit: nat) -> nat {
    if chars.len() == 0 {
        0
    } else if fitting_prefix(chars, limit) == 0 {
        1
    } else {
        fitting_prefix(chars, limit)
    }
}

/// The first chunk of `chars`.
pub open spec fn first_chunk(chars: Seq<char>, limit: nat) -> Seq<char> {
    chars.take(chunk_len(chars, limit) as int)
}

/// What is left of `chars` behind its first chunk.
pub open spec fn after_first_chunk(chars: Seq<char>, limit: nat) -> Seq<char> {
    chars.skip(chunk_len(chars, limit) as int)
}

/// All the chunks of `chars`, in order.
pub open spec fn all_chunks(chars: Seq<char>, limit: nat) -> Seq<Seq<char>>
    decreases chars.len(),
{
    if chars.len() == 0 {
        Seq::empty()
    } else {
        proof {
            lemma_chunk_len_bounds(chars, limit);
        }
        seq![first_chunk(chars, limit)] + all_chunks(after_first_chunk(chars, limit), limit)
    }
}

/// Whether the first `n` characters of `chars` make up its first chunk: they
/// fit or are a single character, and one more would not fit.
pub open spec fn cuts_first_chunk(chars: Seq<char>, limit: nat, n: int) -> bool {
    if chars.len() == 0 {
        n == 0
    } else {
        &&& 1 <= n <= chars.len()
        &&& n > 1 ==> total_width(chars.take(n)) <= limit
        &&& n < chars.len() ==> total_width(chars.take(n + 1)) > limit
    }
}

/// The longest fitting prefix fits, and is no longer than the text.
pub proof fn lemma_fitting_prefix_fits(chars: Seq<char>, limit: nat)
    ensures
        fitting_prefix(chars, limit) <= chars.len(),
        total_width(chars.take(fitting_prefix(chars, limit) as int)) <= limit,
    decreases chars.len(),
{
    if chars.len() == 0 || total_width(chars) <= limit {
        assert(chars.take(chars.len() as int) =~= chars);
    } else {
        let shorter = chars.drop_last();
        lemma_fitting_prefix_fits(shorter, limit);
        let k = fitting_prefix(shorter, limit) as int;
        assert(shorter.take(k) =~= chars.take(k));
    }
}

/// No prefix that fits is longer than the longest fitting prefix.
pub proof fn lemma_fitting_prefix_longest(chars: Seq<char>, limit: nat, k: int)
    requires
        0 <= k <= chars.len(),
        total_width(chars.take(k)) <= limit,
    ensures
        k <= fitting_prefix(chars, limit),
    decreases chars.len(),
{
    if chars.len() == 0 || total_width(chars) <= limit {
    } else {
        let shorter = chars.drop_last();
        assert(chars.take(chars.len() as int) =~= chars);
        assert(shorter.take(k) =~= chars.take(k));
        lemma_fitting_prefix_longest(shorter, limit, k);
    }
}

/// Forward progress: while any text is left, its first chunk holds at least
/// one character, and no more than there are.
pub proof fn lemma_chunk_len_bounds(chars: Seq<char>, limit: nat)
    ensures
        chunk_len(chars, limit) <= chars.len(),
        chars.len() > 0 ==> chunk_len(chars, limit) >= 1,
{
    lemma_fitting_prefix_fits(chars, limit);
}

/// The first chunk is as long as it can be: it is cut where
/// `cuts_first_chunk` says.
pub proof fn lemma_chunk_len_cuts(chars: Seq<char>, limit: nat)
    ensures
        cuts_first_chunk(chars, limit, chunk_len(chars, limit) as int),
{
    let n = chunk_len(chars, limit) as int;
    lemma_fitting_prefix_fits(chars, limit);
    if chars.len() > 0 && n < chars.len() {
        if total_width(chars.take(n + 1)) <= limit {
            lemma_fitting_prefix_longest(chars, limit, n + 1);
        }
    }
}

/// There is one place only to cut the first chunk: `cuts_first_chunk` holds
/// of no other length than `chunk_len`.
pub proof fn lemma_cut_unique(chars: Seq<char>, limit: nat, n: int)
    requires
        cuts_first_chunk(chars, limit, n),
    ensures
        n == chunk_len(chars, limit),
{
    if chars.len() > 0 {
        let f = fitting_prefix(chars, limit) as int;
        lemma_fitting_prefix_fits(chars, limit);
        if n > 1 {
            lemma_fitting_prefix_longest(chars, limit, n);
        }
        if n < f {
            lemma_total_width_monotonic(chars, n + 1, f);
        }
    }
}

/// The policy for a first character that does not fit, because it is wider
/// than the limit: it is a chunk by itself.
pub proof fn lemma_oversized_first_char(chars: Seq<char>, limit: nat)
    requires
        chars.len() > 0,
        column_width(chars[0]) > limit,
    ensures
        first_chunk(chars, limit) == seq![chars[0]],
{
    if chars.len() > 1 {
        lemma_total_width_monotonic(chars, 1, 2);
    }
    lemma_cut_unique(chars, limit, 1);
}

/// Concatenation identity: the chunks of a text, joined in order, are the
/// text.
pub proof fn lemma_chunks_concat(chars: Seq<char>, limit: nat)
    ensures
        all_chunks(chars, limit).flatten() == chars,
    decreases chars.len(),
{
    if chars.len() > 0 {
        lemma_chunk_len_bounds(chars, limit);
        let head = first_chunk(chars, limit);
        let tail = all_chunks(after_first_chunk(chars, limit), limit);
        lemma_chunks_concat(after_first_chunk(chars, limit), limit);
        assert((seq![head] + tail).drop_first() =~= tail);
    }
}

/// Every chunk holds at least one character, and fits in the limit unless it
/// is a single character.
pub proof fn lemma_chunks_nonempty_and_fit(chars: Seq<char>, limit: nat, i: int)
    requires
        0 <= i < all_chunks(chars, limit).len(),
    ensures
        all_chunks(chars, limit)[i].len() >= 1,
        all_chunks(chars, limit)[i].len() == 1 || total_width(all_chunks(chars, limit)[i]) <= limit,
    decreases chars.len(),
{
    if chars.len() > 0 {
        lemma_chunk_len_cuts(chars, limit);
        if i > 0 {
            lemma_chunks_nonempty_and_fit(after_first_chunk(chars, limit), limit, i - 1);
        }
    }
}

/// A text has no more chunks than characters.
pub proof fn lemma_chunk_count(chars: Seq<char>, limit: nat)
    ensures
        all_chunks(chars, limit).len() <= chars.len(),
        chars.len() > 0 ==> all_chunks(chars, limit).len() >= 1,
    decreases chars.len(),
{
    if chars.len() > 0 {
        lemma_chunk_len_bounds(chars, limit);
        lemma_chunk_count(after_first_chunk(chars, limit), limit);
    }
}

/// A text that fits in the limit as a whole is a single chunk.
pub proof fn lemma_fitting_text_single_chunk(chars: Seq<char>, limit: nat)
    requires
        chars.len() > 0,
        total_width(chars) <= limit,
    ensures
        all_chunks(chars, limit) == seq![chars],
{
    assert(first_chunk(chars, limit) =~= chars);
    assert(all_chunks(after_first_chunk(chars, limit), limit).len() == 0);
}

/// ASCII characters take at most one column each.
pub proof fn lemma_ascii_total_width(chars: Seq<char>)
    requires
        is_ascii_chars(chars),
    ensures
        total_width(chars) <= chars.len(),
    decreases chars.len(),
{
    if chars.len() > 0 {
        lemma_ascii_total_width(chars.drop_last());
    }
}

/// An ASCII text with no more characters than the limit has columns is a
/// single chunk, the whole text.
pub proof fn lemma_ascii_single_chunk(chars: Seq<char>, limit: nat)
    requires
        is_ascii_chars(chars),
        0 < chars.len() <= limit,
    ensures
        all_chunks(chars, limit) == seq![chars],
{
    lemma_ascii_total_width(chars);
    lemma_fitting_text_single_chunk(chars, limit);
}

} // verus!
