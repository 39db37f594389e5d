//! How many terminal columns a character takes.

use unicode_width::UnicodeWidthChar;
use vstd::prelude::*;

verus! {

/// What `UnicodeWidthChar::width` of the crate `unicode-width` returns for
/// `c`: a lookup in that crate's tables, so a function of the character alone.
pub uninterp spec fn unicode_width(c: char) -> Option<usize>;

/// The control characters: `U+0000..=U+001F` and `U+007F..=U+009F`.
pub open spec fn is_control(c: char) -> bool {
    (c as u32) < 0x20 || 0x7F <= (c as u32) < 0xA0
}

/// The columns that a lookup in the width tables stands for: the width it
/// gave, or none where it gave no width.
pub open spec fn columns_of(lookup: Option<usize>) -> nat {
    match lookup {
        Some(w) => w as nat,
        None => 0,
    }
}

/// The number of terminal columns that `c` takes: 0 for a control character,
/// 1 for a printable ASCII character, and for every other character what the
/// width tables give: 0 for a combining character, 1 for a narrow one, 2 for
/// a wide one, and whatever else they hold.
pub open spec fn column_width(c: char) -> nat {
    if is_control(c) {
        0
    } else if (c as u32) < 0x7F {
        1
    } else {
        columns_of(unicode_width(c))
    }
}

/// Calls `UnicodeWidthChar::width` on `c`.
///
/// Not proved, but read off that function's source: the result is the table
/// lookup that `unicode_width` names; it is `None` for every control
/// character, and `Some(1)` for every printable ASCII character
/// (`U+0020..=U+007E`).
#[verifier::external_body]
fn table_width(c: char) -> (w: Option<usize>)
    ensures
        w == unicode_width(c),
        is_control(c) ==> w is None,
        0x20 <= (c as u32) < 0x7F ==> w == Some(1usize),
{
    UnicodeWidthChar::width(c)
}

/// The columns that a lookup in the width tables stands for.
pub fn columns(lookup: Option<usize>) -> (w: usize)
    ensures
        w == columns_of(lookup),
{
    match lookup {
        Some(w) => w,
        None => 0,
    }
}

/// The number of terminal columns that `c` takes.
pub fn display_width(c: char) -> (w: usize)
    ensures
        w == column_width(c),
{
    columns(table_width(c))
}

/// Adds a character of width `w` to a run that takes `used` columns, if the
/// run then still takes no more than `limit`: returns the columns that the
/// longer run takes, or `None` if the character does not fit.
pub fn fit(used: usize, w: usize, limit: usize) -> (r: Option<usize>)
    ensures
        r == (if used + w <= limit {
            Some((used + w) as usize)
        } else {
            None::<usize>
        }),
{
    match used.checked_add(w) {
        Some(sum) => if sum <= limit {
            Some(sum)
        } else {
            None
        },
        None => None,
    }
}

/// The columns that a run of characters takes: the sum of their widths.
pub open spec fn total_width(chars: Seq<char>) -> nat
    decreases chars.len(),
{
    if chars.len() == 0 {
        0
    } else {
        total_width(chars.drop_last()) + column_width(chars.last())
    }
}

/// A longer prefix is never narrower than a shorter one.
pub proof fn lemma_total_width_monotonic(chars: Seq<char>, i: int, j: int)
    requires
        0 <= i <= j <= chars.len(),
    ensures
        total_width(chars.take(i)) <= total_width(chars.take(j)),
    decreases j - i,
{
    if i < j {
        lemma_total_width_monotonic(chars, i, j - 1);
        assert(chars.take(j).drop_last() =~= chars.take(j - 1));
    }
}

/// Adding one character to a prefix adds that character's width.
pub proof fn lemma_total_width_step(chars: Seq<char>, i: int)
    requires
        0 <= i < chars.len(),
    ensures
        total_width(chars.take(i + 1)) == total_width(chars.take(i)) + column_width(chars[i]),
{
    assert(chars.take(i + 1).drop_last() =~= chars.take(i));
}

} // verus!
