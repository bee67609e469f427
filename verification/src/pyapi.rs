//! State shared between the Python drawing API and the main loop: the queue
//! of drawing requests and the editable sprite data.
use crate::script8::lexer::is_decimal_digit;
use crate::text::{lines, lines_of, strings_view};
use vstd::prelude::*;

verus! {

/// The number of sprites whose data the Python side can read and edit.
pub const SPRITE_SLOTS: usize = 1;

/// Drawing requests waiting for the main loop, oldest first, and the sprite data.
pub struct RequestHolder<R> {
    pub requests: Vec<R>,
    pub sprite_data: [[u8; 64]; 1],
}

impl<R> RequestHolder<R> {
    /// A holder with no pending request and the given sprite data.
    pub fn new(sprite_data: [[u8; 64]; 1]) -> (h: RequestHolder<R>)
        ensures
            h.requests@ == Seq::<R>::empty(),
            h.sprite_data == sprite_data,
    {
        RequestHolder { requests: Vec::new(), sprite_data }
    }
}

/// Queues a drawing request behind those already waiting.
pub fn make_request<R>(holder: &mut RequestHolder<R>, request: R)
    ensures
        final(holder).requests@ == old(holder).requests@.push(request),
        final(holder).sprite_data == old(holder).sprite_data,
{
    holder.requests.push(request);
}

/// The data of sprite `sprite`.
pub fn get_sprite_data<R>(holder: &RequestHolder<R>, sprite: usize) -> (data: [u8; 64])
    requires
        sprite < SPRITE_SLOTS,
    ensures
        data == holder.sprite_data@[sprite as int],
{
    holder.sprite_data[sprite]
}

/// Replaces the data of sprite `sprite`.
pub fn set_sprite_data<R>(holder: &mut RequestHolder<R>, sprite: usize, new_data: [u8; 64])
    requires
        sprite < SPRITE_SLOTS,
    ensures
        final(holder).sprite_data@ == old(holder).sprite_data@.update(sprite as int, new_data),
        final(holder).sprite_data@[sprite as int] == new_data,
        forall|k: int|
            0 <= k < SPRITE_SLOTS && k != sprite ==> #[trigger] final(holder).sprite_data@[k]
                == old(holder).sprite_data@[k],
        final(holder).requests@ == old(holder).requests@,
{
    holder.sprite_data[sprite] = new_data;
}

/// Reading sprite data gives what was last written there, and writing one
/// sprite leaves the others as they were: a holder in the state that
/// [`set_sprite_data`] leaves gives back, through [`get_sprite_data`], the data
/// written at the slot written and the old data at every other slot.
pub proof fn read_after_write<R>(
    before: RequestHolder<R>,
    after: RequestHolder<R>,
    written: int,
    data: [u8; 64],
    read: int,
)
    requires
        0 <= written < SPRITE_SLOTS,
        0 <= read < SPRITE_SLOTS,
        after.sprite_data@ == before.sprite_data@.update(written, data),
    ensures
        after.sprite_data@[written] == data,
        read != written ==> after.sprite_data@[read] == before.sprite_data@[read],
{
}

/// The text holds sprite data for the editable slots: its first line is at
/// most 64 decimal digits, and any further line is empty.
pub open spec fn digit_rows_fit(text: Seq<char>) -> bool {
    forall|i: int|
        0 <= i < lines(text).len() ==> if i == 0 {
            &&& (#[trigger] lines(text)[i]).len() <= 64
            &&& forall|j: int|
                0 <= j < lines(text)[i].len() ==> is_decimal_digit(#[trigger] lines(text)[i][j])
        } else {
            lines(text)[i].len() == 0
        }
}

/// The value of the decimal digit `c`.
pub open spec fn digit_value(c: char) -> u8 {
    (c as u32 - 48) as u8
}

/// The sprite data a text describes: pixel `j` of the first sprite is the
/// value of the `j`-th digit of the first line, and 0 past its end.
pub open spec fn digit_rows(text: Seq<char>) -> Seq<u8> {
    Seq::new(
        64,
        |j: int|
            if lines(text).len() > 0 && j < lines(text)[0].len() {
                digit_value(lines(text)[0][j])
            } else {
                0u8
            },
    )
}

/// Pixel `j` of the sprite data is the value of the `j`-th digit of the first
/// line (the digit's code minus that of `0`), and 0 past the end of that line
/// or when the text has no line.
pub proof fn digit_rows_are_digit_values(text: Seq<char>, j: int)
    requires
        digit_rows_fit(text),
        0 <= j < 64,
    ensures
        digit_rows(text).len() == 64,
        lines(text).len() > 0 && j < lines(text)[0].len() ==> digit_rows(text)[j] + 48
            == lines(text)[0][j] as int,
        !(lines(text).len() > 0 && j < lines(text)[0].len()) ==> digit_rows(text)[j] == 0,
{
    if lines(text).len() > 0 && j < lines(text)[0].len() {
        let c = lines(text)[0][j];
        assert(is_decimal_digit(lines(text)[0][j]));
        assert('0' <= c && c <= '9');
        assert(48 <= c as u32 <= 57);
    }
}

/// Reads the editable sprite data from its text form (see [`digit_rows`]).
pub fn parse_sprite_digits(text: &str) -> (data: [[u8; 64]; 1])
    requires
        digit_rows_fit(text@),
    ensures
        data@[0]@ == digit_rows(text@),
        forall|j: int|
            0 <= j < 64 ==> if lines(text@).len() > 0 && j < lines(text@)[0].len() {
                (#[trigger] data@[0]@[j]) + 48 == lines(text@)[0][j] as int
            } else {
                data@[0]@[j] == 0
            },
{
    let ls = lines_of(text);
    let mut row: [u8; 64] = [0u8; 64];
    if ls.len() > 0 {
        let cs = crate::text::chars_of(ls[0].as_str());
        let ghost first = lines(text@)[0];
        assert(strings_view(ls@)[0] == ls@[0]@);
        assert(cs@ == first);
        assert(first.len() <= 64);
        let n = cs.len();
        for j in 0..n
            invariant
                n == cs.len(),
                cs@ == first,
                n <= 64,
                forall|m: int| 0 <= m < n ==> is_decimal_digit(#[trigger] first[m]),
                forall|m: int| 0 <= m < j ==> #[trigger] row@[m] == digit_value(first[m]),
                forall|m: int| j <= m < 64 ==> #[trigger] row@[m] == 0u8,
        {
            let c = cs[j];
            assert(is_decimal_digit(first[j as int]));
            row[j] = (c as u32 - 48) as u8;
        }
    }
    let data = [row];
    assert(data@[0]@ =~= digit_rows(text@));
    proof {
        assert forall|j: int| 0 <= j < 64 implies if lines(text@).len() > 0 && j < lines(text@)[0].len() {
            (#[trigger] data@[0]@[j]) + 48 == lines(text@)[0][j] as int
        } else {
            data@[0]@[j] == 0
        } by {
            digit_rows_are_digit_values(text@, j);
        }
    }
    data
}

} // verus!
