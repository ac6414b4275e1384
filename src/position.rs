use vstd::prelude::*;

verus! {

/// How many of the first `k` bytes of `input` are newlines.
pub open spec fn newlines_before(input: Seq<u8>, k: int) -> int
    decreases k,
{
    if k <= 0 {
        0
    } else {
        newlines_before(input, k - 1) + if input[k - 1] == 10 {
            1int
        } else {
            0
        }
    }
}

/// The position just after the last newline among the first `k` bytes of `input`; 0 when
/// there is none.
pub open spec fn line_start(input: Seq<u8>, k: int) -> int
    decreases k,
{
    if k <= 0 {
        0
    } else if input[k - 1] == 10 {
        k
    } else {
        line_start(input, k - 1)
    }
}

/// The line and the column, both counted from 1, of the byte at `byte_offset` of `input`;
/// bytes past the end count as on the last line.
pub fn get_position_info(input: &[u8], byte_offset: usize) -> (r: (usize, usize))
    requires
        byte_offset < usize::MAX,
    ensures
        ({
            let k = if byte_offset < input@.len() { byte_offset as int } else { input@.len() as int };
            &&& r.0 == 1 + newlines_before(input@, k)
            &&& r.1 == byte_offset - line_start(input@, k) + 1
        }),
{
    let len = input.len();
    let end = if byte_offset < len {
        byte_offset
    } else {
        len
    };
    let mut line: usize = 1;
    let mut last_newline: usize = 0;
    let mut i: usize = 0;
    while i < end
        invariant
            end <= input@.len(),
            end <= byte_offset,
            byte_offset < usize::MAX,
            i <= end,
            line == 1 + newlines_before(input@, i as int),
            last_newline == line_start(input@, i as int),
            newlines_before(input@, i as int) <= i,
            last_newline <= i,
        decreases end - i,
    {
        if input[i] == 10 {
            line = line + 1;
            last_newline = i + 1;
        }
        i = i + 1;
    }
    let column = byte_offset - last_newline + 1;
    (line, column)
}

} // verus!
