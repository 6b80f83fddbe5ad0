//! The start of a message in a stream of bytes: the end of the first
//! window of a given size whose bytes all differ.

use crate::distinct::count_unique_bytes;
use crate::distinct::lemma_all_distinct;
use vstd::prelude::*;
use vstd::slice::slice_subrange;
use vstd::string::StrSliceExecFns;
use vstd::string::StringSliceAdditionalSpecFns;

verus! {

/// The sum of two numbers that `usize` can hold the sum of.
pub fn add(left: usize, right: usize) -> (sum: usize)
    requires
        left + right <= usize::MAX,
    ensures
        sum == left + right,
{
    left + right
}

/// A stream and the index at which its first window of distinct bytes is
/// expected to end.
#[derive(Debug, Clone, Copy)]
pub struct TestInput<'a> {
    pub input: &'a str,
    pub expected_index: usize,
}

/// The end of the first window of `size` bytes at or after `from` whose
/// bytes all differ; `None` where no window is left that has this property.
pub open spec fn marker_from(bytes: Seq<u8>, size: int, from: int) -> Option<int>
    decreases bytes.len() - from,
{
    if size <= 0 || from < 0 || from + size > bytes.len() {
        None
    } else if bytes.subrange(from, from + size).no_duplicates() {
        Some(from + size)
    } else {
        marker_from(bytes, size, from + 1)
    }
}

/// The end of the first window of `size` bytes whose bytes all differ.
pub open spec fn marker(bytes: Seq<u8>, size: int) -> Option<int> {
    marker_from(bytes, size, 0)
}

/// The index just behind the first `window_size` bytes in a row of the
/// stream of `input` that all differ.
pub fn get_position_of_input(input: &TestInput, window_size: u32) -> (r: Option<usize>)
    requires
        window_size > 0,
    ensures
        match r {
            Some(end) => marker(input.input.spec_bytes(), window_size as int) == Some(end as int),
            None => marker(input.input.spec_bytes(), window_size as int) is None,
        },
{
    get_end_index_of_first_unique_chunk(input.input, window_size)
}

/// The index just behind the first `window_size` bytes in a row of `input`
/// that all differ. The size of a window is not 0.
pub fn get_end_index_of_first_unique_chunk(input: &str, window_size: u32) -> (r: Option<usize>)
    requires
        window_size > 0,
    ensures
        match r {
            Some(end) => marker(input.spec_bytes(), window_size as int) == Some(end as int),
            None => marker(input.spec_bytes(), window_size as int) is None,
        },
{
    let window_usize = window_size as usize;
    let bytes = input.as_bytes();
    let mut pos: usize = 0;
    while window_usize <= bytes.len() && pos <= bytes.len() - window_usize
        invariant
            pos <= bytes@.len(),
            bytes@ == input.spec_bytes(),
            window_usize == window_size,
            window_size > 0,
            marker(bytes@, window_size as int) == marker_from(bytes@, window_size as int, pos as int),
        decreases bytes@.len() - pos,
    {
        let window = slice_subrange(bytes, pos, pos + window_usize);
        proof {
            lemma_all_distinct(window@);
        }
        if count_unique_bytes(window) == window_usize {
            return Some(pos + window_usize);
        }
        pos += 1;
    }
    None
}

/// The character of `input` at `index`, counted from 0.
pub fn get_char_at_index(input: &str, index: usize) -> (r: Option<char>)
    ensures
        index < input@.len() ==> r == Some(input@[index as int]),
        index >= input@.len() ==> r is None,
{
    if index < input.unicode_len() {
        Some(input.get_char(index))
    } else {
        None
    }
}

} // verus!
