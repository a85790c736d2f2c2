//! Line counting over raw file contents.
//!
//! A file's line count is the number of segments obtained by splitting
//! its content on the newline byte: one more than the number of newline
//! bytes it holds. An empty file therefore counts as one line, and a
//! final fragment without a trailing newline still counts.

use vstd::prelude::*;

verus! {

/// Number of newline bytes (0x0A) in `bytes`.
pub open spec fn newline_count(bytes: Seq<u8>) -> int
    decreases bytes.len(),
{
    if bytes.len() == 0 {
        0
    } else {
        newline_count(bytes.drop_last()) + if bytes.last() == 10u8 {
            1int
        } else {
            0int
        }
    }
}

/// Number of newline-delimited segments of `bytes`: splitting on the
/// newline byte yields one segment more than there are newlines, so an
/// empty content still counts as a single line.
pub open spec fn newline_segments(bytes: Seq<u8>) -> int {
    newline_count(bytes) + 1
}

/// A file with no bytes at all still counts as exactly one line.
pub proof fn lemma_empty_file_one_line()
    ensures
        newline_segments(Seq::<u8>::empty()) == 1,
{
}

/// Appending a trailing newline adds a segment: splitting on the
/// newline byte keeps the final empty fragment.
pub proof fn lemma_trailing_newline_adds_segment(bytes: Seq<u8>)
    ensures
        newline_segments(bytes.push(10u8)) == newline_segments(bytes) + 1,
{
    assert(bytes.push(10u8).drop_last() =~= bytes);
}

/// Counts the newline-delimited segments of `content`.
pub fn count_segments(content: &[u8]) -> (n: u64)
    requires
        content@.len() < u64::MAX,
    ensures
        n == newline_segments(content@),
{
    let mut count: u64 = 0;
    let mut i: usize = 0;
    while i < content.len()
        invariant
            i <= content@.len(),
            content@.len() < u64::MAX,
            count == newline_count(content@.take(i as int)),
            count <= i,
        decreases content@.len() - i,
    {
        proof {
            assert(content@.take(i + 1).drop_last() =~= content@.take(i as int));
            assert(content@.take(i + 1).last() == content@[i as int]);
        }
        if content[i] == 10u8 {
            count = count + 1;
        }
        i = i + 1;
    }
    proof {
        assert(content@.take(content@.len() as int) =~= content@);
    }
    count + 1
}

} // verus!
