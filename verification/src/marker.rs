//! Start-of-packet and start-of-message marker detection in a character
//! stream: the first position after which the last `n` characters are all
//! distinct.
use vstd::prelude::*;

use crate::text::{chars_of, spec_trim_trailing};

verus! {

/// Whether all elements of `s` are pairwise distinct.
pub open spec fn all_distinct(s: Seq<char>) -> bool {
    forall|i: int, j: int| 0 <= i < j < s.len() ==> s[i] != s[j]
}

/// Grows the buffer with the symbol until it reaches `buffer_size`, after
/// that it drops the oldest symbol to keep the buffer at `buffer_size`.
pub fn add_to_buffer(buffer: &mut Vec<char>, symbol: char, buffer_size: usize)
    requires
        old(buffer)@.len() < usize::MAX,
    ensures
        final(buffer)@ == if old(buffer)@.len() + 1 > buffer_size {
            old(buffer)@.push(symbol).subrange(1, old(buffer)@.len() + 1 as int)
        } else {
            old(buffer)@.push(symbol)
        },
{
    buffer.push(symbol);
    if buffer.len() > buffer_size {
        buffer.remove(0);
        proof {
            assert(buffer@ =~= old(buffer)@.push(symbol).subrange(
                1,
                old(buffer)@.len() + 1 as int,
            ));
        }
    }
}

/// Whether the buffer holds a marker: it is full (exactly `buffer_size`
/// characters) and all of them differ.
pub fn is_marker(buffer: &Vec<char>, buffer_size: usize) -> (r: bool)
    requires
        buffer@.len() <= buffer_size,
    ensures
        r == (buffer@.len() == buffer_size && all_distinct(buffer@)),
{
    if buffer.len() < buffer_size {
        return false;
    }
    let n = buffer.len();
    for i in 0..n
        invariant
            n == buffer@.len(),
            forall|a: int, b: int| 0 <= a < b < n && a < i ==> buffer@[a] != buffer@[b],
    {
        for j in (i + 1)..n
            invariant
                n == buffer@.len(),
                i < n,
                forall|b: int| i < b < j ==> buffer@[i as int] != buffer@[b],
        {
            if buffer[i] == buffer[j] {
                return false;
            }
        }
    }
    true
}

/// Whether position `c` (counting characters from 1) ends a marker window of
/// width `size` in `s`.
pub open spec fn marker_at(s: Seq<char>, size: int, c: int) -> bool {
    c >= size && all_distinct(s.subrange(c - size, c))
}

/// The position, counting from 1, of the first character after which the last
/// `buffer_size` characters of the content (trailing newlines stripped) are
/// all distinct; nothing if no such position exists.
pub fn get_first_marker(content: &str, buffer_size: usize) -> (r: Option<u32>)
    requires
        spec_trim_trailing(content@, '\n').len() <= u32::MAX,
    ensures
        (match r {
            Some(c) => {
                &&& 1 <= c <= spec_trim_trailing(content@, '\n').len()
                &&& marker_at(spec_trim_trailing(content@, '\n'), buffer_size as int, c as int)
                &&& forall|b: int|
                    1 <= b < c ==> !marker_at(
                        spec_trim_trailing(content@, '\n'),
                        buffer_size as int,
                        b,
                    )
            },
            None => forall|b: int|
                1 <= b <= spec_trim_trailing(content@, '\n').len() ==> !marker_at(
                    spec_trim_trailing(content@, '\n'),
                    buffer_size as int,
                    b,
                ),
        }),
{
    let mut cs = chars_of(content);
    let ghost orig = content@;
    while cs.len() > 0 && cs[cs.len() - 1] == '\n'
        invariant
            orig == content@,
            spec_trim_trailing(orig, '\n') == spec_trim_trailing(cs@, '\n'),
        decreases cs@.len(),
    {
        proof {
            assert(cs@.last() == '\n');
        }
        cs.pop();
    }
    proof {
        assert(spec_trim_trailing(cs@, '\n') == cs@);
    }
    let ghost t = cs@;
    let mut count: u32 = 0;
    let mut buffer: Vec<char> = Vec::new();
    let n = cs.len();
    for k in 0..n
        invariant
            orig == content@,
            t == spec_trim_trailing(orig, '\n'),
            n == cs@.len(),
            cs@ == t,
            n <= u32::MAX,
            count == k,
            buffer@ == if k <= buffer_size {
                t.take(k as int)
            } else {
                t.subrange(k - buffer_size, k as int)
            },
            buffer@.len() <= buffer_size,
            forall|b: int| 1 <= b <= k ==> !marker_at(t, buffer_size as int, b),
    {
        add_to_buffer(&mut buffer, cs[k], buffer_size);
        count = count + 1;
        proof {
            if k + 1 <= buffer_size {
                assert(buffer@ =~= t.take(k + 1));
            } else {
                assert(buffer@ =~= t.subrange(k + 1 - buffer_size, k + 1));
            }
        }
        if is_marker(&buffer, buffer_size) {
            proof {
                assert(buffer@ =~= t.subrange(k + 1 - buffer_size, k + 1));
            }
            return Some(count);
        }
        proof {
            if k + 1 >= buffer_size {
                assert(buffer@ =~= t.subrange(k + 1 - buffer_size, k + 1));
                assert(!marker_at(t, buffer_size as int, k + 1));
            } else {
                assert(!marker_at(t, buffer_size as int, k + 1));
            }
        }
    }
    None
}

/// The first start-of-packet marker: four distinct characters in a row.
pub fn get_first_packet_marker(content: &str) -> (r: Option<u32>)
    requires
        spec_trim_trailing(content@, '\n').len() <= u32::MAX,
    ensures
        (match r {
            Some(c) => {
                &&& 1 <= c <= spec_trim_trailing(content@, '\n').len()
                &&& marker_at(spec_trim_trailing(content@, '\n'), 4, c as int)
                &&& forall|b: int|
                    1 <= b < c ==> !marker_at(spec_trim_trailing(content@, '\n'), 4, b)
            },
            None => forall|b: int|
                1 <= b <= spec_trim_trailing(content@, '\n').len() ==> !marker_at(
                    spec_trim_trailing(content@, '\n'),
                    4,
                    b,
                ),
        }),
{
    get_first_marker(content, 4)
}

/// The first start-of-message marker: fourteen distinct characters in a row.
pub fn get_first_message_marker(content: &str) -> (r: Option<u32>)
    requires
        spec_trim_trailing(content@, '\n').len() <= u32::MAX,
    ensures
        (match r {
            Some(c) => {
                &&& 1 <= c <= spec_trim_trailing(content@, '\n').len()
                &&& marker_at(spec_trim_trailing(content@, '\n'), 14, c as int)
                &&& forall|b: int|
                    1 <= b < c ==> !marker_at(spec_trim_trailing(content@, '\n'), 14, b)
            },
            None => forall|b: int|
                1 <= b <= spec_trim_trailing(content@, '\n').len() ==> !marker_at(
                    spec_trim_trailing(content@, '\n'),
                    14,
                    b,
                ),
        }),
{
    get_first_marker(content, 14)
}

} // verus!
