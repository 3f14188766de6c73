//! The number of bytes that a text takes in UTF-8, and cutting a text to a number of bytes.

use vstd::prelude::*;
use vstd::utf8::{
    decode_utf8_split, encode_scalar, encode_utf8, encode_utf8_decode_utf8,
    encode_utf8_first_scalar, encode_utf8_valid_utf8, is_char_boundary, pop_first_scalar,
};

verus! {

/// The number of bytes of a text in UTF-8.
pub open spec fn byte_len(s: Seq<char>) -> nat {
    encode_utf8(s).len()
}

/// The longest start of `s` that takes at most `max` bytes.
pub open spec fn fitting(s: Seq<char>, max: nat) -> Seq<char>
    decreases s.len(),
{
    if s.len() == 0 || byte_len(s) <= max {
        s
    } else {
        fitting(s.drop_last(), max)
    }
}

/// The bytes of two texts, one after the other, are the bytes of both.
pub proof fn encode_concat(a: Seq<char>, b: Seq<char>)
    ensures
        encode_utf8(a + b) == encode_utf8(a) + encode_utf8(b),
    decreases a.len(),
{
    if a.len() == 0 {
        assert(a + b == b);
    } else {
        assert((a + b).drop_first() == a.drop_first() + b);
        encode_concat(a.drop_first(), b);
    }
}

proof fn prefix_is_boundary(s: Seq<char>, k: int)
    requires
        0 <= k <= s.len(),
    ensures
        is_char_boundary(encode_utf8(s), byte_len(s.take(k)) as int),
    decreases k,
{
    encode_utf8_valid_utf8(s);
    if k == 0 {
        assert(s.take(0) == Seq::<char>::empty());
    } else {
        encode_utf8_first_scalar(s);
        prefix_is_boundary(s.drop_first(), k - 1);
        assert(pop_first_scalar(encode_utf8(s)) == encode_utf8(s.drop_first()));
        assert(s.take(k).drop_first() == s.drop_first().take(k - 1));
        assert(s.take(k) + s.skip(k) == s);
        encode_concat(s.take(k), s.skip(k));
    }
}

proof fn longer_takes_more(s: Seq<char>, j: int, k: int)
    requires
        0 <= j < k <= s.len(),
    ensures
        byte_len(s.take(j)) < byte_len(s.take(k)),
{
    assert(s.take(k) == s.take(j) + s.subrange(j, k));
    encode_concat(s.take(j), s.subrange(j, k));
    assert(encode_utf8(s.subrange(j, k)).len() >= encode_scalar(s[j] as u32).len());
}

proof fn fitting_is(s: Seq<char>, k: int, max: nat)
    requires
        0 <= k <= s.len(),
        byte_len(s.take(k)) <= max,
        forall|j: int| k < j <= s.len() ==> byte_len(#[trigger] s.take(j)) > max,
    ensures
        fitting(s, max) == s.take(k),
    decreases s.len(),
{
    assert(s.take(s.len() as int) == s);
    if k < s.len() {
        let t = s.drop_last();
        assert(t.take(k) == s.take(k));
        assert forall|j: int| k < j <= t.len() implies byte_len(#[trigger] t.take(j)) > max by {
            assert(t.take(j) == s.take(j));
        }
        fitting_is(t, k, max);
    }
}

/// What fits is a start of the text, takes at most `max` bytes, and cannot be longer.
pub proof fn fitting_is_longest(s: Seq<char>, max: nat)
    ensures
        fitting(s, max).is_prefix_of(s),
        byte_len(fitting(s, max)) <= max,
        forall|k: int|
            fitting(s, max).len() < k <= s.len() ==> byte_len(#[trigger] s.take(k)) > max,
    decreases s.len(),
{
    assert(s.take(s.len() as int) == s);
    if s.len() > 0 && byte_len(s) > max {
        let t = s.drop_last();
        fitting_is_longest(t, max);
        assert forall|k: int| fitting(s, max).len() < k <= s.len() implies byte_len(
            #[trigger] s.take(k),
        ) > max by {
            if k < s.len() {
                assert(t.take(k) == s.take(k));
            }
        }
    }
}

/// Cuts a text so that it takes at most `max_bytes` bytes, never inside a character.
pub fn truncate_utf8(s: &str, max_bytes: usize) -> (r: &str)
    ensures
        r@ == fitting(s@, max_bytes as nat),
{
    let ghost bytes = encode_utf8(s@);
    let b = s.as_bytes();
    if b.len() <= max_bytes {
        return s;
    }
    proof {
        encode_utf8_valid_utf8(s@);
    }
    let mut end: usize = max_bytes;
    while end > 0 && !s.is_char_boundary(end)
        invariant
            bytes == encode_utf8(s@),
            end <= max_bytes,
            forall|i: int| end < i <= max_bytes ==> !is_char_boundary(bytes, i),
        decreases end,
    {
        end -= 1;
    }
    let (head, tail) = s.split_at(end);
    proof {
        encode_utf8_decode_utf8(s@);
        encode_utf8_decode_utf8(head@);
        encode_utf8_decode_utf8(tail@);
        decode_utf8_split(bytes, end as int);
        let k = head@.len() as int;
        assert(s@ == head@ + tail@);
        assert(s@.take(k) == head@);
        assert forall|j: int| k < j <= s@.len() implies byte_len(#[trigger] s@.take(j))
            > max_bytes by {
            longer_takes_more(s@, k, j);
            prefix_is_boundary(s@, j);
        }
        fitting_is(s@, k, max_bytes as nat);
    }
    head
}

/// A text takes at least one byte for each character.
pub proof fn chars_at_most_bytes(s: Seq<char>)
    ensures
        s.len() <= byte_len(s),
    decreases s.len(),
{
    if s.len() > 0 {
        chars_at_most_bytes(s.drop_first());
        assert(encode_utf8(s) == encode_scalar(s[0] as u32) + encode_utf8(s.drop_first()));
    }
}

/// The length in bytes is that of the text in UTF-8.
pub proof fn length_is_that_of_the_bytes(s: Seq<char>)
    ensures
        byte_len(s) == encode_utf8(s).len(),
{
}

}
