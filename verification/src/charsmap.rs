//! Character maps of tokenizers: whether looking any text up in one stays within the map.
//!
//! A character map is kept as base64. It holds a trie over bytes, kept as an array of units, and
//! behind it the texts that characters are replaced by. The trie is walked one byte at a time: from
//! a unit, its offset and the byte together tell the next unit, which has the byte as its label if
//! the trie goes on there. A unit that ends a key has its value, which is a place in the texts, at
//! its own offset. No key of more than five bytes is looked up.

use vstd::prelude::*;

use crate::little_endian::{le_value, pow256_values, read_le};
use crate::text::{
    chars_of, only_the_run_at_the_end_goes, trim_end_matches, without_trailing,
};

verus! {

/// The longest key that is looked up, in bytes.
pub const MAX_KEY: usize = 5;

// Base64.

/// The value of a base64 digit.
pub open spec fn digit_value(c: char) -> Option<u8> {
    if 'A' <= c <= 'Z' {
        Some((c as u32 - 65) as u8)
    } else if 'a' <= c <= 'z' {
        Some((c as u32 - 97 + 26) as u8)
    } else if '0' <= c <= '9' {
        Some((c as u32 - 48 + 52) as u8)
    } else if c == '+' {
        Some(62u8)
    } else if c == '/' {
        Some(63u8)
    } else {
        None
    }
}

fn to_digit(c: char) -> (r: Option<u8>)
    ensures
        r == digit_value(c),
        r matches Some(v) ==> v < 64,
{
    let code: u32 = c as u32;
    if 65 <= code && code <= 90 {
        Some((code - 65) as u8)
    } else if 97 <= code && code <= 122 {
        Some((code - 97 + 26) as u8)
    } else if 48 <= code && code <= 57 {
        Some((code - 48 + 52) as u8)
    } else if c == '+' {
        Some(62)
    } else if c == '/' {
        Some(63)
    } else {
        None
    }
}

/// Byte `i` of what base64 digits stand for: four digits of six bits make three bytes.
pub open spec fn byte_from(digits: Seq<u8>, i: int) -> u8 {
    let d = i / 3 * 4;
    if i % 3 == 0 {
        (digits[d] * 4 + digits[d + 1] / 16) as u8
    } else if i % 3 == 1 {
        (digits[d + 1] % 16 * 16 + digits[d + 2] / 4) as u8
    } else {
        (digits[d + 2] % 4 * 64 + digits[d + 3]) as u8
    }
}

/// The bytes that base64 digits stand for.
pub open spec fn bytes_from(digits: Seq<u8>) -> Seq<u8> {
    Seq::new(digits.len() * 3 / 4, |i: int| byte_from(digits, i))
}

/// The values of base64 digits, if all characters of a text are some.
pub open spec fn digits_of(text: Seq<char>) -> Option<Seq<u8>>
    decreases text.len(),
{
    if text.len() == 0 {
        Some(Seq::empty())
    } else {
        match (digits_of(text.drop_last()), digit_value(text.last())) {
            (Some(digits), Some(v)) => Some(digits.push(v)),
            _ => None,
        }
    }
}

/// The bytes that a base64 text stands for, padding at its end left out.
pub open spec fn decoded(text: Seq<char>) -> Option<Seq<u8>> {
    match digits_of(without_trailing(text, '=')) {
        Some(digits) => Some(bytes_from(digits)),
        None => None,
    }
}

proof fn no_digits_stay(text: Seq<char>, n: int)
    requires
        0 <= n <= text.len(),
        digits_of(text.take(n)) is None,
    ensures
        digits_of(text) is None,
    decreases text.len(),
{
    if n < text.len() {
        assert(text.drop_last().take(n) == text.take(n));
        no_digits_stay(text.drop_last(), n);
    } else {
        assert(text.take(n) == text);
    }
}

/// The bytes that a base64 text stands for, padding at its end left out.
pub fn decode(text: &str) -> (r: Option<Vec<u8>>)
    ensures
        match r {
            Some(bytes) => decoded(text@) == Some(bytes@),
            None => decoded(text@) is None,
        },
{
    let bare = trim_end_matches(text, '=');
    let chars = chars_of(bare.as_str());
    let mut digits: Vec<u8> = Vec::new();
    assert(chars@.take(0) == Seq::<char>::empty());
    for i in 0..chars.len()
        invariant
            chars@ == without_trailing(text@, '='),
            digits@.len() == i,
            digits_of(chars@.take(i as int)) == Some(digits@),
            forall|k: int| 0 <= k < i ==> #[trigger] digits@[k] < 64,
    {
        assert(chars@.take(i + 1).drop_last() == chars@.take(i as int));
        match to_digit(chars[i]) {
            Some(v) => {
                digits.push(v);
            },
            None => {
                proof {
                    no_digits_stay(chars@, i + 1);
                }
                return None;
            },
        }
    }
    assert(chars@.take(chars@.len() as int) == chars@);
    let len: usize = digits.len();
    let full: usize = len / 4;
    let rest: usize = len % 4;
    let n: usize = full * 3 + rest * 3 / 4;
    let mut bytes: Vec<u8> = Vec::new();
    for i in 0..n
        invariant
            len == digits@.len(),
            n == len * 3 / 4,
            bytes@ == bytes_from(digits@).take(i as int),
            forall|k: int| 0 <= k < digits@.len() ==> #[trigger] digits@[k] < 64,
    {
        let d: usize = i / 3 * 4;
        let b: u8 = if i % 3 == 0 {
            digits[d] * 4 + digits[d + 1] / 16
        } else if i % 3 == 1 {
            digits[d + 1] % 16 * 16 + digits[d + 2] / 4
        } else {
            digits[d + 2] % 4 * 64 + digits[d + 3]
        };
        bytes.push(b);
        assert(bytes@ =~= bytes_from(digits@).take(i + 1));
    }
    assert(bytes@ =~= bytes_from(digits@));
    Some(bytes)
}

// The trie.

/// The label of a unit: a byte, or none where the unit is a value.
pub open spec fn label_of(unit: u32) -> u32 {
    unit & 0x8000_00ff
}

/// Whether a key ends at a unit.
pub open spec fn ends_key(unit: u32) -> bool {
    unit & 0x100 == 0x100
}

/// The offset of a unit.
pub open spec fn offset_of(unit: u32) -> u32 {
    if unit & 0x200 == 0x200 {
        (unit >> 10) << 8
    } else {
        unit >> 10
    }
}

/// The value that a unit holds.
pub open spec fn value_of(unit: u32) -> u32 {
    unit & 0x7fff_ffff
}

/// The place of the unit that a byte leads to from the unit at place `at`.
pub open spec fn led_to(units: Seq<u32>, at: int, c: u8) -> u32 {
    (at as u32 ^ offset_of(units[at])) ^ c as u32
}

/// The place of the value of the unit at place `at`.
pub open spec fn value_at(units: Seq<u32>, at: int) -> u32 {
    at as u32 ^ offset_of(units[at])
}

/// Whether a text begins at place `at` of the texts.
pub open spec fn begins_text(texts: Seq<u8>, at: int) -> bool {
    at == texts.len() || (0 <= at < texts.len() && !(128 <= texts[at] < 192))
}

/// Whether a byte leads from the unit at place `at` to a unit of the trie, which, if a key ends
/// there, has a value that is the beginning of a text.
pub open spec fn byte_is_sound(units: Seq<u32>, texts: Seq<u8>, at: int, c: u8) -> bool {
    let next = led_to(units, at, c);
    &&& next < units.len()
    &&& label_of(units[next as int]) == c && ends_key(units[next as int]) ==> {
        let place = value_at(units, next as int);
        place < units.len() && begins_text(texts, value_of(units[place as int]) as int)
    }
}

/// Whether some key of `n` bytes leads from the first unit to the one at place `at`.
pub open spec fn reached(units: Seq<u32>, at: int, n: nat) -> bool
    decreases n,
{
    if n == 0 {
        at == 0
    } else {
        exists|before: int, c: u8| #[trigger]
            leads(units, before, c, at) && reached(units, before, (n - 1) as nat)
    }
}

/// Whether a byte leads on from the unit at place `before` to the one at place `at`.
pub open spec fn leads(units: Seq<u32>, before: int, c: u8, at: int) -> bool {
    &&& 0 <= before < units.len()
    &&& 0 <= at < units.len()
    &&& c != 0
    &&& led_to(units, before, c) == at
    &&& label_of(units[at]) == c
}

/// Whether every byte is sound at every unit that a key of fewer bytes than the longest leads to.
pub open spec fn trie_is_sound(units: Seq<u32>, texts: Seq<u8>) -> bool {
    &&& 0 < units.len()
    &&& forall|at: int, n: nat, c: u8|
        n < MAX_KEY && reached(units, at, n) && c != 0 ==> #[trigger] byte_sound_at(
            units,
            texts,
            at,
            n,
            c,
        )
}

/// Whether a byte is sound at a unit that a key of `n` bytes leads to.
pub open spec fn byte_sound_at(
    units: Seq<u32>,
    texts: Seq<u8>,
    at: int,
    n: nat,
    c: u8,
) -> bool {
    byte_is_sound(units, texts, at, c)
}

fn to_offset(unit: u32) -> (r: u32)
    ensures
        r == offset_of(unit),
{
    if unit & 0x200 == 0x200 {
        (unit >> 10) << 8
    } else {
        unit >> 10
    }
}

fn check_byte(units: &Vec<u32>, texts: &[u8], at: usize, c: u8) -> (r: bool)
    requires
        at < units@.len() <= u32::MAX,
    ensures
        r == byte_is_sound(units@, texts@, at as int, c),
{
    let n: usize = units.len();
    let next: u32 = (at as u32 ^ to_offset(units[at])) ^ c as u32;
    if next as usize >= n {
        return false;
    }
    let unit: u32 = units[next as usize];
    if unit & 0x8000_00ff == c as u32 && unit & 0x100 == 0x100 {
        let place: u32 = next ^ to_offset(unit);
        if place as usize >= n {
            return false;
        }
        let start: usize = (units[place as usize] & 0x7fff_ffff) as usize;
        let len: usize = texts.len();
        if start > len {
            return false;
        }
        if start < len && 128 <= texts[start] && texts[start] < 192 {
            return false;
        }
    }
    true
}

/// No unit marked.
fn no_marks(n: usize) -> (r: Vec<bool>)
    ensures
        r@ == Seq::new(n as nat, |i: int| false),
{
    let mut marks: Vec<bool> = Vec::new();
    for i in 0..n
        invariant
            marks@ == Seq::new(i as nat, |k: int| false),
    {
        marks.push(false);
    }
    marks
}

/// Checks every byte at the unit at place `at`, and marks the units that they lead on to.
fn check_unit(units: &Vec<u32>, texts: &[u8], at: usize, marks: &mut Vec<bool>) -> (r: bool)
    requires
        at < units@.len() <= u32::MAX,
        old(marks)@.len() == units@.len(),
    ensures
        final(marks)@.len() == units@.len(),
        r <==> forall|c: u8| c != 0 ==> #[trigger] byte_is_sound(units@, texts@, at as int, c),
        r ==> forall|i: int|
            0 <= i < units@.len() ==> (#[trigger] final(marks)@[i] <==> old(marks)@[i]
                || exists|c: u8| #[trigger] leads(units@, at as int, c, i)),
{
    let n: usize = units.len();
    let mut c: u8 = 0;
    while c < 255
        invariant
            n == units@.len(),
            at < n <= u32::MAX,
            marks@.len() == n,
            forall|x: u8|
                0 < x <= c ==> #[trigger] byte_is_sound(units@, texts@, at as int, x),
            forall|i: int|
                0 <= i < n ==> (#[trigger] marks@[i] <==> old(marks)@[i] || exists|x: u8|
                    x <= c && #[trigger] leads(units@, at as int, x, i)),
        decreases 255 - c,
    {
        let ghost c0 = c;
        let ghost before = marks@;
        c += 1;
        if !check_byte(units, texts, at, c) {
            assert(!byte_is_sound(units@, texts@, at as int, c));
            return false;
        }
        let next: usize = ((at as u32 ^ to_offset(units[at])) ^ c as u32) as usize;
        let on = units[next] & 0x8000_00ff == c as u32;
        if on {
            marks.set(next, true);
        }
        proof {
            assert(on == leads(units@, at as int, c, next as int));
            assert forall|i: int| 0 <= i < n implies (#[trigger] marks@[i] <==> old(marks)@[i]
                || exists|x: u8| x <= c && #[trigger] leads(units@, at as int, x, i)) by {
                assert(before[i] <==> old(marks)@[i] || exists|x: u8|
                    x <= c0 && #[trigger] leads(units@, at as int, x, i));
                if i == next && on {
                    assert(leads(units@, at as int, c, i));
                }
                if before[i] && !old(marks)@[i] {
                    let x = choose|x: u8| x <= c0 && #[trigger] leads(units@, at as int, x, i);
                    assert(x <= c && leads(units@, at as int, x, i));
                }
            }
        }
    }
    true
}

/// Checks every byte at every marked unit. Returns the units that they lead on to, if all are sound.
fn check_level(units: &Vec<u32>, texts: &[u8], current: &Vec<bool>) -> (r: Option<Vec<bool>>)
    requires
        units@.len() <= u32::MAX,
        current@.len() == units@.len(),
    ensures
        match r {
            Some(next) => {
                &&& next@.len() == units@.len()
                &&& forall|at: int, c: u8|
                    0 <= at < units@.len() && current@[at] && c != 0 ==> #[trigger] byte_is_sound(
                        units@,
                        texts@,
                        at,
                        c,
                    )
                &&& forall|i: int|
                    0 <= i < units@.len() ==> (#[trigger] next@[i] <==> exists|at: int, c: u8|
                        #[trigger] leads(units@, at, c, i) && current@[at])
            },
            None => exists|at: int, c: u8|
                0 <= at < units@.len() && current@[at] && c != 0 && !(#[trigger] byte_is_sound(
                    units@,
                    texts@,
                    at,
                    c,
                )),
        },
{
    let n: usize = units.len();
    let mut next = no_marks(n);
    for at in 0..n
        invariant
            n == units@.len() <= u32::MAX,
            current@.len() == n,
            next@.len() == n,
            forall|a: int, c: u8|
                0 <= a < at && current@[a] && c != 0 ==> #[trigger] byte_is_sound(
                    units@,
                    texts@,
                    a,
                    c,
                ),
            forall|i: int|
                0 <= i < n ==> (#[trigger] next@[i] <==> exists|a: int, c: u8|
                    #[trigger] leads(units@, a, c, i) && a < at && current@[a]),
    {
        let ghost before = next@;
        if current[at] {
            if !check_unit(units, texts, at, &mut next) {
                return None;
            }
        }
        proof {
            assert forall|i: int| 0 <= i < n implies (#[trigger] next@[i] <==> exists|
                a: int,
                c: u8,
            | #[trigger] leads(units@, a, c, i) && a < at + 1 && current@[a]) by {
                assert(before[i] <==> exists|a: int, c: u8|
                    #[trigger] leads(units@, a, c, i) && a < at && current@[a]);
                if before[i] {
                    let (a, c) = choose|a: int, c: u8|
                        #[trigger] leads(units@, a, c, i) && a < at && current@[a];
                    assert(leads(units@, a, c, i) && a < at + 1 && current@[a]);
                }
                if current@[at as int] && (exists|c: u8|
                    #[trigger] leads(units@, at as int, c, i)) {
                    let c = choose|c: u8| #[trigger] leads(units@, at as int, c, i);
                    assert(leads(units@, at as int, c, i));
                }
            }
        }
    }
    Some(next)
}

/// Whether the units that a key of `n` bytes leads to are the marked ones.
spec fn marks_reached(units: Seq<u32>, marks: Seq<bool>, n: nat) -> bool {
    &&& marks.len() == units.len()
    &&& forall|i: int| 0 <= i < units.len() ==> (#[trigger] marks[i] <==> reached(units, i, n))
}

proof fn reached_is_in(units: Seq<u32>, at: int, n: nat)
    requires
        units.len() > 0,
        reached(units, at, n),
    ensures
        0 <= at < units.len(),
{
    if n > 0 {
        let (before, c) = choose|before: int, c: u8| #[trigger]
            leads(units, before, c, at) && reached(units, before, (n - 1) as nat);
        assert(leads(units, before, c, at));
    }
}

fn check_trie(units: &Vec<u32>, texts: &[u8]) -> (r: bool)
    requires
        units@.len() <= u32::MAX,
    ensures
        r == trie_is_sound(units@, texts@),
{
    let n: usize = units.len();
    if n == 0 {
        return false;
    }
    let mut marks = no_marks(n);
    marks.set(0, true);
    for k in 0..MAX_KEY
        invariant
            0 < n == units@.len() <= u32::MAX,
            marks_reached(units@, marks@, k as nat),
            forall|at: int, m: nat, c: u8|
                m < k && reached(units@, at, m) && c != 0 ==> #[trigger] byte_sound_at(
                    units@,
                    texts@,
                    at,
                    m,
                    c,
                ),
    {
        let ghost current = marks@;
        match check_level(units, texts, &marks) {
            Some(next) => {
                marks = next;
            },
            None => {
                proof {
                    let (at, c) = choose|at: int, c: u8|
                        0 <= at < units@.len() && current[at] && c != 0 && !(
                        #[trigger] byte_is_sound(units@, texts@, at, c));
                    assert(reached(units@, at, k as nat));
                    assert(!byte_sound_at(units@, texts@, at, k as nat, c));
                }
                return false;
            },
        }
        proof {
            assert forall|i: int| 0 <= i < n implies (#[trigger] marks@[i] <==> reached(
                units@,
                i,
                (k + 1) as nat,
            )) by {
                if marks@[i] {
                    let (at, c) = choose|at: int, c: u8|
                        #[trigger] leads(units@, at, c, i) && current[at];
                    assert(leads(units@, at, c, i) && reached(units@, at, k as nat));
                }
                if reached(units@, i, (k + 1) as nat) {
                    let (at, c) = choose|at: int, c: u8| #[trigger]
                        leads(units@, at, c, i) && reached(units@, at, k as nat);
                    assert(leads(units@, at, c, i) && current[at]);
                }
            }
            assert forall|at: int, m: nat, c: u8|
                m < k + 1 && reached(units@, at, m) && c != 0 implies #[trigger] byte_sound_at(
                units@,
                texts@,
                at,
                m,
                c,
            ) by {
                reached_is_in(units@, at, m);
                if m == k {
                    assert(current[at]);
                    assert(byte_is_sound(units@, texts@, at, c));
                }
            }
        }
    }
    true
}

// The map.

/// How many units the trie of a map has.
pub open spec fn unit_count(map: Seq<u8>) -> nat {
    le_value(map.take(4)) / 4
}

/// The units of the trie of a map.
pub open spec fn units_of(map: Seq<u8>) -> Seq<u32> {
    Seq::new(
        unit_count(map),
        |i: int| le_value(map.subrange(4 + 4 * i, 8 + 4 * i)) as u32,
    )
}

/// Whether looking any text up in a map stays within the map.
pub open spec fn map_is_sound(map: Seq<u8>) -> bool {
    &&& map.len() >= 4
    &&& 4 + 4 * unit_count(map) <= map.len()
    &&& trie_is_sound(units_of(map), map.skip(4 + 4 * unit_count(map) as int))
}

/// Whether looking any text up in a map, given as base64, stays within the map.
pub open spec fn text_is_sound(text: Seq<char>) -> bool {
    decoded(text) matches Some(map) && map_is_sound(map)
}

/// Whether looking any text up in a map stays within the map.
pub fn check_map(map: &Vec<u8>) -> (r: bool)
    ensures
        r == map_is_sound(map@),
{
    let len: usize = map.len();
    if len < 4 {
        return false;
    }
    let data = map.as_slice();
    let size: u64 = read_le(data, 0, 4);
    let count: u64 = size / 4;
    proof {
        pow256_values();
    }
    if count > (len as u64 - 4) / 4 {
        return false;
    }
    let n: usize = count as usize;
    let mut units: Vec<u32> = Vec::new();
    for i in 0..n
        invariant
            len == data@.len(),
            data@ == map@,
            n == unit_count(map@),
            4 + 4 * n <= len,
            units@ == units_of(map@).take(i as int),
    {
        let unit: u64 = read_le(data, 4 + 4 * i, 4);
        proof {
            pow256_values();
        }
        units.push(unit as u32);
        assert(units@ =~= units_of(map@).take(i + 1));
    }
    assert(units@ =~= units_of(map@));
    let texts = vstd::slice::slice_subrange(data, 4 + 4 * n, len);
    assert(texts@ == map@.skip(4 + 4 * n as int));
    check_trie(&units, texts)
}

/// Whether looking any text up in a map, given as base64, stays within the map.
pub fn check_text(text: &str) -> (r: bool)
    ensures
        r == text_is_sound(text@),
{
    match decode(text) {
        Some(map) => check_map(&map),
        None => false,
    }
}

// Laws.

/// Four base64 digits and three bytes are the same number, once in base 64 and once in base 256.
pub proof fn four_digits_are_three_bytes(digits: Seq<u8>, group: int)
    requires
        0 <= group,
        4 * group + 4 <= digits.len(),
        forall|k: int| 0 <= k < digits.len() ==> #[trigger] digits[k] < 64,
    ensures
        ({
            let bytes = bytes_from(digits);
            let (d, b) = (4 * group, 3 * group);
            &&& bytes.len() == digits.len() * 3 / 4
            &&& digits[d] * 262144 + digits[d + 1] * 4096 + digits[d + 2] * 64 + digits[d + 3]
                == bytes[b] * 65536 + bytes[b + 1] * 256 + bytes[b + 2]
        }),
{
    let bytes = bytes_from(digits);
    let (d, b) = (4 * group, 3 * group);
    assert(b / 3 * 4 == d && b % 3 == 0);
    assert((b + 1) / 3 * 4 == d && (b + 1) % 3 == 1);
    assert((b + 2) / 3 * 4 == d && (b + 2) % 3 == 2);
    let (x, y, z, w) = (digits[d], digits[d + 1], digits[d + 2], digits[d + 3]);
    assert(x < 64 && y < 64 && z < 64 && w < 64);
    assert(bytes[b] == x * 4 + y / 16);
    assert(bytes[b + 1] == y % 16 * 16 + z / 4);
    assert(bytes[b + 2] == z % 4 * 64 + w);
}

/// The digits of base64 are the letters, the figures, the plus sign and the slash, in this order. A
/// text of them is decoded whatever padding stands behind it, digit by digit.
pub proof fn digits_are_read_one_by_one(text: Seq<char>, c: char, padding: Seq<char>)
    requires
        forall|i: int| 0 <= i < padding.len() ==> #[trigger] padding[i] == '=',
    ensures
        ({
            let order = "ABCDEFGHIJKLMNOPQRSTUVWXYZabcdefghijklmnopqrstuvwxyz0123456789+/"@;
            &&& order.contains(c) <==> digit_value(c) is Some
            &&& digit_value(c) matches Some(v) ==> v < 64 && order[v as int] == c
            &&& digits_of(text.push(c)) is Some <==> digits_of(text) is Some && order.contains(c)
            &&& digits_of(text.push(c)) is Some ==> ({
                let all = digits_of(text.push(c))->Some_0;
                &&& all.drop_last() == digits_of(text)->Some_0
                &&& all.len() == text.len() + 1
                &&& order[all.last() as int] == c
                &&& decoded(text.push(c) + padding) == Some(bytes_from(all))
            })
        }),
    decreases text.len(),
{
    let order = "ABCDEFGHIJKLMNOPQRSTUVWXYZabcdefghijklmnopqrstuvwxyz0123456789+/"@;
    reveal_strlit("ABCDEFGHIJKLMNOPQRSTUVWXYZabcdefghijklmnopqrstuvwxyz0123456789+/");
    assert(text.push(c).drop_last() =~= text);
    if digit_value(c) is Some {
        let v = digit_value(c)->Some_0;
        assert(order[v as int] == c);
    }
    if order.contains(c) {
        let k = choose|k: int| 0 <= k < order.len() && order[k] == c;
        assert(digit_value(order[k]) is Some);
    }
    if digits_of(text.push(c)) is Some {
        let all = digits_of(text.push(c))->Some_0;
        assert(all.drop_last() =~= digits_of(text)->Some_0);
        digits_have_the_length_of_the_text(text);
        let whole = text.push(c) + padding;
        let bare = without_trailing(whole, '=');
        only_the_run_at_the_end_goes(whole, '=');
        assert(whole[text.len() as int] == c);
        assert(bare.len() > text.len());
        if bare.len() > text.len() + 1 {
            assert(bare.last() == whole[bare.len() - 1]);
            assert(whole[bare.len() - 1] == padding[bare.len() - 1 - text.len() - 1]);
        }
        assert(bare =~= text.push(c));
    }
}

proof fn digits_have_the_length_of_the_text(text: Seq<char>)
    requires
        digits_of(text) is Some,
    ensures
        digits_of(text)->Some_0.len() == text.len(),
    decreases text.len(),
{
    if text.len() > 0 {
        digits_have_the_length_of_the_text(text.drop_last());
    }
}

/// A lookup in a sound trie never leaves it: a byte behind any key that can be looked up leads to a
/// unit of the trie. If that byte is the unit's label, the key that is one byte longer leads there,
/// and if a key ends there, its value is a unit of the trie too, and says where a text begins.
pub proof fn sound_trie_is_never_left(
    units: Seq<u32>,
    texts: Seq<u8>,
    at: int,
    n: nat,
    c: u8,
)
    requires
        trie_is_sound(units, texts),
        reached(units, at, n),
        n < 5,
        c != 0,
    ensures
        reached(units, 0, 0),
        0 <= at < units.len(),
        ({
            let unit = units[at];
            let offset = if unit & 0x200 == 0x200 {
                (unit >> 10) << 8
            } else {
                unit >> 10
            };
            let next = (at as u32 ^ offset) ^ c as u32;
            &&& next < units.len()
            &&& units[next as int] & 0x8000_00ff == c ==> {
                &&& reached(units, next as int, n + 1)
                &&& units[next as int] & 0x100 == 0x100 ==> ({
                    let further = if units[next as int] & 0x200 == 0x200 {
                        (units[next as int] >> 10) << 8
                    } else {
                        units[next as int] >> 10
                    };
                    let place = next ^ further;
                    &&& place < units.len()
                    &&& ({
                        let start = (units[place as int] & 0x7fff_ffff) as int;
                        start == texts.len() || (start < texts.len() && !(128 <= texts[start]
                            < 192))
                    })
                })
            }
        }),
{
    reached_is_in(units, at, n);
    assert(byte_sound_at(units, texts, at, n, c));
    let next = led_to(units, at, c);
    if label_of(units[next as int]) == c {
        assert(leads(units, at, c, next as int) && reached(units, at, n));
    }
}

/// A trie that no byte leads out of, and whose values all are the end of the texts, is sound.
pub proof fn trie_without_a_way_out_is_sound(units: Seq<u32>, texts: Seq<u8>)
    requires
        units.len() > 0,
        forall|at: int, c: u8|
            0 <= at < units.len() && c != 0 ==> ({
                let next = #[trigger] led_to(units, at, c);
                &&& next < units.len()
                &&& units[next as int] & 0x100 == 0x100 ==> ({
                    let place = value_at(units, next as int);
                    place < units.len() && (units[place as int] & 0x7fff_ffff) as int
                        == texts.len()
                })
            }),
    ensures
        trie_is_sound(units, texts),
{
    assert forall|at: int, n: nat, c: u8|
        n < MAX_KEY && reached(units, at, n) && c != 0 implies #[trigger] byte_sound_at(
        units,
        texts,
        at,
        n,
        c,
    ) by {
        reached_is_in(units, at, n);
        let next = led_to(units, at, c);
        assert(next < units.len());
    }
}

/// The layout of a map: the size of the trie in bytes, in the first four, then the units, four
/// bytes each, lowest byte first, and then the texts.
pub proof fn map_is_units_then_texts(map: Seq<u8>)
    requires
        map_is_sound(map),
    ensures
        ({
            let size = map[0] + 256 * map[1] + 65536 * map[2] + 16777216 * map[3];
            let n = size / 4;
            &&& 0 < n
            &&& 4 + 4 * n <= map.len()
            &&& exists|units: Seq<u32>, texts: Seq<u8>|
                {
                    &&& #[trigger] trie_is_sound(units, texts)
                    &&& units.len() == n
                    &&& texts == map.skip(4 + 4 * n)
                    &&& forall|i: int|
                        0 <= i < n ==> #[trigger] units[i] == map[4 + 4 * i] + 256 * map[5 + 4 * i]
                            + 65536 * map[6 + 4 * i] + 16777216 * map[7 + 4 * i]
                }
        }),
{
    four_bytes(map.take(4));
    let n = unit_count(map) as int;
    let units = units_of(map);
    assert(trie_is_sound(units, map.skip(4 + 4 * n)));
    assert forall|i: int| 0 <= i < n implies #[trigger] units[i] == map[4 + 4 * i] + 256 * map[5 + 4
        * i] + 65536 * map[6 + 4 * i] + 16777216 * map[7 + 4 * i] by {
        four_bytes(map.subrange(4 + 4 * i, 8 + 4 * i));
    }
}

proof fn four_bytes(s: Seq<u8>)
    requires
        s.len() == 4,
    ensures
        le_value(s) == s[0] + 256 * s[1] + 65536 * s[2] + 16777216 * s[3],
{
    let a = s.drop_first();
    let b = a.drop_first();
    let c = b.drop_first();
    assert(le_value(c.drop_first()) == 0);
    assert(le_value(c) == s[3]);
    assert(le_value(b) == s[2] + 256 * s[3]);
    assert(le_value(a) == s[1] + 256 * (s[2] + 256 * s[3]));
}

}
