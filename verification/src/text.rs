//! Text on the level of characters: trimming, splitting, joining, and decimal numbers.
//!
//! Contracts speak of a text as the sequence of its characters.

use vstd::prelude::*;
use vstd::string::StringExecFns;

verus! {

/// `String::push` appends the given character to the end of the string.
pub assume_specification[ String::push ](s: &mut String, c: char)
    ensures
        final(s)@ == old(s)@.push(c),
;

/// The characters with Unicode's `White_Space` property.
pub open spec fn is_white(c: char) -> bool {
    ||| '\u{9}' <= c <= '\u{d}'
    ||| c == ' '
    ||| c == '\u{85}'
    ||| c == '\u{a0}'
    ||| c == '\u{1680}'
    ||| '\u{2000}' <= c <= '\u{200a}'
    ||| c == '\u{2028}'
    ||| c == '\u{2029}'
    ||| c == '\u{202f}'
    ||| c == '\u{205f}'
    ||| c == '\u{3000}'
}

/// Whether a character is white space.
pub fn is_whitespace(c: char) -> (r: bool)
    ensures
        r == is_white(c),
{
    ('\u{9}' <= c && c <= '\u{d}') || c == ' ' || c == '\u{85}' || c == '\u{a0}' || c == '\u{1680}'
        || ('\u{2000}' <= c && c <= '\u{200a}') || c == '\u{2028}' || c == '\u{2029}' || c
        == '\u{202f}' || c == '\u{205f}' || c == '\u{3000}'
}

/// What a text is cut at.
#[derive(Clone, Copy)]
pub enum Separator {
    /// One given character.
    Char(char),
    /// Any white space character.
    White,
}

impl Separator {
    /// Whether `c` separates.
    pub open spec fn separates(self, c: char) -> bool {
        match self {
            Separator::Char(x) => c == x,
            Separator::White => is_white(c),
        }
    }

    fn is_at(&self, c: char) -> (r: bool)
        ensures
            r == self.separates(c),
    {
        match self {
            Separator::Char(x) => c == *x,
            Separator::White => is_whitespace(c),
        }
    }
}

/// The characters of each string.
pub open spec fn texts(v: Seq<String>) -> Seq<Seq<char>> {
    v.map_values(|s: String| s@)
}

/// The characters of a string, if there is one.
pub open spec fn text_view(s: Option<String>) -> Option<Seq<char>> {
    match s {
        Some(s) => Some(s@),
        None => None,
    }
}

/// The pieces between separators: one more than there are separators, empty ones included.
pub open spec fn pieces(s: Seq<char>, sep: Separator) -> Seq<Seq<char>>
    decreases s.len(),
{
    if s.len() == 0 {
        seq![Seq::<char>::empty()]
    } else {
        let before = pieces(s.drop_last(), sep);
        if sep.separates(s.last()) {
            before.push(Seq::<char>::empty())
        } else {
            before.drop_last().push(before.last().push(s.last()))
        }
    }
}

/// The non-empty pieces of `s` between white space.
pub open spec fn words(s: Seq<char>) -> Seq<Seq<char>> {
    pieces(s, Separator::White).filter(|w: Seq<char>| w.len() > 0)
}

/// There is always at least one piece.
pub proof fn pieces_nonempty(s: Seq<char>, sep: Separator)
    ensures
        pieces(s, sep).len() > 0,
    decreases s.len(),
{
    if s.len() > 0 {
        pieces_nonempty(s.drop_last(), sep);
    }
}

/// The characters of a text, in order.
pub fn chars_of(s: &str) -> (r: Vec<char>)
    ensures
        r@ == s@,
{
    let mut v: Vec<char> = Vec::new();
    for c in it: s.chars()
        invariant
            v@ == s@.take(it.index() as int),
            it.seq() == s@,
    {
        v.push(c);
        assert(s@.take(it.index() + 1) == s@.take(it.index() as int).push(c));
    }
    assert(s@.take(s@.len() as int) == s@);
    v
}

/// Cuts a text at every separator.
pub fn split(s: &str, sep: Separator) -> (r: Vec<String>)
    ensures
        texts(r@) == pieces(s@, sep),
{
    let mut done: Vec<String> = Vec::new();
    let mut current: String = String::new();
    assert(texts(done@).push(current@) == pieces(s@.take(0), sep));
    for c in it: s.chars()
        invariant
            it.seq() == s@,
            texts(done@).push(current@) == pieces(s@.take(it.index() as int), sep),
    {
        let ghost i = it.index() as int;
        assert(s@.take(i + 1).drop_last() == s@.take(i));
        let ghost before = pieces(s@.take(i), sep);
        assert(before.drop_last() == texts(done@));
        assert(before.last() == current@);
        if sep.is_at(c) {
            let ghost d0 = done@;
            done.push(current);
            assert(texts(done@) == texts(d0).push(current@));
            current = String::new();
        } else {
            current.push(c);
        }
    }
    assert(s@.take(s@.len() as int) == s@);
    let ghost d0 = done@;
    done.push(current);
    assert(texts(done@) == texts(d0).push(current@));
    done
}

/// The words of a text: its non-empty pieces between white space.
pub fn split_whitespace(s: &str) -> (r: Vec<String>)
    ensures
        texts(r@) == words(s@),
{
    let all = split(s, Separator::White);
    let mut kept: Vec<String> = Vec::new();
    let ghost keep = |w: Seq<char>| w.len() > 0;
    reveal(Seq::filter);
    for i in 0..all.len()
        invariant
            texts(kept@) == texts(all@).take(i as int).filter(keep),
            keep == (|w: Seq<char>| w.len() > 0),
    {
        let ghost k0 = kept@;
        assert(texts(all@).take(i + 1).drop_last() == texts(all@).take(i as int));
        reveal(Seq::filter);
        if !all[i].as_str().is_empty() {
            kept.push(all[i].clone());
            assert(texts(kept@) == texts(k0).push(all@[i as int]@));
        }
    }
    assert(texts(all@).take(all@.len() as int) == texts(all@));
    kept
}

/// `s` without the white space at its start.
pub open spec fn trim_start(s: Seq<char>) -> Seq<char>
    decreases s.len(),
{
    if s.len() > 0 && is_white(s[0]) {
        trim_start(s.drop_first())
    } else {
        s
    }
}

/// `s` without the white space at its end.
pub open spec fn trim_end(s: Seq<char>) -> Seq<char>
    decreases s.len(),
{
    if s.len() > 0 && is_white(s.last()) {
        trim_end(s.drop_last())
    } else {
        s
    }
}

/// `s` without the white space at either end.
pub open spec fn trimmed(s: Seq<char>) -> Seq<char> {
    trim_end(trim_start(s))
}

/// The string made of the given characters.
pub fn string_of(chars: &Vec<char>, from: usize, to: usize) -> (r: String)
    requires
        from <= to <= chars@.len(),
    ensures
        r@ == chars@.subrange(from as int, to as int),
{
    let mut s: String = String::new();
    for i in from..to
        invariant
            from <= to <= chars@.len(),
            s@ == chars@.subrange(from as int, i as int),
    {
        s.push(chars[i]);
        assert(chars@.subrange(from as int, i + 1) == chars@.subrange(from as int, i as int).push(
            chars@[i as int],
        ));
    }
    s
}

/// Removes the white space at both ends of a text.
pub fn trim(s: &str) -> (r: String)
    ensures
        r@ == trimmed(s@),
{
    let chars = chars_of(s);
    let mut lo: usize = 0;
    assert(s@.skip(0) == s@);
    while lo < chars.len() && is_whitespace(chars[lo])
        invariant
            chars@ == s@,
            lo <= chars@.len(),
            trim_start(s@) == trim_start(s@.skip(lo as int)),
        decreases chars@.len() - lo,
    {
        assert(s@.skip(lo as int).drop_first() == s@.skip(lo + 1));
        lo += 1;
    }
    let ghost front = s@.skip(lo as int);
    assert(trim_start(s@) == front);
    let mut hi: usize = chars.len();
    assert(front == s@.subrange(lo as int, hi as int));
    while hi > lo && is_whitespace(chars[hi - 1])
        invariant
            chars@ == s@,
            lo <= hi <= chars@.len(),
            trim_end(front) == trim_end(s@.subrange(lo as int, hi as int)),
        decreases hi,
    {
        assert(s@.subrange(lo as int, hi as int).drop_last() == s@.subrange(lo as int, hi - 1));
        hi -= 1;
    }
    string_of(&chars, lo, hi)
}

/// The parts one after the other, with `sep` between each two.
pub open spec fn joined(parts: Seq<Seq<char>>, sep: Seq<char>) -> Seq<char>
    decreases parts.len(),
{
    if parts.len() == 0 {
        Seq::empty()
    } else if parts.len() == 1 {
        parts[0]
    } else {
        joined(parts.drop_last(), sep) + sep + parts.last()
    }
}

/// Joins texts with a separator between each two.
pub fn join(parts: &Vec<String>, sep: &str) -> (r: String)
    ensures
        r@ == joined(texts(parts@), sep@),
{
    let mut out: String = String::new();
    for i in 0..parts.len()
        invariant
            out@ == joined(texts(parts@).take(i as int), sep@),
    {
        assert(texts(parts@).take(i + 1).drop_last() == texts(parts@).take(i as int));
        if i > 0 {
            out.append(sep);
        }
        out.append(parts[i].as_str());
    }
    assert(texts(parts@).take(parts@.len() as int) == texts(parts@));
    out
}

/// `s` with `to` in place of every `from`.
pub open spec fn replaced_char(s: Seq<char>, from: char, to: Seq<char>) -> Seq<char>
    decreases s.len(),
{
    if s.len() == 0 {
        Seq::empty()
    } else if s.last() == from {
        replaced_char(s.drop_last(), from, to) + to
    } else {
        replaced_char(s.drop_last(), from, to).push(s.last())
    }
}

/// Puts a text in place of every occurrence of one character.
pub fn replace_char(s: &str, from: char, to: &str) -> (r: String)
    ensures
        r@ == replaced_char(s@, from, to@),
{
    let mut out: String = String::new();
    for c in it: s.chars()
        invariant
            it.seq() == s@,
            out@ == replaced_char(s@.take(it.index() as int), from, to@),
    {
        assert(s@.take(it.index() + 1).drop_last() == s@.take(it.index() as int));
        if c == from {
            out.append(to);
        } else {
            out.push(c);
        }
    }
    assert(s@.take(s@.len() as int) == s@);
    out
}

/// `s` without the run of `c` at its end.
pub open spec fn without_trailing(s: Seq<char>, c: char) -> Seq<char>
    decreases s.len(),
{
    if s.len() > 0 && s.last() == c {
        without_trailing(s.drop_last(), c)
    } else {
        s
    }
}

/// Removes every `c` at the end of a text.
pub fn trim_end_matches(s: &str, c: char) -> (r: String)
    ensures
        r@ == without_trailing(s@, c),
{
    let chars = chars_of(s);
    let mut hi: usize = chars.len();
    assert(s@.take(hi as int) == s@);
    while hi > 0 && chars[hi - 1] == c
        invariant
            chars@ == s@,
            hi <= chars@.len(),
            without_trailing(s@, c) == without_trailing(s@.take(hi as int), c),
        decreases hi,
    {
        assert(s@.take(hi as int).drop_last() == s@.take(hi - 1));
        hi -= 1;
    }
    assert(s@.subrange(0, hi as int) == s@.take(hi as int));
    string_of(&chars, 0, hi)
}

/// The part of a path behind its last slash, slashes at its end left out.
pub open spec fn last_part(path: Seq<char>) -> Seq<char> {
    pieces(without_trailing(path, '/'), Separator::Char('/')).last()
}

/// The part of a path behind its last slash, slashes at its end left out.
pub fn file_part(path: &str) -> (r: String)
    ensures
        r@ == last_part(path@),
{
    let bare = trim_end_matches(path, '/');
    let parts = split(bare.as_str(), Separator::Char('/'));
    proof {
        pieces_nonempty(bare@, Separator::Char('/'));
        assert(texts(parts@).len() == parts@.len());
    }
    parts[parts.len() - 1].clone()
}

/// Whether a text holds a character.
pub fn contains_char(s: &str, c: char) -> (r: bool)
    ensures
        r == s@.contains(c),
{
    let chars = chars_of(s);
    for i in 0..chars.len()
        invariant
            chars@ == s@,
            forall|j: int| 0 <= j < i ==> s@[j] != c,
    {
        if chars[i] == c {
            assert(s@[i as int] == c);
            return true;
        }
    }
    false
}

/// Whether two texts are the same.
pub fn same_text(a: &str, b: &str) -> (r: bool)
    ensures
        r == (a@ == b@),
{
    let x: String = a.to_owned();
    let y: String = b.to_owned();
    x == y
}

/// Whether no character is white space.
pub open spec fn is_solid(w: Seq<char>) -> bool {
    forall|i: int| 0 <= i < w.len() ==> !is_white(#[trigger] w[i])
}

proof fn pieces_are_solid(s: Seq<char>)
    ensures
        forall|i: int|
            0 <= i < pieces(s, Separator::White).len() ==> is_solid(
                #[trigger] pieces(s, Separator::White)[i],
            ),
    decreases s.len(),
{
    pieces_nonempty(s, Separator::White);
    if s.len() > 0 {
        pieces_are_solid(s.drop_last());
        pieces_nonempty(s.drop_last(), Separator::White);
        let before = pieces(s.drop_last(), Separator::White);
        assert(is_solid(before[before.len() - 1]));
    }
}

/// What a filter keeps is in the sequence and is to be kept.
pub proof fn kept_is_in(ws: Seq<Seq<char>>, keep: spec_fn(Seq<char>) -> bool)
    ensures
        forall|i: int|
            0 <= i < ws.filter(keep).len() ==> keep(#[trigger] ws.filter(keep)[i]) && ws.contains(
                ws.filter(keep)[i],
            ),
    decreases ws.len(),
{
    reveal(Seq::filter);
    if ws.len() > 0 {
        let front = ws.drop_last();
        kept_is_in(front, keep);
        assert forall|i: int| 0 <= i < ws.filter(keep).len() implies keep(
            #[trigger] ws.filter(keep)[i],
        ) && ws.contains(ws.filter(keep)[i]) by {
            if i < front.filter(keep).len() {
                let w = front.filter(keep)[i];
                let k = choose|k: int| 0 <= k < front.len() && front[k] == w;
                assert(ws[k] == w);
            } else {
                assert(ws[ws.len() - 1] == ws.last());
            }
        }
    }
}

/// Words are not empty and hold no white space.
pub proof fn words_are_solid(s: Seq<char>)
    ensures
        forall|i: int|
            0 <= i < words(s).len() ==> is_solid(#[trigger] words(s)[i]) && words(s)[i].len() > 0,
{
    let all = pieces(s, Separator::White);
    let keep = |w: Seq<char>| w.len() > 0;
    pieces_are_solid(s);
    kept_is_in(all, keep);
    assert forall|i: int| 0 <= i < words(s).len() implies is_solid(#[trigger] words(s)[i])
        && words(s)[i].len() > 0 by {
        assert(words(s)[i] == all.filter(keep)[i]);
    }
}

proof fn pieces_behind_blank(a: Seq<char>, w: Seq<char>)
    requires
        is_solid(w),
    ensures
        pieces(a + seq![' '] + w, Separator::White) == pieces(a, Separator::White).push(w),
    decreases w.len(),
{
    let s = a + seq![' '] + w;
    if w.len() == 0 {
        assert(s.drop_last() == a);
        assert(w == Seq::<char>::empty());
    } else {
        assert(s.drop_last() == a + seq![' '] + w.drop_last());
        pieces_behind_blank(a, w.drop_last());
        assert(w.drop_last().push(w.last()) == w);
        assert(pieces(s, Separator::White) == pieces(a, Separator::White).push(w));
    }
}

proof fn pieces_of_solid(w: Seq<char>)
    requires
        is_solid(w),
    ensures
        pieces(w, Separator::White) == seq![w],
    decreases w.len(),
{
    if w.len() == 0 {
        assert(w == Seq::<char>::empty());
    } else {
        pieces_of_solid(w.drop_last());
        assert(w.drop_last().push(w.last()) == w);
        assert(pieces(w, Separator::White) == seq![w]);
    }
}

proof fn pieces_of_joined(ws: Seq<Seq<char>>)
    requires
        ws.len() > 0,
        forall|i: int| 0 <= i < ws.len() ==> is_solid(#[trigger] ws[i]),
    ensures
        pieces(joined(ws, seq![' ']), Separator::White) == ws,
    decreases ws.len(),
{
    if ws.len() == 1 {
        pieces_of_solid(ws[0]);
        assert(ws == seq![ws[0]]);
    } else {
        let front = ws.drop_last();
        assert forall|i: int| 0 <= i < front.len() implies is_solid(#[trigger] front[i]) by {
            assert(front[i] == ws[i]);
        }
        pieces_of_joined(front);
        assert(is_solid(ws[ws.len() - 1]));
        pieces_behind_blank(joined(front, seq![' ']), ws.last());
        assert(front.push(ws.last()) == ws);
    }
}

proof fn all_kept(ws: Seq<Seq<char>>, keep: spec_fn(Seq<char>) -> bool)
    requires
        forall|i: int| 0 <= i < ws.len() ==> keep(#[trigger] ws[i]),
    ensures
        ws.filter(keep) == ws,
    decreases ws.len(),
{
    reveal(Seq::filter);
    if ws.len() > 0 {
        all_kept(ws.drop_last(), keep);
        assert(keep(ws[ws.len() - 1]));
        assert(ws.drop_last().push(ws.last()) == ws);
    }
}

/// Splitting words that were joined with a blank gives the words back.
pub proof fn joined_words_split(ws: Seq<Seq<char>>)
    requires
        forall|i: int| 0 <= i < ws.len() ==> is_solid(#[trigger] ws[i]) && ws[i].len() > 0,
    ensures
        words(joined(ws, seq![' '])) == ws,
{
    let keep = |w: Seq<char>| w.len() > 0;
    if ws.len() == 0 {
        reveal(Seq::filter);
        let one = seq![Seq::<char>::empty()];
        assert(joined(ws, seq![' ']) == Seq::<char>::empty());
        assert(one.drop_last() == Seq::<Seq<char>>::empty());
        assert(one.drop_last().filter(keep) == Seq::<Seq<char>>::empty());
        assert(one.filter(keep) == Seq::<Seq<char>>::empty());
    } else {
        pieces_of_joined(ws);
        all_kept(ws, keep);
    }
}

/// A text has no more words than characters.
pub proof fn words_at_most_chars(s: Seq<char>)
    ensures
        words(s).len() <= s.len(),
    decreases s.len(),
{
    reveal(Seq::filter);
    let keep = |w: Seq<char>| w.len() > 0;
    let all = pieces(s, Separator::White);
    pieces_nonempty(s, Separator::White);
    if s.len() == 0 {
        assert(all.drop_last() == Seq::<Seq<char>>::empty());
        assert(all.drop_last().filter(keep).len() == 0);
    } else {
        let before = pieces(s.drop_last(), Separator::White);
        pieces_nonempty(s.drop_last(), Separator::White);
        words_at_most_chars(s.drop_last());
        if Separator::White.separates(s.last()) {
            assert(all.drop_last() == before);
        } else {
            assert(all.drop_last() == before.drop_last());
        }
    }
}

// Laws.

/// Every white space character is a control character between tab and carriage return, a blank, or
/// beyond ASCII: no letter, digit or punctuation mark of ASCII is one. Tab, line feed, carriage
/// return and blank are.
pub proof fn white_space_is_no_ascii_text(c: char)
    ensures
        is_white(c) && (c as u32) < 0x80 <==> 9 <= c as u32 <= 13 || c as u32 == 32,
        is_white(c) && c as u32 >= 0x80 <==> c as u32 == 0x85 || c as u32 == 0xa0 || c as u32
            == 0x1680 || 0x2000 <= c as u32 <= 0x200a || 0x2028 <= c as u32 <= 0x2029 || c as u32
            == 0x202f || c as u32 == 0x205f || c as u32 == 0x3000,
{
}

proof fn pieces_on_both_sides(a: Seq<char>, c: char, b: Seq<char>, sep: Separator)
    requires
        sep.separates(c),
    ensures
        pieces(a + seq![c] + b, sep) == pieces(a, sep) + pieces(b, sep),
    decreases b.len(),
{
    let s = a + seq![c] + b;
    let left = pieces(a, sep);
    if b.len() == 0 {
        assert(s.drop_last() == a);
        assert(b == Seq::<char>::empty());
        assert(pieces(s, sep) =~= left + pieces(b, sep));
    } else {
        let front = b.drop_last();
        assert(s.drop_last() == a + seq![c] + front);
        pieces_on_both_sides(a, c, front, sep);
        pieces_nonempty(front, sep);
        assert(pieces(s, sep) =~= left + pieces(b, sep));
    }
}

proof fn one_piece(w: Seq<char>, sep: Separator)
    requires
        forall|i: int| 0 <= i < w.len() ==> !sep.separates(#[trigger] w[i]),
    ensures
        pieces(w, sep) == seq![w],
    decreases w.len(),
{
    if w.len() == 0 {
        assert(w == Seq::<char>::empty());
    } else {
        let front = w.drop_last();
        assert forall|i: int| 0 <= i < front.len() implies !sep.separates(#[trigger] front[i]) by {
            assert(front[i] == w[i]);
        }
        one_piece(front, sep);
        assert(!sep.separates(w[w.len() - 1]));
        assert(front.push(w.last()) == w);
        assert(pieces(w, sep) =~= seq![w]);
    }
}

/// Cutting at a character: a text without it is one piece, and what stands before and behind one
/// of it is cut each for itself. Nothing else is cut, and no character is lost.
pub proof fn cutting_at_a_character(a: Seq<char>, c: char, b: Seq<char>)
    ensures
        pieces(a + seq![c] + b, Separator::Char(c)) == pieces(a, Separator::Char(c)) + pieces(
            b,
            Separator::Char(c),
        ),
        !a.contains(c) ==> pieces(a, Separator::Char(c)) == seq![a],
{
    let sep = Separator::Char(c);
    pieces_on_both_sides(a, c, b, sep);
    if !a.contains(c) {
        assert forall|i: int| 0 <= i < a.len() implies !sep.separates(#[trigger] a[i]) by {
            assert(a.contains(a[i]));
        }
        one_piece(a, sep);
    }
}

/// The pieces between a character, joined with it again, are the text.
pub proof fn pieces_join_again(s: Seq<char>, c: char)
    ensures
        joined(pieces(s, Separator::Char(c)), seq![c]) == s,
    decreases s.len(),
{
    let sep = Separator::Char(c);
    let all = pieces(s, sep);
    if s.len() == 0 {
        assert(s == Seq::<char>::empty());
    } else {
        let front = s.drop_last();
        let before = pieces(front, sep);
        pieces_join_again(front, c);
        pieces_nonempty(front, sep);
        if s.last() == c {
            assert(all.drop_last() == before);
            assert(joined(all, seq![c]) =~= front + seq![c]);
            assert(front + seq![c] =~= s);
        } else {
            assert(all.drop_last() == before.drop_last());
            if before.len() == 1 {
                assert(joined(before, seq![c]) == before[0]);
                assert(joined(all, seq![c]) == before[0].push(s.last()));
            } else {
                assert(joined(all, seq![c]) =~= joined(before, seq![c]).push(s.last()));
            }
            assert(front.push(s.last()) == s);
        }
    }
}

/// Texts that do not hold a character, joined with it, are cut apart at it again.
pub proof fn joined_pieces_are_cut_apart(parts: Seq<Seq<char>>, c: char)
    requires
        parts.len() > 0,
        forall|i: int| 0 <= i < parts.len() ==> !(#[trigger] parts[i]).contains(c),
    ensures
        pieces(joined(parts, seq![c]), Separator::Char(c)) == parts,
    decreases parts.len(),
{
    let sep = Separator::Char(c);
    if parts.len() == 1 {
        cutting_at_a_character(parts[0], c, Seq::empty());
        assert(parts =~= seq![parts[0]]);
    } else {
        let front = parts.drop_last();
        assert forall|i: int| 0 <= i < front.len() implies !(#[trigger] front[i]).contains(c) by {
            assert(front[i] == parts[i]);
        }
        joined_pieces_are_cut_apart(front, c);
        cutting_at_a_character(joined(front, seq![c]), c, parts.last());
        cutting_at_a_character(parts.last(), c, Seq::empty());
        assert(!parts[parts.len() - 1].contains(c));
        assert(parts =~= front + seq![parts.last()]);
    }
}

proof fn kept_of_both(a: Seq<Seq<char>>, b: Seq<Seq<char>>, keep: spec_fn(Seq<char>) -> bool)
    ensures
        (a + b).filter(keep) == a.filter(keep) + b.filter(keep),
    decreases b.len(),
{
    reveal(Seq::filter);
    if b.len() == 0 {
        assert(a + b == a);
        assert(a.filter(keep) + b.filter(keep) =~= a.filter(keep));
    } else {
        kept_of_both(a, b.drop_last(), keep);
        assert((a + b).drop_last() == a + b.drop_last());
        assert((a + b).filter(keep) =~= a.filter(keep) + b.filter(keep));
    }
}

/// The words of a text: a text without white space is one word if it is not empty, and what stands
/// before and behind a white space character has its words each for itself.
pub proof fn words_lie_between_white_space(a: Seq<char>, c: char, b: Seq<char>)
    requires
        is_white(c),
    ensures
        words(a + seq![c] + b) == words(a) + words(b),
        (forall|i: int| 0 <= i < a.len() ==> !is_white(#[trigger] a[i])) && a.len() > 0
            ==> words(a) == seq![a],
        a.len() == 0 ==> words(a).len() == 0,
{
    let sep = Separator::White;
    let keep = |w: Seq<char>| w.len() > 0;
    pieces_on_both_sides(a, c, b, sep);
    kept_of_both(pieces(a, sep), pieces(b, sep), keep);
    if forall|i: int| 0 <= i < a.len() ==> !is_white(#[trigger] a[i]) {
        assert forall|i: int| 0 <= i < a.len() implies !sep.separates(#[trigger] a[i]) by {
            assert(!is_white(a[i]));
        }
        one_piece(a, sep);
        reveal(Seq::filter);
        let one = seq![a];
        assert(one.drop_last() =~= Seq::<Seq<char>>::empty());
        assert(one.drop_last().filter(keep) == Seq::<Seq<char>>::empty());
        assert(one.filter(keep) =~= if a.len() > 0 {
            one
        } else {
            Seq::empty()
        });
    }
}

proof fn strung_with_one_more(a: Seq<Seq<char>>, w: Seq<char>)
    ensures
        a.push(w).flatten() == a.flatten() + w,
    decreases a.len(),
{
    if a.len() == 0 {
        let none = Seq::<Seq<char>>::empty();
        assert(none.flatten() =~= Seq::<char>::empty());
        assert(a =~= none);
        assert(a.push(w).drop_first() =~= none);
        assert(a.push(w).first() == w);
        assert(a.push(w).flatten() =~= a.flatten() + w);
    } else {
        strung_with_one_more(a.drop_first(), w);
        assert(a.push(w).drop_first() =~= a.drop_first().push(w));
        assert(a.push(w).flatten() =~= a.flatten() + w);
    }
}

proof fn pieces_hold_all(s: Seq<char>)
    ensures
        pieces(s, Separator::White).flatten() == s.filter(|c: char| !is_white(c)),
    decreases s.len(),
{
    reveal(Seq::filter);
    let keep = |c: char| !is_white(c);
    let all = pieces(s, Separator::White);
    if s.len() == 0 {
        let none = Seq::<Seq<char>>::empty();
        assert(none.flatten() =~= Seq::<char>::empty());
        assert(all.drop_first() =~= none);
        assert(all.first() == Seq::<char>::empty());
        assert(all.flatten() =~= Seq::<char>::empty());
    } else {
        let front = s.drop_last();
        let before = pieces(front, Separator::White);
        pieces_hold_all(front);
        pieces_nonempty(front, Separator::White);
        if is_white(s.last()) {
            strung_with_one_more(before, Seq::empty());
            assert(all.flatten() =~= s.filter(keep));
        } else {
            let start = before.drop_last();
            assert(start.push(before.last()) == before);
            strung_with_one_more(start, before.last());
            strung_with_one_more(start, before.last().push(s.last()));
            assert(all.flatten() =~= s.filter(keep));
        }
    }
}

proof fn empty_words_hold_nothing(ws: Seq<Seq<char>>)
    ensures
        ws.filter(|w: Seq<char>| w.len() > 0).flatten() == ws.flatten(),
    decreases ws.len(),
{
    reveal(Seq::filter);
    let keep = |w: Seq<char>| w.len() > 0;
    if ws.len() > 0 {
        let front = ws.drop_last();
        empty_words_hold_nothing(front);
        assert(front.push(ws.last()) == ws);
        strung_with_one_more(front, ws.last());
        if ws.last().len() > 0 {
            strung_with_one_more(front.filter(keep), ws.last());
        } else {
            assert(front.flatten() + ws.last() =~= front.flatten());
        }
    }
}

/// The words of a text hold every character of it but white space, in order: none is lost, added
/// or changed.
pub proof fn words_hold_every_character(s: Seq<char>)
    ensures
        words(s).flatten() == s.filter(|c: char| !is_white(c)),
{
    pieces_hold_all(s);
    empty_words_hold_nothing(pieces(s, Separator::White));
}

proof fn trimmed_at_start(s: Seq<char>) -> (n: int)
    ensures
        0 <= n <= s.len(),
        trim_start(s) == s.skip(n),
        forall|i: int| 0 <= i < n ==> is_white(#[trigger] s[i]),
        n < s.len() ==> !is_white(s[n]),
    decreases s.len(),
{
    if s.len() > 0 && is_white(s[0]) {
        let rest = s.drop_first();
        let m = trimmed_at_start(rest);
        assert(rest.skip(m) =~= s.skip(m + 1));
        assert forall|i: int| 0 <= i < m + 1 implies is_white(#[trigger] s[i]) by {
            if i > 0 {
                assert(s[i] == rest[i - 1]);
            }
        }
        if m + 1 < s.len() {
            assert(s[m + 1] == rest[m]);
        }
        m + 1
    } else {
        assert(s.skip(0) =~= s);
        0
    }
}

proof fn trimmed_at_end(s: Seq<char>) -> (n: int)
    ensures
        0 <= n <= s.len(),
        trim_end(s) == s.take(n),
        forall|i: int| n <= i < s.len() ==> is_white(#[trigger] s[i]),
        n > 0 ==> !is_white(s[n - 1]),
    decreases s.len(),
{
    if s.len() > 0 && is_white(s.last()) {
        let rest = s.drop_last();
        let m = trimmed_at_end(rest);
        assert(rest.take(m) =~= s.take(m));
        assert forall|i: int| m <= i < s.len() implies is_white(#[trigger] s[i]) by {
            if i < s.len() - 1 {
                assert(s[i] == rest[i]);
            }
        }
        m
    } else {
        assert(s.take(s.len() as int) =~= s);
        s.len() as int
    }
}

/// Trimming takes away white space at both ends and nothing else: what is left is a part of the
/// text, neither begins nor ends with white space, and there is only white space before and behind
/// it.
pub proof fn trimming_takes_only_white_space(s: Seq<char>)
    ensures
        exists|i: int, j: int|
            0 <= i <= j <= s.len() && trimmed(s) == #[trigger] s.subrange(i, j) && (forall|k: int|
                0 <= k < i || j <= k < s.len() ==> is_white(#[trigger] s[k])),
        trimmed(s).len() > 0 ==> !is_white(trimmed(s)[0]) && !is_white(trimmed(s).last()),
{
    let i = trimmed_at_start(s);
    let middle = s.skip(i);
    let n = trimmed_at_end(middle);
    let j = i + n;
    assert(middle.take(n) =~= s.subrange(i, j));
    assert forall|k: int| 0 <= k < i || j <= k < s.len() implies is_white(#[trigger] s[k]) by {
        if j <= k {
            assert(s[k] == middle[k - i]);
        }
    }
    if n > 0 {
        assert(trimmed(s)[0] == s[i]);
        assert(trimmed(s).last() == middle[n - 1]);
    }
}

/// Replacing a character leaves every other one as it is, puts the text in place of each of it, and
/// does so in each part of a text for itself.
pub proof fn replacing_goes_character_by_character(
    a: Seq<char>,
    b: Seq<char>,
    from: char,
    to: Seq<char>,
)
    ensures
        replaced_char(a + b, from, to) == replaced_char(a, from, to) + replaced_char(b, from, to),
        replaced_char(seq![from], from, to) == to,
        !a.contains(from) ==> replaced_char(a, from, to) == a,
    decreases b.len(),
{
    if !a.contains(from) {
        nothing_to_replace(a, from, to);
    }
    assert(seq![from].drop_last() =~= Seq::<char>::empty());
    assert(replaced_char(Seq::<char>::empty(), from, to) =~= Seq::<char>::empty());
    assert(seq![from].last() == from);
    assert(replaced_char(seq![from], from, to) =~= to);
    if b.len() == 0 {
        assert(a + b == a);
        assert(replaced_char(a, from, to) + replaced_char(b, from, to) =~= replaced_char(
            a,
            from,
            to,
        ));
    } else {
        replacing_goes_character_by_character(a, b.drop_last(), from, to);
        assert((a + b).drop_last() == a + b.drop_last());
        assert(replaced_char(a + b, from, to) =~= replaced_char(a, from, to) + replaced_char(
            b,
            from,
            to,
        ));
    }
}

proof fn nothing_to_replace(a: Seq<char>, from: char, to: Seq<char>)
    requires
        !a.contains(from),
    ensures
        replaced_char(a, from, to) == a,
    decreases a.len(),
{
    if a.len() > 0 {
        let front = a.drop_last();
        assert(!front.contains(from)) by {
            if front.contains(from) {
                let i = choose|i: int| 0 <= i < front.len() && front[i] == from;
                assert(a[i] == from);
            }
        }
        nothing_to_replace(front, from, to);
        assert(a[a.len() - 1] == a.last());
        assert(front.push(a.last()) == a);
    } else {
        assert(a == Seq::<char>::empty());
    }
}

/// Only a run of the character goes from the end of a text, and all of it.
pub proof fn only_the_run_at_the_end_goes(s: Seq<char>, c: char)
    ensures
        without_trailing(s, c).is_prefix_of(s),
        forall|i: int| without_trailing(s, c).len() <= i < s.len() ==> #[trigger] s[i] == c,
        without_trailing(s, c).len() > 0 ==> without_trailing(s, c).last() != c,
    decreases s.len(),
{
    if s.len() > 0 && s.last() == c {
        let front = s.drop_last();
        only_the_run_at_the_end_goes(front, c);
        assert forall|i: int| without_trailing(s, c).len() <= i < s.len() implies #[trigger] s[i]
            == c by {
            if i < front.len() {
                assert(front[i] == s[i]);
            }
        }
    }
}

proof fn last_piece_is_behind(s: Seq<char>, c: char)
    ensures
        ({
            let last = pieces(s, Separator::Char(c)).last();
            &&& last.len() <= s.len()
            &&& last == s.skip(s.len() - last.len())
            &&& !last.contains(c)
            &&& last.len() < s.len() ==> s[s.len() - last.len() - 1] == c
        }),
    decreases s.len(),
{
    let sep = Separator::Char(c);
    let last = pieces(s, sep).last();
    if s.len() == 0 {
        assert(s.skip(0) =~= last);
    } else {
        let front = s.drop_last();
        let before = pieces(front, sep).last();
        last_piece_is_behind(front, c);
        pieces_nonempty(front, sep);
        if s.last() == c {
            assert(s.skip(s.len() as int) =~= last);
        } else {
            assert(last =~= s.skip(s.len() - last.len()));
            if last.contains(c) {
                let i = choose|i: int| 0 <= i < last.len() && last[i] == c;
                assert(before[i] == c);
            }
            if last.len() < s.len() {
                assert(s[s.len() - last.len() - 1] == front[front.len() - before.len() - 1]);
            }
        }
    }
}

/// The last part of a path holds no slash, and the path is that part with whatever ends with a
/// slash before it and slashes behind it. It is empty only if the path is made of slashes.
pub proof fn last_part_is_behind_the_last_slash(path: Seq<char>)
    ensures
        !last_part(path).contains('/'),
        exists|i: int, j: int|
            0 <= i <= j <= path.len() && last_part(path) == #[trigger] path.subrange(i, j) && (i > 0
                ==> path[i - 1] == '/') && (forall|k: int| j <= k < path.len() ==> path[k] == '/'),
        last_part(path).len() == 0 ==> forall|k: int| 0 <= k < path.len() ==> path[k] == '/',
{
    let bare = without_trailing(path, '/');
    only_the_run_at_the_end_goes(path, '/');
    last_piece_is_behind(bare, '/');
    let last = last_part(path);
    let j = bare.len() as int;
    let i = j - last.len();
    assert(bare.skip(i) =~= path.subrange(i, j));
    if i > 0 {
        assert(path[i - 1] == bare[i - 1]);
    }
    assert(path.subrange(i, j) == last);
    if last.len() == 0 && bare.len() > 0 {
        assert(bare[bare.len() - 1] == '/');
    }
}

/// The characters of strings are all that they hold.
pub proof fn texts_hold_everything(v: Seq<String>, i: int, s: String)
    requires
        0 <= i < v.len(),
    ensures
        texts(v).len() == v.len(),
        texts(v)[i] == v[i]@,
        text_view(Some(s)) == Some(s@),
        text_view(None) is None,
{
}

}
