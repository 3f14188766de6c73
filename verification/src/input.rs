//! Input: which files are read, and what messages their lines give.
//!
//! A text of which the normalizer leaves nothing is dropped here, so that every message that was
//! read is embedded: one that were skipped later would leave a gap in the rows.

use vstd::prelude::*;
use vstd::utf8::encode_utf8;

use crate::config::Message;
use crate::json::{json_value, member_text, parse_json, text_at};
use crate::normalize::{normalized, Normalizer, NormalizerConfig};
use crate::number::{decimal, decimal_reads_back, number_value, to_decimal, NumberError};
use crate::text::{same_text, text_view, texts, trim, trimmed};
use crate::utf8::byte_len;

verus! {

/// Texts that take fewer bytes are not embedded.
pub const MIN_TEXT: usize = 10;

/// How the lines of the input give texts.
#[derive(Clone, Copy, PartialEq, Eq, Structural)]
pub enum InputFormat {
    /// Each line is a JSON object with a text.
    Jsonl,
    /// Each line is a text.
    Plain,
}

/// The input format of a name: plain, or else JSON lines.
pub fn input_format(name: &str) -> (r: InputFormat)
    ensures
        r == (if name@ == "plain"@ {
            InputFormat::Plain
        } else {
            InputFormat::Jsonl
        }),
{
    if same_text(name, "plain") {
        InputFormat::Plain
    } else {
        InputFormat::Jsonl
    }
}

/// How a file is compressed.
#[derive(Clone, Copy, PartialEq, Eq, Structural)]
pub enum Compression {
    Zstd,
    Gzip,
    Uncompressed,
}

/// How a file with the given extension is compressed.
pub fn compression_of(extension: &str) -> (r: Compression)
    ensures
        r == (if extension@ == "zst"@ || extension@ == "zstd"@ {
            Compression::Zstd
        } else if extension@ == "gz"@ {
            Compression::Gzip
        } else {
            Compression::Uncompressed
        }),
{
    if same_text(extension, "zst") || same_text(extension, "zstd") {
        Compression::Zstd
    } else if same_text(extension, "gz") {
        Compression::Gzip
    } else {
        Compression::Uncompressed
    }
}

// Lines.

/// The text and the ID of a JSON object that has these members, if it has them. The text is
/// trimmed and must not be empty then. An object without an ID has an empty one.
pub open spec fn entry_from(text: Option<Seq<char>>, id: Option<Seq<char>>) -> Option<
    (Seq<char>, Seq<char>),
> {
    match text {
        Some(text) => if trimmed(text).len() == 0 {
            None
        } else {
            Some(
                (
                    trimmed(text),
                    match id {
                        Some(id) => id,
                        None => Seq::empty(),
                    },
                ),
            )
        },
        None => None,
    }
}

/// The text and the ID that a JSON line holds.
pub open spec fn jsonl_entry(line: Seq<char>) -> Option<(Seq<char>, Seq<char>)> {
    match json_value(line) {
        Some(value) => entry_from(member_text(value, "text"@), member_text(value, "id"@)),
        None => None,
    }
}

/// The text and the ID of an entry.
pub open spec fn entry_view(entry: Option<(String, String)>) -> Option<(Seq<char>, Seq<char>)> {
    match entry {
        Some((text, id)) => Some((text@, id@)),
        None => None,
    }
}

/// What an option holds.
pub open spec fn str_view(s: Option<&str>) -> Option<Seq<char>> {
    match s {
        Some(s) => Some(s@),
        None => None,
    }
}

/// The text and the ID of a JSON object that has these members, if it has them.
pub fn make_entry(text: Option<&str>, id: Option<&str>) -> (r: Option<(String, String)>)
    ensures
        entry_view(r) == entry_from(str_view(text), str_view(id)),
{
    let text = match text {
        Some(text) => trim(text),
        None => {
            return None;
        },
    };
    if text.as_str().is_empty() {
        return None;
    }
    let id = match id {
        Some(id) => id.to_owned(),
        None => {
            let empty: String = String::new();
            assert(empty@ == Seq::<char>::empty());
            empty
        },
    };
    Some((text, id))
}

/// The text and the ID that a JSON line holds.
pub fn parse_jsonl_line(line: &str) -> (r: Option<(String, String)>)
    ensures
        entry_view(r) == jsonl_entry(line@),
{
    match parse_json(line) {
        Some(value) => make_entry(text_at(&value, "text"), text_at(&value, "id")),
        None => None,
    }
}

/// The text of a line that could be read, if it has one. `entry` is what the line holds if it is a
/// JSON line.
pub open spec fn line_text(
    format: InputFormat,
    line: Seq<char>,
    entry: Option<(Seq<char>, Seq<char>)>,
) -> Option<Seq<char>> {
    match format {
        InputFormat::Plain => if trimmed(line).len() == 0 {
            None
        } else {
            Some(trimmed(line))
        },
        InputFormat::Jsonl => match entry {
            Some((text, _)) => Some(text),
            None => None,
        },
    }
}

/// What an [`InputReader`] has read: the texts of the messages, the IDs that the input has for
/// them, and how many texts were too short and lines were malformed. `settings` are those of the
/// normalizer that says which texts leave anything.
pub struct InputView {
    pub settings: NormalizerConfig,
    pub texts: Seq<Seq<char>>,
    pub user_ids: Seq<Seq<char>>,
    pub skipped: nat,
    pub malformed: nat,
}

impl InputView {
    /// Nothing was read.
    pub open spec fn nothing(settings: NormalizerConfig) -> Self {
        InputView {
            settings,
            texts: Seq::empty(),
            user_ids: Seq::empty(),
            skipped: 0,
            malformed: 0,
        }
    }

    /// One more message, if its text is long enough and survives normalization.
    pub open spec fn kept(self, text: Seq<char>, user_id: Seq<char>, survives: bool) -> Self {
        if byte_len(text) < MIN_TEXT || !survives {
            InputView { skipped: self.skipped + 1, ..self }
        } else {
            InputView {
                texts: self.texts.push(text),
                user_ids: self.user_ids.push(user_id),
                ..self
            }
        }
    }

    /// What was read after one more line, if it could be read. `entry` is what the line holds if
    /// it is a JSON line, `survives` says whether its text survives normalization. A line of plain
    /// text has its number as its ID.
    pub open spec fn after_line(
        self,
        format: InputFormat,
        line: Option<Seq<char>>,
        entry: Option<(Seq<char>, Seq<char>)>,
        survives: bool,
    ) -> Self {
        match line {
            None => InputView { malformed: self.malformed + 1, ..self },
            Some(line) => match format {
                InputFormat::Plain => if trimmed(line).len() == 0 {
                    self
                } else {
                    self.kept(trimmed(line), decimal(self.texts.len()), survives)
                },
                InputFormat::Jsonl => match entry {
                    Some((text, id)) => self.kept(text, id, survives),
                    None => if trimmed(line).len() == 0 {
                        self
                    } else {
                        InputView { malformed: self.malformed + 1, ..self }
                    },
                },
            },
        }
    }

    /// What was read after one more line, if it could be read.
    pub open spec fn after_reading(self, format: InputFormat, line: Option<Seq<char>>) -> Self {
        let entry = match (format, line) {
            (InputFormat::Jsonl, Some(line)) => jsonl_entry(line),
            _ => None,
        };
        let survives = match line {
            Some(line) => match line_text(format, line, entry) {
                Some(text) => normalized(self.settings, text) is Some,
                None => false,
            },
            None => false,
        };
        self.after_line(format, line, entry, survives)
    }

    /// Whether the normalizer leaves something of every text.
    pub open spec fn all_survive(self) -> bool {
        forall|i: int|
            0 <= i < self.texts.len() ==> normalized(self.settings, #[trigger] self.texts[i])
                is Some
    }
}

/// Makes messages of lines. Messages are numbered from zero on, and have their number as their ID.
pub struct InputReader {
    normalizer: Normalizer,
    messages: Vec<Message>,
    user_ids: Vec<String>,
    skipped: u64,
    malformed: u64,
}

impl View for InputReader {
    type V = InputView;

    closed spec fn view(&self) -> InputView {
        InputView {
            settings: self.normalizer.settings(),
            texts: message_texts(self.messages@),
            user_ids: texts(self.user_ids@),
            skipped: self.skipped as nat,
            malformed: self.malformed as nat,
        }
    }
}

/// The texts of messages.
pub open spec fn message_texts(messages: Seq<Message>) -> Seq<Seq<char>> {
    messages.map_values(|m: Message| m.text@)
}

/// Whether messages are numbered from zero on.
pub open spec fn numbered(messages: Seq<Message>) -> bool {
    forall|i: int|
        0 <= i < messages.len() ==> (#[trigger] messages[i]).id@ == decimal(i as nat)
}

impl InputReader {
    /// The messages are numbered, each has an ID of the input, and none is too short.
    pub closed spec fn valid(self) -> bool {
        &&& numbered(self.messages@)
        &&& self.user_ids@.len() == self.messages@.len()
        &&& forall|i: int|
            0 <= i < self.messages@.len() ==> byte_len((#[trigger] self.messages@[i]).text@)
                >= MIN_TEXT
    }

    /// A reader that has read nothing, and drops the texts of which the normalizer leaves nothing.
    pub fn new(normalizer: Normalizer) -> (r: Self)
        ensures
            r.valid(),
            r@ == InputView::nothing(normalizer.settings()),
    {
        let r = InputReader {
            normalizer,
            messages: Vec::new(),
            user_ids: Vec::new(),
            skipped: 0,
            malformed: 0,
        };
        assert(r@.texts == Seq::<Seq<char>>::empty());
        assert(r@.user_ids == Seq::<Seq<char>>::empty());
        r
    }

    /// How many texts were too short, and how many lines were malformed.
    pub fn counters(&self) -> (r: (u64, u64))
        ensures
            r.0 == self@.skipped,
            r.1 == self@.malformed,
    {
        (self.skipped, self.malformed)
    }

    fn keep(&mut self, text: String, user_id: String, survives: bool)
        requires
            old(self).valid(),
            old(self)@.skipped < u64::MAX,
        ensures
            final(self).valid(),
            final(self)@ == old(self)@.kept(text@, user_id@, survives),
    {
        let bytes: usize = text.as_str().as_bytes().len();
        if bytes < MIN_TEXT || !survives {
            self.skipped += 1;
            return;
        }
        let ghost before = self.messages@;
        let ghost ids0 = self.user_ids@;
        let n: u64 = self.messages.len() as u64;
        self.messages.push(Message { id: to_decimal(n), text });
        self.user_ids.push(user_id);
        proof {
            assert(message_texts(self.messages@) == message_texts(before).push(text@));
            assert(texts(self.user_ids@) == texts(ids0).push(user_id@));
        }
    }

    /// Takes a line in, or notes that one could not be read. `entry` is what the line holds if it
    /// is a JSON line, `survives` says whether its text survives normalization.
    pub fn take_line(
        &mut self,
        format: InputFormat,
        line: Option<&str>,
        entry: Option<(String, String)>,
        survives: bool,
    )
        requires
            old(self).valid(),
            old(self)@.skipped < u64::MAX,
            old(self)@.malformed < u64::MAX,
        ensures
            final(self).valid(),
            final(self)@ == old(self)@.after_line(
                format,
                str_view(line),
                entry_view(entry),
                survives,
            ),
    {
        let line = match line {
            Some(line) => trim(line),
            None => {
                self.malformed += 1;
                return;
            },
        };
        match format {
            InputFormat::Plain => {
                if !line.as_str().is_empty() {
                    let number = to_decimal(self.messages.len() as u64);
                    self.keep(line, number, survives);
                }
            },
            InputFormat::Jsonl => match entry {
                Some((text, id)) => {
                    self.keep(text, id, survives);
                },
                None => {
                    if !line.as_str().is_empty() {
                        self.malformed += 1;
                    }
                },
            },
        }
    }

    /// Reads a line, or notes that one could not be read.
    pub fn read_line(&mut self, format: InputFormat, line: Option<&str>)
        requires
            old(self).valid(),
            old(self)@.skipped < u64::MAX,
            old(self)@.malformed < u64::MAX,
        ensures
            final(self).valid(),
            final(self)@ == old(self)@.after_reading(format, str_view(line)),
            old(self)@.all_survive() ==> final(self)@.all_survive(),
    {
        let entry = match (format, line) {
            (InputFormat::Jsonl, Some(line)) => parse_jsonl_line(line),
            _ => None,
        };
        let survives = match (format, line, &entry) {
            (InputFormat::Plain, Some(line), _) => {
                let text = trim(line);
                self.normalizer.normalize(text.as_str()).is_some()
            },
            (InputFormat::Jsonl, Some(_), Some((text, _))) => {
                self.normalizer.normalize(text.as_str()).is_some()
            },
            _ => false,
        };
        self.take_line(format, line, entry, survives);
    }

    /// The messages, numbered from zero on, and the ID that the input has for each.
    pub fn finish(self) -> (r: (Vec<Message>, Vec<String>))
        requires
            self.valid(),
        ensures
            message_texts(r.0@) == self@.texts,
            texts(r.1@) == self@.user_ids,
            numbered(r.0@),
            r.0@.len() == r.1@.len(),
            forall|i: int|
                0 <= i < r.0@.len() ==> byte_len((#[trigger] r.0@[i]).text@) >= MIN_TEXT,
    {
        (self.messages, self.user_ids)
    }
}

/// What was read after the lines of a file, or of all files one after the other.
pub open spec fn after_lines(
    s: InputView,
    format: InputFormat,
    lines: Seq<Option<Seq<char>>>,
) -> InputView
    decreases lines.len(),
{
    if lines.len() == 0 {
        s
    } else {
        after_lines(s, format, lines.drop_last()).after_reading(format, lines.last())
    }
}

/// Reads lines one after the other, of which some could not be read.
pub fn read_sequential(
    lines: &Vec<Option<String>>,
    format: InputFormat,
    normalizer: Normalizer,
) -> (r: InputReader)
    ensures
        r.valid(),
        r@ == after_lines(
            InputView::nothing(normalizer.settings()),
            format,
            line_views(lines@),
        ),
        r@.settings == normalizer.settings(),
        r@.all_survive(),
{
    let mut reader = InputReader::new(normalizer);
    let ghost start = reader@;
    let ghost all = line_views(lines@);
    let n: usize = lines.len();
    for i in 0..n
        invariant
            n == lines@.len(),
            all == line_views(lines@),
            reader.valid(),
            reader@ == after_lines(start, format, all.take(i as int)),
            reader@.settings == start.settings,
            reader@.all_survive(),
            reader@.skipped <= i,
            reader@.malformed <= i,
    {
        assert(all.take(i + 1).drop_last() == all.take(i as int));
        assert(all[i as int] == text_view(lines@[i as int]));
        match &lines[i] {
            Some(line) => reader.read_line(format, Some(line.as_str())),
            None => reader.read_line(format, None),
        }
    }
    assert(all.take(n as int) == all);
    reader
}

/// Lines, as far as they could be read.
pub open spec fn line_views(lines: Seq<Option<String>>) -> Seq<Option<Seq<char>>> {
    lines.map_values(|line: Option<String>| text_view(line))
}

// Laws.

/// A JSON line has an entry if and only if it is JSON with a text that is not just white space. The
/// entry is that text without the white space at its ends, and the ID as it is, or an empty one.
pub proof fn entry_is_the_text_and_the_id(line: Seq<char>)
    ensures
        jsonl_entry(line) is Some <==> (json_value(line) matches Some(value) && (member_text(
            value,
            "text"@,
        ) matches Some(text) && trimmed(text).len() > 0)),
        jsonl_entry(line) matches Some((text, id)) ==> ({
            let value = json_value(line).unwrap();
            &&& text == trimmed(member_text(value, "text"@).unwrap())
            &&& member_text(value, "id"@) matches Some(given) ==> id == given
            &&& member_text(value, "id"@) is None ==> id.len() == 0
        }),
{
}

/// What a line holds: for plain text the line without the white space at its ends, if anything is
/// left, with the number of the next message as its ID, and for JSON its entry.
pub open spec fn held_by(format: InputFormat, line: Seq<char>, next: nat) -> Option<
    (Seq<char>, Seq<char>),
> {
    match format {
        InputFormat::Plain => if trimmed(line).len() > 0 {
            Some((trimmed(line), decimal(next)))
        } else {
            None
        },
        InputFormat::Jsonl => jsonl_entry(line),
    }
}

/// One line more: whatever was read before, a line with a text of ten bytes or more of which
/// normalization leaves something makes one message more, with that text and its ID. A line with
/// any other text is counted as skipped, and one that cannot be read, or is no entry though it is
/// not blank, as malformed. Nothing else changes.
pub proof fn line_makes_a_message_by_itself(
    s: InputView,
    format: InputFormat,
    lines: Seq<Option<Seq<char>>>,
    line: Option<Seq<char>>,
)
    ensures
        ({
            let before = after_lines(s, format, lines);
            let after = after_lines(s, format, lines.push(line));
            &&& after.settings == before.settings
            &&& match line {
                None => after.texts == before.texts && after.user_ids == before.user_ids
                    && after.skipped == before.skipped && after.malformed == before.malformed + 1,
                Some(line) => match held_by(format, line, before.texts.len()) {
                    Some((text, id)) => if encode_utf8(text).len() >= 10 && normalized(
                        before.settings,
                        text,
                    ) is Some {
                        after.texts == before.texts.push(text) && after.user_ids
                            == before.user_ids.push(id) && after.skipped == before.skipped
                            && after.malformed == before.malformed
                    } else {
                        after.texts == before.texts && after.user_ids == before.user_ids
                            && after.skipped == before.skipped + 1 && after.malformed
                            == before.malformed
                    },
                    None => after.texts == before.texts && after.user_ids == before.user_ids
                        && after.skipped == before.skipped && after.malformed == before.malformed
                        + if trimmed(line).len() > 0 {
                        1int
                    } else {
                        0
                    },
                },
            }
        }),
{
    assert(lines.push(line).drop_last() == lines);
    if let Some(text) = line {
        entry_is_the_text_and_the_id(text);
    }
}

/// The text of a line, if it has one that is embedded.
pub open spec fn usable_text(
    settings: NormalizerConfig,
    format: InputFormat,
    line: Option<Seq<char>>,
) -> Seq<Seq<char>> {
    match line {
        Some(line) => match held_by(format, line, 0) {
            Some((text, _)) => if encode_utf8(text).len() >= 10 && normalized(settings, text)
                is Some {
                seq![text]
            } else {
                Seq::empty()
            },
            None => Seq::empty(),
        },
        None => Seq::empty(),
    }
}

/// The texts of the messages are the usable texts of the lines, all of them, in the order of the
/// lines: whether a line makes a message depends on nothing but its own text.
pub proof fn messages_are_the_usable_lines(
    settings: NormalizerConfig,
    format: InputFormat,
    lines: Seq<Option<Seq<char>>>,
)
    ensures
        ({
            let read = after_lines(InputView::nothing(settings), format, lines);
            &&& read.texts == lines.map_values(
                |line: Option<Seq<char>>| usable_text(settings, format, line),
            ).flatten()
            &&& read.user_ids.len() == read.texts.len()
            &&& read.settings == settings
        }),
    decreases lines.len(),
{
    let start = InputView::nothing(settings);
    let f = |line: Option<Seq<char>>| usable_text(settings, format, line);
    if lines.len() == 0 {
        assert(lines.map_values(f) =~= Seq::<Seq<Seq<char>>>::empty());
        assert(lines.map_values(f).flatten() =~= Seq::<Seq<char>>::empty());
    } else {
        let front = lines.drop_last();
        messages_are_the_usable_lines(settings, format, front);
        line_makes_a_message_by_itself(start, format, front, lines.last());
        assert(front.push(lines.last()) == lines);
        flat_with_one_more(front.map_values(f), f(lines.last()));
        assert(lines.map_values(f) =~= front.map_values(f).push(f(lines.last())));
        let before = after_lines(start, format, front);
        let after = after_lines(start, format, lines);
        assert(after.texts =~= before.texts + f(lines.last()));
    }
}

proof fn flat_with_one_more(a: Seq<Seq<Seq<char>>>, w: Seq<Seq<char>>)
    ensures
        a.push(w).flatten() == a.flatten() + w,
    decreases a.len(),
{
    if a.len() == 0 {
        let none = Seq::<Seq<Seq<char>>>::empty();
        assert(none.flatten() =~= Seq::<Seq<char>>::empty());
        assert(a =~= none);
        assert(a.push(w).drop_first() =~= none);
        assert(a.push(w).first() == w);
        assert(a.push(w).flatten() =~= a.flatten() + w);
    } else {
        flat_with_one_more(a.drop_first(), w);
        assert(a.push(w).drop_first() =~= a.drop_first().push(w));
        assert(a.push(w).flatten() =~= a.flatten() + w);
    }
}

/// Numbered messages have the numbers from zero on as their IDs, each read back as its place, and
/// messages have the texts that they hold.
pub proof fn numbered_messages_tell_their_place(messages: Seq<Message>, i: int)
    requires
        numbered(messages),
        0 <= i < messages.len() <= u64::MAX,
    ensures
        number_value(messages[i].id@, u64::MAX as nat) == Ok::<nat, NumberError>(i as nat),
        message_texts(messages).len() == messages.len(),
        message_texts(messages)[i] == messages[i].text@,
{
    decimal_reads_back(i as nat, u64::MAX as nat);
}

/// What is taken of lines, entries and options is all that they hold.
pub proof fn views_hold_everything(
    lines: Seq<Option<String>>,
    i: int,
    text: String,
    id: String,
    s: &str,
)
    requires
        0 <= i < lines.len(),
    ensures
        line_views(lines).len() == lines.len(),
        lines[i] matches Some(line) ==> line_views(lines)[i] == Some(line@),
        lines[i] is None ==> line_views(lines)[i] is None,
        entry_view(Some((text, id))) == Some((text@, id@)),
        entry_view(None) is None,
        str_view(Some(s)) == Some(s@),
        str_view(None) is None,
{
}

/// Reading begins with nothing, and every line is accounted for: it makes a message, is skipped, is
/// malformed, or is blank.
pub proof fn every_line_is_accounted_for(
    settings: NormalizerConfig,
    format: InputFormat,
    lines: Seq<Option<Seq<char>>>,
)
    ensures
        ({
            let read = after_lines(InputView::nothing(settings), format, lines);
            let blank = lines.filter(
                |line: Option<Seq<char>>|
                    line is Some && held_by(format, line.unwrap(), 0) is None && trimmed(
                        line.unwrap(),
                    ).len() == 0,
            );
            read.texts.len() + read.skipped + read.malformed + blank.len() == lines.len()
        }),
        lines.len() == 0 ==> ({
            let read = after_lines(InputView::nothing(settings), format, lines);
            read.texts.len() == 0 && read.user_ids.len() == 0 && read.skipped == 0
                && read.malformed == 0 && read.settings == settings
        }),
    decreases lines.len(),
{
    reveal(Seq::filter);
    if lines.len() > 0 {
        let front = lines.drop_last();
        every_line_is_accounted_for(settings, format, front);
        line_makes_a_message_by_itself(InputView::nothing(settings), format, front, lines.last());
        assert(front.push(lines.last()) =~= lines);
    }
}

}
