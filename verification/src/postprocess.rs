//! Post-processors of tokenizers: whether one can take the encoding of a single text.
//!
//! A post-processor turns encodings into encodings. A template puts them together as it says: the
//! template for one encoding must not name a second one, and there is no template for more than
//! two encodings or for none. A sequence of post-processors hands the encodings on from one to the
//! next.

use serde_json::Value;
use vstd::prelude::*;

use crate::json::{items_at, json_member, member_items, member_text, text_at, value_at};
use crate::text::same_text;

verus! {

/// How deep sequences of post-processors may be nested.
pub const MAX_NESTING: usize = 64;

/// How many encodings the first `n` pieces of a template put out, if they name only the encodings
/// that there are: the first one, and with `both` the second one too.
pub open spec fn pieces_put_out(pieces: Seq<Value>, n: nat, both: bool) -> Option<nat>
    decreases n,
{
    if n == 0 {
        Some(0)
    } else {
        match (pieces_put_out(pieces, (n - 1) as nat, both), json_member(
            pieces[n - 1],
            "Sequence"@,
        )) {
            (None, _) => None,
            (Some(m), None) => Some(m),
            (Some(m), Some(sequence)) => match member_text(sequence, "id"@) {
                Some(id) => if id == "A"@ || (both && id == "B"@) {
                    Some(m + 1)
                } else {
                    None
                },
                None => None,
            },
        }
    }
}

/// How many encodings a template puts out for `k` encodings, if it can take them.
pub open spec fn template_puts_out(template: Value, k: nat) -> Option<nat> {
    let pieces = if k == 1 {
        member_items(template, "single"@)
    } else if k == 2 {
        member_items(template, "pair"@)
    } else {
        None
    };
    match pieces {
        Some(pieces) => pieces_put_out(pieces, pieces.len(), k == 2),
        None => None,
    }
}

/// How many encodings a post-processor puts out for `k` encodings, if it can take them and is
/// nested at most `depth` deep.
pub open spec fn puts_out(processor: Value, k: nat, depth: nat) -> Option<nat>
    decreases depth, 0nat,
{
    match member_text(processor, "type"@) {
        None => None,
        Some(kind) => if kind == "Sequence"@ {
            match member_items(processor, "processors"@) {
                Some(items) => if depth == 0 {
                    None
                } else {
                    all_put_out(items, items.len(), k, (depth - 1) as nat)
                },
                None => None,
            }
        } else if kind == "TemplateProcessing"@ {
            template_puts_out(processor, k)
        } else if kind == "BertProcessing"@ || kind == "RobertaProcessing"@ || kind
            == "ByteLevel"@ {
            Some(k)
        } else {
            None
        },
    }
}

/// How many encodings the first `n` post-processors put out one after the other for `k` encodings.
pub open spec fn all_put_out(processors: Seq<Value>, n: nat, k: nat, depth: nat) -> Option<nat>
    decreases depth, n,
{
    if n == 0 {
        Some(k)
    } else {
        match all_put_out(processors, (n - 1) as nat, k, depth) {
            Some(m) => puts_out(processors[n - 1], m, depth),
            None => None,
        }
    }
}

/// Whether a post-processor can take the encoding of a single text.
pub open spec fn takes_one(processor: Value) -> bool {
    puts_out(processor, 1, MAX_NESTING as nat) is Some
}

/// A count, if there is one.
pub open spec fn count_view(r: Option<usize>) -> Option<nat> {
    match r {
        Some(n) => Some(n as nat),
        None => None,
    }
}

fn count_pieces(pieces: &Vec<Value>, both: bool) -> (r: Option<usize>)
    ensures
        count_view(r) == pieces_put_out(pieces@, pieces@.len(), both),
{
    let n: usize = pieces.len();
    let mut m: usize = 0;
    for i in 0..n
        invariant
            n == pieces@.len(),
            m <= i,
            pieces_put_out(pieces@, i as nat, both) == Some(m as nat),
    {
        let sequence = value_at(&pieces[i], "Sequence");
        let fits = match sequence {
            None => true,
            Some(sequence) => match text_at(sequence, "id") {
                Some(id) => {
                    m += 1;
                    same_text(id, "A") || (both && same_text(id, "B"))
                },
                None => false,
            },
        };
        if !fits {
            proof {
                none_stays(pieces@, (i + 1) as nat, pieces@.len(), both);
            }
            return None;
        }
    }
    Some(m)
}

proof fn none_stays(pieces: Seq<Value>, i: nat, n: nat, both: bool)
    requires
        i <= n,
        pieces_put_out(pieces, i, both) is None,
    ensures
        pieces_put_out(pieces, n, both) is None,
    decreases n,
{
    if i < n {
        none_stays(pieces, i, (n - 1) as nat, both);
    }
}

fn count_template(template: &Value, k: usize) -> (r: Option<usize>)
    ensures
        count_view(r) == template_puts_out(*template, k as nat),
{
    if k == 1 {
        match items_at(template, "single") {
            Some(pieces) => count_pieces(pieces, false),
            None => None,
        }
    } else if k == 2 {
        match items_at(template, "pair") {
            Some(pieces) => count_pieces(pieces, true),
            None => None,
        }
    } else {
        None
    }
}

proof fn stopped_stays(processors: Seq<Value>, i: nat, n: nat, k: nat, depth: nat)
    requires
        i <= n,
        all_put_out(processors, i, k, depth) is None,
    ensures
        all_put_out(processors, n, k, depth) is None,
    decreases n,
{
    if i < n {
        stopped_stays(processors, i, (n - 1) as nat, k, depth);
    }
}

fn count_outputs(processor: &Value, k: usize, depth: usize) -> (r: Option<usize>)
    ensures
        count_view(r) == puts_out(*processor, k as nat, depth as nat),
    decreases depth,
{
    let kind = match text_at(processor, "type") {
        Some(kind) => kind,
        None => {
            return None;
        },
    };
    if same_text(kind, "Sequence") {
        let items = match items_at(processor, "processors") {
            Some(items) => items,
            None => {
                return None;
            },
        };
        if depth == 0 {
            return None;
        }
        let n: usize = items.len();
        let mut m: usize = k;
        for i in 0..n
            invariant
                n == items@.len(),
                depth > 0,
                member_text(*processor, "type"@) == Some("Sequence"@),
                member_items(*processor, "processors"@) == Some(items@),
                all_put_out(items@, i as nat, k as nat, (depth - 1) as nat) == Some(m as nat),
        {
            match count_outputs(&items[i], m, depth - 1) {
                Some(next) => {
                    m = next;
                },
                None => {
                    proof {
                        stopped_stays(
                            items@,
                            (i + 1) as nat,
                            items@.len(),
                            k as nat,
                            (depth - 1) as nat,
                        );
                    }
                    return None;
                },
            }
        }
        Some(m)
    } else if same_text(kind, "TemplateProcessing") {
        count_template(processor, k)
    } else if same_text(kind, "BertProcessing") || same_text(kind, "RobertaProcessing")
        || same_text(kind, "ByteLevel") {
        Some(k)
    } else {
        None
    }
}

/// Whether a post-processor can take the encoding of a single text.
pub fn can_take_one(processor: &Value) -> (r: bool)
    ensures
        r == takes_one(*processor),
{
    count_outputs(processor, 1, MAX_NESTING).is_some()
}

/// The usual post-processors take one text: those of a fixed form, and a template for one text that
/// puts only the first text and special tokens out.
pub proof fn usual_processors_take_one(processor: Value, kind: Seq<char>, pieces: Seq<Value>)
    requires
        member_text(processor, "type"@) == Some(kind),
    ensures
        kind == "BertProcessing"@ || kind == "RobertaProcessing"@ || kind == "ByteLevel"@
            ==> takes_one(processor),
        kind == "TemplateProcessing"@ && member_items(processor, "single"@) == Some(pieces) && (
        forall|i: int|
            0 <= i < pieces.len() ==> (json_member(#[trigger] pieces[i], "Sequence"@) matches Some(
                sequence,
            ) ==> member_text(sequence, "id"@) == Some("A"@))) ==> takes_one(processor),
{
    reveal_strlit("Sequence");
    assert("Sequence"@.len() == 8);
    reveal_strlit("TemplateProcessing");
    assert("TemplateProcessing"@.len() == 18);
    reveal_strlit("BertProcessing");
    assert("BertProcessing"@.len() == 14);
    reveal_strlit("RobertaProcessing");
    assert("RobertaProcessing"@.len() == 17);
    reveal_strlit("ByteLevel");
    assert("ByteLevel"@.len() == 9);
    if forall|i: int|
        0 <= i < pieces.len() ==> (json_member(#[trigger] pieces[i], "Sequence"@) matches Some(
            sequence,
        ) ==> member_text(sequence, "id"@) == Some("A"@)) {
        first_text_is_put_out(pieces, pieces.len());
    }
}

proof fn first_text_is_put_out(pieces: Seq<Value>, n: nat)
    requires
        n <= pieces.len(),
        forall|i: int|
            0 <= i < pieces.len() ==> (json_member(#[trigger] pieces[i], "Sequence"@) matches Some(
                sequence,
            ) ==> member_text(sequence, "id"@) == Some("A"@)),
    ensures
        pieces_put_out(pieces, n, false) is Some,
    decreases n,
{
    if n > 0 {
        first_text_is_put_out(pieces, (n - 1) as nat);
        let piece = pieces[n - 1];
        assert(json_member(piece, "Sequence"@) matches Some(sequence) ==> member_text(
            sequence,
            "id"@,
        ) == Some("A"@));
    }
}

}
