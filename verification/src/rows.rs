//! The rows of a run: from the lines of the input to the rows of the output.

use vstd::multiset::Multiset;
use vstd::prelude::*;

use crate::collector::{
    all_or_none, batch_ids, decimal_id_is_its_number, embeddings_of,
    numbered_messages_stay_in_order, numbers_below, output_of, row_is_that_of_its_message,
    rows_are, rows_below, seq_of,
};
use crate::config::{Config, Message};
use crate::embed::{
    configures, default_prefix, full_model_name, omitted_prefix_is_that_of_the_model, EmbedArgs,
};
use crate::engine::settings_of;
use crate::input::numbered;
use crate::normalize::{
    normalized, same_settings, same_settings_normalize_alike, NormalizerConfig,
};
use crate::number::decimal;
use crate::reorder::Row;
use crate::run::{
    all_said, cache_changes_no_ids, caches_seen, direct, embedded_in_batch,
    every_message_comes_back_once, ids_of_batch, message_id, said_of, surviving_id,
    surviving_messages_are_embedded, taken, Run,
};
use crate::tally::gathered;
use crate::worker::{EmbeddingBatchView, Routed};

verus! {

/// The IDs of messages.
pub open spec fn ids_of(messages: Seq<Message>) -> Seq<Seq<char>> {
    messages.map_values(|m: Message| m.id@)
}

proof fn ids_are_gathered(messages: Seq<Message>)
    ensures
        gathered(messages, message_id()) == ids_of(messages).to_multiset(),
    decreases messages.len(),
{
    broadcast use vstd::seq_lib::group_to_multiset_ensures;

    let ids = ids_of(messages);
    if messages.len() == 0 {
        assert(ids.to_multiset() =~= Multiset::empty());
    } else {
        ids_are_gathered(messages.drop_last());
        let id = messages.last().id@;
        assert(ids == ids_of(messages.drop_last()).push(id));
        let none = Seq::<Seq<char>>::empty();
        assert(none.to_multiset() =~= Multiset::empty());
        assert(none.push(id) == seq![id]);
        assert(gathered(messages, message_id()) =~= ids.to_multiset());
    }
}

proof fn batch_ids_are_gathered<T>(batches: Seq<EmbeddingBatchView<T>>)
    ensures
        gathered(batches, ids_of_batch()) == batch_ids(batches).to_multiset(),
    decreases batches.len(),
{
    broadcast use vstd::seq_lib::group_to_multiset_ensures;

    if batches.len() == 0 {
        assert(batch_ids(batches).to_multiset() =~= Multiset::empty());
    } else {
        batch_ids_are_gathered(batches.drop_last());
        vstd::seq_lib::lemma_multiset_commutative(
            batch_ids(batches.drop_last()),
            batches.last().ids,
        );
    }
}

proof fn numbers_differ(messages: Seq<Message>)
    requires
        numbered(messages),
        messages.len() <= u64::MAX,
    ensures
        ids_of(messages).no_duplicates(),
{
    let ids = ids_of(messages);
    assert forall|i: int, j: int| 0 <= i < ids.len() && 0 <= j < ids.len() && i != j implies ids[i]
        != ids[j] by {
        assert(messages[i].id@ == decimal(i as nat));
        assert(messages[j].id@ == decimal(j as nat));
        decimal_id_is_its_number(i as u64);
        decimal_id_is_its_number(j as u64);
    }
}

proof fn direct_is_all_or_none<T>(run: Run<T>, routed: Seq<Routed<T>>, n: nat)
    requires
        run.valid(),
        n <= routed.len(),
        routed == run.routed(),
    ensures
        forall|k: int|
            0 <= k < direct(routed.take(n as int)).len() ==> all_or_none(
                #[trigger] direct(routed.take(n as int))[k],
            ),
    decreases n,
{
    if n > 0 {
        let m = (n - 1) as nat;
        direct_is_all_or_none(run, routed, m);
        all_said(run.workers, run.start);
        assert(said_of(
            run.start,
            taken(run.workers)[m as int],
            caches_seen(run.workers)[m as int],
            routed[m as int],
        ));
        assert(routed.take(n as int).drop_last() == routed.take(m as int));
        let before = direct(routed.take(m as int));
        let all = direct(routed.take(n as int));
        assert forall|k: int| 0 <= k < all.len() implies all_or_none(#[trigger] all[k]) by {
            if k < before.len() {
                assert(before[k] == all[k]);
            }
        }
    }
}

/// The batches of a run have an embedding for each of their messages, or for none.
pub proof fn batches_are_all_or_none<T>(run: Run<T>)
    requires
        run.valid(),
    ensures
        forall|k: int| 0 <= k < run.out.len() ==> all_or_none(#[trigger] run.out[k]),
{
    broadcast use vstd::seq_lib::group_to_multiset_ensures;

    let routed = run.routed();
    let first = direct(routed);
    let all = first + run.done();
    direct_is_all_or_none(run, routed, routed.len());
    assert(routed.take(routed.len() as int) == routed);
    assert forall|k: int| 0 <= k < run.out.len() implies all_or_none(#[trigger] run.out[k]) by {
        let batch = run.out[k];
        assert(run.out.to_multiset().count(batch) > 0);
        assert(all.contains(batch));
        let j = choose|j: int| 0 <= j < all.len() && all[j] == batch;
        if j < first.len() {
            assert(all_or_none(first[j]));
        } else {
            assert(batch == run.done()[j - first.len()]);
        }
    }
}

/// The output of a run is in the order of its input: if the messages are numbered from zero on,
/// then in whatever order the threads work, the rows that have an embedding come out in the order
/// of the messages, each with the embedding that came back under the ID of its message.
pub proof fn output_is_in_order<T>(run: Run<T>)
    requires
        run.valid(),
        numbered(run.messages),
        run.messages.len() <= u64::MAX,
    ensures
        output_of(run.out, run.messages.len()) == rows_below(
            embeddings_of(run.out),
            run.messages.len(),
        ),
{
    broadcast use vstd::seq_lib::group_to_multiset_ensures;

    let ids = ids_of(run.messages);
    let back = batch_ids(run.out);
    every_message_comes_back_once(run);
    ids_are_gathered(run.messages);
    batch_ids_are_gathered(run.out);
    assert(back.to_multiset() == ids.to_multiset());
    numbers_differ(run.messages);
    ids.lemma_multiset_has_no_duplicates();
    back.lemma_multiset_has_no_duplicates_conv();
    assert forall|j: int| 0 <= j < back.len() implies numbers_below(
        #[trigger] back[j],
        run.messages.len(),
    ) by {
        assert(back.to_multiset().count(back[j]) > 0);
        assert(ids.contains(back[j]));
        let i = choose|i: int| 0 <= i < ids.len() && ids[i] == back[j];
        assert(run.messages[i].id@ == decimal(i as nat));
    }
    batches_are_all_or_none(run);
    numbered_messages_stay_in_order(run.out, run.messages.len());
}

proof fn embedded_has_a_row<T>(batches: Seq<EmbeddingBatchView<T>>, id: Seq<char>)
    requires
        forall|k: int| 0 <= k < batches.len() ==> all_or_none(#[trigger] batches[k]),
        gathered(batches, embedded_in_batch()).count(id) > 0,
    ensures
        embeddings_of(batches).contains_key(seq_of(id)),
    decreases batches.len(),
{
    broadcast use vstd::seq_lib::group_to_multiset_ensures;

    if batches.len() > 0 {
        let front = batches.drop_last();
        let last = batches.last();
        assert(all_or_none(batches[batches.len() - 1]));
        rows_are(embeddings_of(front), embeddings_of(front), last, last.n_rows);
        let new = embedded_in_batch::<T>()(last);
        if new.to_multiset().count(id) > 0 {
            assert(new.contains(id));
            let i = choose|i: int| 0 <= i < new.len() && new[i] == id;
            assert(last.ids[i] == id);
        } else {
            assert forall|k: int| 0 <= k < front.len() implies all_or_none(#[trigger] front[k]) by {
                assert(front[k] == batches[k]);
            }
            embedded_has_a_row(front, id);
        }
        assert(embeddings_of(batches).contains_key(seq_of(id)));
    }
}

proof fn survivor_is_gathered(settings: NormalizerConfig, messages: Seq<Message>, i: int)
    requires
        0 <= i < messages.len(),
        normalized(settings, messages[i].text@) is Some,
    ensures
        gathered(messages, surviving_id(settings)).count(messages[i].id@) > 0,
    decreases messages.len(),
{
    broadcast use vstd::seq_lib::group_to_multiset_ensures;

    let front = messages.drop_last();
    if i < front.len() {
        survivor_is_gathered(settings, front, i);
    } else {
        let one = seq![messages[i].id@];
        assert(one[0] == messages[i].id@);
        assert(one.contains(messages[i].id@));
        assert(one.to_multiset().count(messages[i].id@) > 0);
    }
}

/// Row `k` of the output is that of message `k`: if the messages are numbered from zero on and
/// normalization leaves something of each, as the reader of the input sees to, and inference does
/// not fail, then the output has a row for every message and no other.
pub proof fn every_message_has_its_row<T>(run: Run<T>)
    requires
        run.valid(),
        run.nothing_fails(),
        numbered(run.messages),
        run.messages.len() <= u64::MAX,
        forall|i: int|
            0 <= i < run.messages.len() ==> normalized(
                run.start.settings,
                (#[trigger] run.messages[i]).text@,
            ) is Some,
    ensures
        output_of(run.out, run.messages.len()).len() == run.messages.len(),
        forall|k: int|
            0 <= k < run.messages.len() ==> (#[trigger] output_of(
                run.out,
                run.messages.len(),
            )[k]).0 == k,
{
    let n = run.messages.len();
    output_is_in_order(run);
    batches_are_all_or_none(run);
    surviving_messages_are_embedded(run);
    assert forall|k: u64| k < n implies #[trigger] embeddings_of(run.out).contains_key(k) by {
        assert(normalized(run.start.settings, run.messages[k as int].text@) is Some);
        survivor_is_gathered(run.start.settings, run.messages, k as int);
        assert(run.messages[k as int].id@ == decimal(k as nat));
        embedded_has_a_row(run.out, run.messages[k as int].id@);
        decimal_id_is_its_number(k);
    }
    row_is_that_of_its_message(embeddings_of(run.out), n);
}

proof fn row_is_embedded<T>(batches: Seq<EmbeddingBatchView<T>>, k: u64) -> (id: Seq<char>)
    requires
        forall|j: int| 0 <= j < batches.len() ==> all_or_none(#[trigger] batches[j]),
        embeddings_of(batches).contains_key(k),
    ensures
        gathered(batches, embedded_in_batch()).count(id) > 0,
        seq_of(id) == k,
    decreases batches.len(),
{
    broadcast use vstd::seq_lib::group_to_multiset_ensures;

    if batches.len() == 0 {
        assert(false);
        Seq::empty()
    } else {
        let front = batches.drop_last();
        let last = batches.last();
        assert(all_or_none(batches[batches.len() - 1]));
        rows_are(embeddings_of(front), embeddings_of(front), last, last.n_rows);
        let new = embedded_in_batch::<T>()(last);
        if embeddings_of(front).contains_key(k) {
            assert forall|j: int| 0 <= j < front.len() implies all_or_none(#[trigger] front[j]) by {
                assert(front[j] == batches[j]);
            }
            row_is_embedded(front, k)
        } else {
            let i = choose|i: int|
                0 <= i < last.n_rows && seq_of(#[trigger] last.ids[i]) == k;
            assert(new[i] == last.ids[i]);
            assert(new.contains(last.ids[i]));
            assert(new.to_multiset().count(last.ids[i]) > 0);
            last.ids[i]
        }
    }
}

/// The numbers of rows.
pub open spec fn numbers_of_rows<T>(rows: Seq<Row<T>>) -> Seq<u64> {
    rows.map_values(|row: Row<T>| row.0)
}

proof fn same_keys_same_numbers<T>(a: Map<u64, Seq<T>>, b: Map<u64, Seq<T>>, n: nat)
    requires
        forall|k: u64| #[trigger] a.contains_key(k) == b.contains_key(k),
    ensures
        numbers_of_rows(rows_below(a, n)) == numbers_of_rows(rows_below(b, n)),
    decreases n,
{
    if n > 0 {
        let m = (n - 1) as nat;
        same_keys_same_numbers(a, b, m);
        let rows_a = rows_below(a, m);
        let rows_b = rows_below(b, m);
        if m <= u64::MAX && a.contains_key(m as u64) {
            let k = m as u64;
            assert(numbers_of_rows(rows_below(a, n)) =~= numbers_of_rows(rows_a).push(k));
            assert(numbers_of_rows(rows_below(b, n)) =~= numbers_of_rows(rows_b).push(k));
        }
    } else {
        assert(numbers_of_rows(rows_below(a, n)) =~= numbers_of_rows(rows_below(b, n)));
    }
}

/// Two runs of the same messages with settings that say the same write the same rows, where
/// inference does not fail: rows of the same numbers, in the same order, whatever dedup cache there
/// is and whatever order the threads work in.
pub proof fn alike_runs_write_the_same_rows<T>(a: Run<T>, b: Run<T>)
    requires
        a.valid(),
        b.valid(),
        a.nothing_fails(),
        b.nothing_fails(),
        a.messages == b.messages,
        same_settings(a.start.settings, b.start.settings),
        numbered(a.messages),
        a.messages.len() <= u64::MAX,
    ensures
        numbers_of_rows(output_of(a.out, a.messages.len())) == numbers_of_rows(
            output_of(b.out, b.messages.len()),
        ),
{
    let of_a = embeddings_of(a.out);
    let of_b = embeddings_of(b.out);
    cache_changes_no_ids(a, b);
    batches_are_all_or_none(a);
    batches_are_all_or_none(b);
    output_is_in_order(a);
    output_is_in_order(b);
    assert forall|k: u64| #[trigger] of_a.contains_key(k) == of_b.contains_key(k) by {
        if of_a.contains_key(k) {
            let id = row_is_embedded(a.out, k);
            embedded_has_a_row(b.out, id);
        }
        if of_b.contains_key(k) {
            let id = row_is_embedded(b.out, k);
            embedded_has_a_row(a.out, id);
        }
    }
    same_keys_same_numbers(of_a, of_b, a.messages.len());
}

/// An omitted prefix changes nothing: a run without a prefix, and the same run with the prefix that
/// the model wants, embed the same texts and write the same rows, where inference does not fail.
pub proof fn omitted_prefix_changes_nothing<T>(
    args: EmbedArgs,
    prefix: String,
    model_exists: bool,
    omitted: Config,
    given: Config,
    a: Run<T>,
    b: Run<T>,
)
    requires
        args.prefix is None,
        prefix@ == default_prefix(full_model_name(args.model@, model_exists)),
        configures(args, model_exists, omitted),
        configures(EmbedArgs { prefix: Some(prefix), ..args }, model_exists, given),
        settings_of(omitted, a.start.settings),
        settings_of(given, b.start.settings),
        a.valid(),
        b.valid(),
        a.nothing_fails(),
        b.nothing_fails(),
        a.messages == b.messages,
        numbered(a.messages),
        a.messages.len() <= u64::MAX,
    ensures
        forall|text: Seq<char>| #[trigger]
            normalized(a.start.settings, text) == normalized(b.start.settings, text),
        gathered(a.out, embedded_in_batch()) == gathered(b.out, embedded_in_batch()),
        numbers_of_rows(output_of(a.out, a.messages.len())) == numbers_of_rows(
            output_of(b.out, b.messages.len()),
        ),
{
    omitted_prefix_is_that_of_the_model(args, prefix, model_exists, omitted, given);
    assert(same_settings(a.start.settings, b.start.settings));
    assert forall|text: Seq<char>| #[trigger]
        normalized(a.start.settings, text) == normalized(b.start.settings, text) by {
        same_settings_normalize_alike(a.start.settings, b.start.settings, text);
    }
    cache_changes_no_ids(a, b);
    alike_runs_write_the_same_rows(a, b);
}

}
