//! The inference sessions: which of them came up, and which GPUs can run with them.

use vstd::prelude::*;

use crate::error::Error;

verus! {

/// A session, or none, for each bucket and each GPU.
pub type Table<S> = Seq<Seq<Option<S>>>;

/// The contents of rows.
pub open spec fn table_of<S>(rows: Seq<Vec<Option<S>>>) -> Table<S> {
    rows.map_values(|row: Vec<Option<S>>| row@)
}

/// A table without sessions.
pub open spec fn empty_table<S>(n_buckets: nat, n_gpus: nat) -> Table<S> {
    Seq::new(n_buckets, |b: int| Seq::new(n_gpus, |g: int| None::<S>))
}

/// The table after the sessions that came up were put in their places.
pub open spec fn placed<S>(table: Table<S>, results: Seq<Option<(usize, usize, S)>>) -> Table<S>
    decreases results.len(),
{
    if results.len() == 0 {
        table
    } else {
        let before = placed(table, results.drop_last());
        match results.last() {
            Some((b, g, session)) => before.update(
                b as int,
                before[b as int].update(g as int, Some(session)),
            ),
            None => before,
        }
    }
}

/// How many of the results are no session.
pub open spec fn failures<S>(results: Seq<Option<(usize, usize, S)>>) -> nat
    decreases results.len(),
{
    if results.len() == 0 {
        0
    } else {
        failures(results.drop_last()) + if results.last() is None {
            1nat
        } else {
            0nat
        }
    }
}

/// How many sessions a row holds.
pub open spec fn present_in_row<S>(row: Seq<Option<S>>) -> nat
    decreases row.len(),
{
    if row.len() == 0 {
        0
    } else {
        present_in_row(row.drop_last()) + if row.last() is Some {
            1nat
        } else {
            0nat
        }
    }
}

/// How many sessions a table holds.
pub open spec fn present<S>(table: Table<S>) -> nat
    decreases table.len(),
{
    if table.len() == 0 {
        0
    } else {
        present(table.drop_last()) + present_in_row(table.last())
    }
}

/// The sessions that came up.
pub struct Sessions<S> {
    /// A session, or none, for each bucket and each GPU.
    pub table: Vec<Vec<Option<S>>>,
    /// How many sessions there are.
    pub total: usize,
    /// How many sessions did not come up.
    pub failed: usize,
}

fn no_sessions<S>(n_buckets: usize, n_gpus: usize) -> (r: Vec<Vec<Option<S>>>)
    ensures
        table_of(r@) == empty_table::<S>(n_buckets as nat, n_gpus as nat),
{
    let mut table: Vec<Vec<Option<S>>> = Vec::new();
    for b in 0..n_buckets
        invariant
            table@.len() == b,
            forall|k: int|
                0 <= k < b ==> (#[trigger] table@[k])@ == Seq::new(n_gpus as nat, |g: int| None::<S>),
    {
        let mut row: Vec<Option<S>> = Vec::new();
        for g in 0..n_gpus
            invariant
                row@ == Seq::new(g as nat, |i: int| None::<S>),
        {
            row.push(None);
        }
        table.push(row);
    }
    assert(table_of(table@) == empty_table::<S>(n_buckets as nat, n_gpus as nat));
    table
}

fn count_row<S>(row: &Vec<Option<S>>) -> (r: usize)
    ensures
        r == present_in_row(row@),
        r <= row@.len(),
{
    let mut n: usize = 0;
    for i in 0..row.len()
        invariant
            n == present_in_row(row@.take(i as int)),
            n <= i,
    {
        assert(row@.take(i + 1).drop_last() == row@.take(i as int));
        if row[i].is_some() {
            n += 1;
        }
    }
    assert(row@.take(row@.len() as int) == row@);
    n
}

proof fn placed_keeps_shape<S>(
    table: Table<S>,
    results: Seq<Option<(usize, usize, S)>>,
    n_buckets: nat,
    n_gpus: nat,
)
    requires
        table.len() == n_buckets,
        forall|b: int| 0 <= b < n_buckets ==> (#[trigger] table[b]).len() == n_gpus,
        forall|i: int|
            0 <= i < results.len() ==> (#[trigger] results[i] matches Some((b, g, _)) ==> b
                < n_buckets && g < n_gpus),
    ensures
        placed(table, results).len() == n_buckets,
        forall|b: int|
            0 <= b < n_buckets ==> (#[trigger] placed(table, results)[b]).len() == n_gpus,
    decreases results.len(),
{
    if results.len() > 0 {
        let front = results.drop_last();
        assert forall|i: int| 0 <= i < front.len() implies (#[trigger] front[i] matches Some(
            (b, g, _),
        ) ==> b < n_buckets && g < n_gpus) by {
            assert(front[i] == results[i]);
        }
        placed_keeps_shape(table, front, n_buckets, n_gpus);
        assert(results[results.len() - 1] == results.last());
    }
}

proof fn present_is_bounded<S>(table: Table<S>, n: int, n_gpus: nat)
    requires
        0 <= n <= table.len(),
        forall|b: int| 0 <= b < table.len() ==> (#[trigger] table[b]).len() == n_gpus,
    ensures
        present(table.take(n)) <= n * n_gpus,
    decreases n,
{
    if n > 0 {
        assert(table.take(n).drop_last() == table.take(n - 1));
        present_is_bounded(table, n - 1, n_gpus);
        row_is_bounded(table[n - 1]);
        assert((n - 1) * n_gpus + n_gpus == n * n_gpus) by (nonlinear_arith);
    }
}

proof fn row_is_bounded<S>(row: Seq<Option<S>>)
    ensures
        present_in_row(row) <= row.len(),
    decreases row.len(),
{
    if row.len() > 0 {
        row_is_bounded(row.drop_last());
    }
}

/// Puts the sessions that came up in their places. Each result is a session with its bucket and
/// its GPU, or none where the session did not come up. It is an error if there is no session.
pub fn gather<S>(
    n_buckets: usize,
    n_gpus: usize,
    results: Vec<Option<(usize, usize, S)>>,
) -> (r: Result<Sessions<S>, Error>)
    requires
        n_buckets * n_gpus <= usize::MAX,
        forall|i: int|
            0 <= i < results@.len() ==> (#[trigger] results@[i] matches Some((b, g, _)) ==> b
                < n_buckets && g < n_gpus),
    ensures
        ({
            let table = placed(empty_table(n_buckets as nat, n_gpus as nat), results@);
            match r {
                Ok(s) => {
                    &&& present(table) > 0
                    &&& table_of(s.table@) == table
                    &&& s.total == present(table)
                    &&& s.failed == failures(results@)
                },
                Err(Error::Inference(msg)) => {
                    &&& present(table) == 0
                    &&& msg@ == "no TRT sessions created — check GPU availability"@
                },
                Err(_) => false,
            }
        }),
{
    let mut rest = results;
    let ghost all = results@;
    let ghost none = empty_table::<S>(n_buckets as nat, n_gpus as nat);
    let n: usize = rest.len();
    let mut table = no_sessions::<S>(n_buckets, n_gpus);
    let mut failed: usize = 0;
    assert(all.skip(0) == all);
    assert(all.take(0) == Seq::<Option<(usize, usize, S)>>::empty());
    for i in 0..n
        invariant
            n == all.len(),
            rest@ == all.skip(i as int),
            none == empty_table::<S>(n_buckets as nat, n_gpus as nat),
            table_of(table@) == placed(none, all.take(i as int)),
            failed == failures(all.take(i as int)),
            failed <= i,
            forall|k: int|
                0 <= k < all.len() ==> (#[trigger] all[k] matches Some((b, g, _)) ==> b < n_buckets
                    && g < n_gpus),
    {
        let ghost before = table_of(table@);
        proof {
            assert(all.take(i + 1).drop_last() == all.take(i as int));
            assert forall|k: int| 0 <= k < i implies (#[trigger] all.take(i as int)[k] matches Some(
                (b, g, _),
            ) ==> b < n_buckets && g < n_gpus) by {
                assert(all.take(i as int)[k] == all[k]);
            }
            placed_keeps_shape(none, all.take(i as int), n_buckets as nat, n_gpus as nat);
            assert(before.len() == table@.len());
        }
        let result = rest.remove(0);
        assert(result == all[i as int]);
        assert(rest@ == all.skip(i + 1));
        match result {
            Some((b, g, session)) => {
                assert(before[b as int] == table@[b as int]@);
                let row = &mut table[b];
                row[g] = Some(session);
                assert(table_of(table@) == before.update(
                    b as int,
                    before[b as int].update(g as int, Some(session)),
                ));
            },
            None => {
                failed += 1;
            },
        }
    }
    assert(all.take(n as int) == all);
    let ghost full = table_of(table@);
    proof {
        placed_keeps_shape(none, all, n_buckets as nat, n_gpus as nat);
    }
    let mut total: usize = 0;
    for b in 0..n_buckets
        invariant
            n_buckets * n_gpus <= usize::MAX,
            full == table_of(table@),
            full.len() == n_buckets,
            forall|k: int| 0 <= k < n_buckets ==> (#[trigger] full[k]).len() == n_gpus,
            total == present(full.take(b as int)),
    {
        assert(full.take(b + 1).drop_last() == full.take(b as int));
        assert(full[b as int] == table@[b as int]@);
        proof {
            present_is_bounded(full, b + 1, n_gpus as nat);
            assert((b + 1) * n_gpus <= n_buckets * n_gpus) by (nonlinear_arith)
                requires
                    b < n_buckets,
            ;
        }
        total += count_row(&table[b]);
    }
    assert(full.take(n_buckets as int) == full);
    if total == 0 {
        return Err(
            Error::Inference("no TRT sessions created — check GPU availability".to_owned()),
        );
    }
    Ok(Sessions { table, total, failed })
}

/// The sessions of one GPU, one for each bucket.
pub open spec fn column<S>(table: Table<S>, gpu: int) -> Seq<Option<S>> {
    table.map_values(|row: Seq<Option<S>>| row[gpu])
}

/// Whether a GPU has a session for every bucket.
pub open spec fn is_complete<S>(column: Seq<Option<S>>) -> bool {
    forall|b: int| 0 <= b < column.len() ==> (#[trigger] column[b]) is Some
}

/// The sessions of those of the first `n` GPUs that have a session for every bucket.
pub open spec fn complete_columns<S>(table: Table<S>, n: nat) -> Seq<Seq<Option<S>>>
    decreases n,
{
    if n == 0 {
        Seq::empty()
    } else {
        let before = complete_columns(table, (n - 1) as nat);
        if is_complete(column(table, n - 1)) {
            before.push(column(table, n - 1))
        } else {
            before
        }
    }
}

fn gpu_is_complete<S>(table: &Vec<Vec<Option<S>>>, gpu: usize) -> (r: bool)
    requires
        forall|b: int| 0 <= b < table@.len() ==> (#[trigger] table@[b])@.len() > gpu,
    ensures
        r == is_complete(column(table_of(table@), gpu as int)),
{
    let ghost col = column(table_of(table@), gpu as int);
    for b in 0..table.len()
        invariant
            col == column(table_of(table@), gpu as int),
            forall|k: int| 0 <= k < table@.len() ==> (#[trigger] table@[k])@.len() > gpu,
            forall|k: int| 0 <= k < b ==> (#[trigger] col[k]) is Some,
    {
        assert(col[b as int] == table@[b as int]@[gpu as int]);
        if table[b][gpu].is_none() {
            return false;
        }
    }
    true
}

/// Gives each GPU that has a session for every bucket its sessions, in the order of the buckets.
/// It is an error if there is no such GPU.
pub fn complete_sets<S>(sessions: Vec<Vec<Option<S>>>, n_gpus: usize) -> (r: Result<
    Vec<Vec<Option<S>>>,
    Error,
>)
    requires
        forall|b: int| 0 <= b < sessions@.len() ==> (#[trigger] sessions@[b])@.len() >= n_gpus,
    ensures
        ({
            let sets = complete_columns(table_of(sessions@), n_gpus as nat);
            match r {
                Ok(given) => table_of(given@) == sets && sets.len() > 0,
                Err(Error::Inference(msg)) => {
                    &&& sets.len() == 0
                    &&& msg@ == "no GPUs have complete session sets — cannot run inference"@
                },
                Err(_) => false,
            }
        }),
{
    let ghost full = table_of(sessions@);
    let mut table = sessions;
    let mut sets: Vec<Vec<Option<S>>> = Vec::new();
    let n_buckets: usize = table.len();
    assert(table_of(sets@) == Seq::<Seq<Option<S>>>::empty());
    for g in 0..n_gpus
        invariant
            n_buckets == table@.len(),
            n_buckets == full.len(),
            forall|b: int| 0 <= b < n_buckets ==> (#[trigger] table@[b])@.len() >= n_gpus,
            forall|b: int, k: int|
                0 <= b < n_buckets && g <= k < n_gpus ==> #[trigger] table@[b]@[k] == full[b][k],
            table_of(sets@) == complete_columns(full, g as nat),
    {
        let ghost col = column(full, g as int);
        assert(column(table_of(table@), g as int) == col);
        if gpu_is_complete(&table, g) {
            let mut set: Vec<Option<S>> = Vec::new();
            for b in 0..n_buckets
                invariant
                    g < n_gpus,
                    n_buckets == table@.len(),
                    n_buckets == full.len(),
                    col == column(full, g as int),
                    forall|i: int| 0 <= i < n_buckets ==> (#[trigger] table@[i])@.len() >= n_gpus,
                    forall|i: int, k: int|
                        0 <= i < n_buckets && g + 1 <= k < n_gpus ==> #[trigger] table@[i]@[k]
                            == full[i][k],
                    forall|i: int|
                        b <= i < n_buckets ==> (#[trigger] table@[i])@[g as int]
                            == full[i][g as int],
                    set@ == col.take(b as int),
            {
                let ghost before = table@;
                assert(before[b as int]@[g as int] == full[b as int][g as int]);
                let row = &mut table[b];
                let session = row[g].take();
                set.push(session);
                assert(col[b as int] == session);
                assert(forall|i: int| 0 <= i < n_buckets && i != b ==> table@[i] == before[i]);
            }
            assert(set@ == col);
            let ghost given = sets@;
            sets.push(set);
            assert(table_of(sets@) == table_of(given).push(col));
        }
    }
    if sets.len() == 0 {
        return Err(
            Error::Inference(
                "no GPUs have complete session sets — cannot run inference".to_owned(),
            ),
        );
    }
    Ok(sets)
}

/// Takes the session of a bucket on the only GPU out of the table, if it is there.
pub fn take_single<S>(sessions: &mut Vec<Vec<Option<S>>>, bucket: usize) -> (r: Option<S>)
    ensures
        ({
            let table = table_of(old(sessions)@);
            if bucket < table.len() && table[bucket as int].len() > 0 {
                &&& r == table[bucket as int][0]
                &&& table_of(final(sessions)@) == table.update(
                    bucket as int,
                    table[bucket as int].update(0, None),
                )
            } else {
                r is None && table_of(final(sessions)@) == table
            }
        }),
{
    let ghost table = table_of(sessions@);
    if bucket < sessions.len() && sessions[bucket].len() > 0 {
        assert(table[bucket as int] == sessions@[bucket as int]@);
        let row = &mut sessions[bucket];
        let session = row[0].take();
        assert(table_of(sessions@) == table.update(
            bucket as int,
            table[bucket as int].update(0, None),
        ));
        session
    } else {
        assert(bucket < table.len() ==> table[bucket as int] == sessions@[bucket as int]@);
        None
    }
}

// Laws.

/// A session that came up stands in its place, in the row of its bucket and the column of its GPU,
/// and changes no other place. One that did not come up changes nothing and counts as failed.
pub proof fn session_stands_in_its_place<S>(
    table: Table<S>,
    results: Seq<Option<(usize, usize, S)>>,
    b: usize,
    g: usize,
    session: S,
    other_b: int,
    other_g: int,
)
    requires
        b < placed(table, results).len(),
        g < placed(table, results)[b as int].len(),
        0 <= other_b < placed(table, results).len(),
        0 <= other_g < placed(table, results)[other_b].len(),
    ensures
        placed(table, results.push(Some((b, g, session))))[b as int][g as int] == Some(session),
        (other_b != b || other_g != g) ==> placed(
            table,
            results.push(Some((b, g, session))),
        )[other_b][other_g] == placed(table, results)[other_b][other_g],
        placed(table, results.push(None)) == placed(table, results),
        placed(table, Seq::empty()) == table,
        failures(results.push(None)) == failures(results) + 1,
        failures(results.push(Some((b, g, session)))) == failures(results),
        failures(Seq::<Option<(usize, usize, S)>>::empty()) == 0,
{
    let with = results.push(Some((b, g, session)));
    let without = results.push(None);
    assert(with.drop_last() =~= results);
    assert(without.drop_last() =~= results);
}

/// A GPU has a set of sessions if and only if it has one for every bucket, and the sets stand in the
/// order of the GPUs, each with the sessions of its own GPU.
pub proof fn complete_gpus_have_sets<S>(table: Table<S>, n: nat)
    ensures
        ({
            let all = complete_columns(table, n);
            let more = complete_columns(table, n + 1);
            &&& (forall|b: int| 0 <= b < table.len() ==> (#[trigger] table[b])[n as int] is Some)
                ==> more.len() == all.len() + 1 && more.last().len() == table.len() && (forall|
                b: int,
            |
                0 <= b < table.len() ==> (#[trigger] more.last()[b]) == table[b][n as int])
                && more.drop_last() == all
            &&& (exists|b: int| 0 <= b < table.len() && !((#[trigger] table[b])[n as int] is Some))
                ==> more == all
            &&& complete_columns(table, 0).len() == 0
        }),
{
    let all = complete_columns(table, n);
    let more = complete_columns(table, n + 1);
    let c = column(table, n as int);
    assert forall|b: int| 0 <= b < table.len() implies (#[trigger] c[b]) == table[b][n as int] by {}
    if forall|b: int| 0 <= b < table.len() ==> (#[trigger] table[b])[n as int] is Some {
        assert forall|b: int| 0 <= b < c.len() implies (#[trigger] c[b]) is Some by {
            assert(table[b][n as int] is Some);
        }
        assert(is_complete(c));
        assert(more.drop_last() =~= all);
    }
    if exists|b: int| 0 <= b < table.len() && !((#[trigger] table[b])[n as int] is Some) {
        let b = choose|b: int| 0 <= b < table.len() && !((#[trigger] table[b])[n as int] is Some);
        assert(!(c[b] is Some));
    }
}

/// Sessions are counted one by one: each counts one, a place without one counts nothing, and a
/// table has those of all its rows.
pub proof fn each_session_counts_one<S>(table: Table<S>, row: Seq<Option<S>>, session: S)
    ensures
        present_in_row(row.push(Some(session))) == present_in_row(row) + 1,
        present_in_row(row.push(None)) == present_in_row(row),
        present_in_row(Seq::<Option<S>>::empty()) == 0,
        present(table.push(row)) == present(table) + present_in_row(row),
        present(Seq::<Seq<Option<S>>>::empty()) == 0,
{
    assert(row.push(Some(session)).drop_last() =~= row);
    assert(row.push(None).drop_last() =~= row);
    assert(table.push(row).drop_last() =~= table);
}

/// A table without sessions has a place for every bucket and GPU. The table of rows has what the
/// rows have.
pub proof fn every_place_is_in_the_table<S>(
    n_buckets: nat,
    n_gpus: nat,
    rows: Seq<Vec<Option<S>>>,
    b: int,
    g: int,
)
    ensures
        empty_table::<S>(n_buckets, n_gpus).len() == n_buckets,
        0 <= b < n_buckets ==> empty_table::<S>(n_buckets, n_gpus)[b].len() == n_gpus,
        0 <= b < n_buckets && 0 <= g < n_gpus ==> empty_table::<S>(n_buckets, n_gpus)[b][g] is None,
        table_of(rows).len() == rows.len(),
        0 <= b < rows.len() ==> table_of(rows)[b] == rows[b]@,
{
}

}
