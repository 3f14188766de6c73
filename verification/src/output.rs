//! Output: the format of a file, the IDs of its rows, and the groups that rows are written in.

use vstd::prelude::*;

use crate::number::{decimal, decimal_reads_back, number_value, to_decimal, NumberError};
use crate::text::{same_text, texts};

verus! {

/// How many rows are written together.
pub const ROW_GROUP_SIZE: usize = 50_000;

/// The format of the output.
#[derive(Clone, Copy, PartialEq, Eq, Structural)]
pub enum OutputFormat {
    Npy,
    Parquet,
}

/// The format of a file with the given extension, if it has one: NPY, unless it is that of the
/// other format.
pub fn output_format(extension: Option<&str>) -> (r: OutputFormat)
    ensures
        r == match extension {
            Some(extension) => if extension@ == "parquet"@ {
                OutputFormat::Parquet
            } else {
                OutputFormat::Npy
            },
            None => OutputFormat::Npy,
        },
{
    match extension {
        Some(extension) => if same_text(extension, "parquet") {
            OutputFormat::Parquet
        } else {
            OutputFormat::Npy
        },
        None => OutputFormat::Npy,
    }
}

/// The ID of a row: the one that the input has, or the number of the row if that is empty or there
/// is none.
pub open spec fn row_id(seq: u64, user_id: Option<Seq<char>>) -> Seq<char> {
    match user_id {
        Some(id) => if id.len() > 0 {
            id
        } else {
            decimal(seq as nat)
        },
        None => decimal(seq as nat),
    }
}

fn make_row_id(seq: u64, user_id: Option<&str>) -> (r: String)
    ensures
        r@ == row_id(
            seq,
            match user_id {
                Some(id) => Some(id@),
                None => None,
            },
        ),
{
    match user_id {
        Some(id) => if id.is_empty() {
            to_decimal(seq)
        } else {
            id.to_owned()
        },
        None => to_decimal(seq),
    }
}

/// The ID that the input has for a message, if there is such a message.
pub fn user_id_at(user_ids: &Vec<String>, seq: u64) -> (r: Option<&str>)
    ensures
        match r {
            Some(id) => seq < user_ids@.len() && id@ == user_ids@[seq as int]@,
            None => seq >= user_ids@.len(),
        },
{
    if seq < user_ids.len() as u64 {
        Some(user_ids[seq as usize].as_str())
    } else {
        None
    }
}

/// Rows that are written together.
pub struct RowGroup<T> {
    pub ids: Vec<String>,
    pub embeddings: Vec<T>,
}

/// The contents of a [`RowGroup`].
pub struct GroupView<T> {
    pub ids: Seq<Seq<char>>,
    pub embeddings: Seq<T>,
}

impl<T> View for RowGroup<T> {
    type V = GroupView<T>;

    open spec fn view(&self) -> GroupView<T> {
        GroupView { ids: texts(self.ids@), embeddings: self.embeddings@ }
    }
}

impl<T> GroupView<T> {
    /// The group with one more row.
    pub open spec fn with_row(self, id: Seq<char>, row: Seq<T>) -> Self {
        GroupView { ids: self.ids.push(id), embeddings: self.embeddings + row }
    }

    /// A group of no rows.
    pub open spec fn none() -> Self {
        GroupView { ids: Seq::empty(), embeddings: Seq::empty() }
    }

    /// What is left after one more row came, and the group that it filled.
    pub open spec fn after_row(self, id: Seq<char>, row: Seq<T>) -> (Self, Option<Self>) {
        let more = self.with_row(id, row);
        if more.ids.len() >= ROW_GROUP_SIZE {
            (Self::none(), Some(more))
        } else {
            (more, None)
        }
    }
}

/// Gathers rows into groups.
pub struct RowGroups<T> {
    hidden_dim: usize,
    group: RowGroup<T>,
}

impl<T> View for RowGroups<T> {
    type V = GroupView<T>;

    closed spec fn view(&self) -> GroupView<T> {
        self.group@
    }
}

/// What an option holds.
pub open spec fn group_view<T>(group: Option<RowGroup<T>>) -> Option<GroupView<T>> {
    match group {
        Some(group) => Some(group@),
        None => None,
    }
}

impl<T> RowGroups<T> {
    /// The number of values in a row.
    pub closed spec fn dim(self) -> usize {
        self.hidden_dim
    }

    /// Every row has its values, and no group is full.
    pub open spec fn valid(self) -> bool {
        &&& self@.embeddings.len() == self@.ids.len() * self.dim()
        &&& self@.ids.len() < ROW_GROUP_SIZE
    }

    /// No rows of `hidden_dim` values.
    pub fn new(hidden_dim: usize) -> (r: Self)
        ensures
            r.valid(),
            r.dim() == hidden_dim,
            r@ == GroupView::<T>::none(),
    {
        let r = RowGroups {
            hidden_dim,
            group: RowGroup { ids: Vec::new(), embeddings: Vec::new() },
        };
        assert(r@.ids == Seq::<Seq<char>>::empty());
        assert(0 * hidden_dim == 0) by (nonlinear_arith);
        r
    }

    fn take(&mut self) -> (r: RowGroup<T>)
        ensures
            r@ == old(self)@,
            final(self)@ == GroupView::<T>::none(),
            final(self).dim() == old(self).dim(),
    {
        let mut group = RowGroup { ids: Vec::new(), embeddings: Vec::new() };
        std::mem::swap(&mut self.group, &mut group);
        assert(self@.ids == Seq::<Seq<char>>::empty());
        group
    }

    /// The rows that are left, if there are any.
    pub fn finish(&mut self) -> (r: Option<RowGroup<T>>)
        requires
            old(self).valid(),
        ensures
            final(self).valid(),
            final(self).dim() == old(self).dim(),
            old(self)@.ids.len() == 0 ==> r is None && final(self)@ == old(self)@,
            old(self)@.ids.len() > 0 ==> group_view(r) == Some(old(self)@) && final(self)@
                == GroupView::<T>::none(),
    {
        if self.group.ids.len() == 0 {
            None
        } else {
            assert(0 * self.hidden_dim == 0) by (nonlinear_arith);
            Some(self.take())
        }
    }
}

impl<T: Copy> RowGroups<T> {
    /// Takes a row in. Returns the group that it filled.
    pub fn write_row(&mut self, seq: u64, user_id: Option<&str>, embedding: &[T]) -> (r: Option<
        RowGroup<T>,
    >)
        requires
            old(self).valid(),
            embedding@.len() == old(self).dim(),
        ensures
            final(self).valid(),
            final(self).dim() == old(self).dim(),
            (final(self)@, group_view(r)) == old(self)@.after_row(
                row_id(
                    seq,
                    match user_id {
                        Some(id) => Some(id@),
                        None => None,
                    },
                ),
                embedding@,
            ),
            group_view(r) matches Some(group) ==> group.embeddings.len() == group.ids.len()
                * old(self).dim(),
    {
        let ghost before = self@;
        let id = make_row_id(seq, user_id);
        let ghost ids0 = self.group.ids@;
        let ghost values0 = self.group.embeddings@;
        self.group.ids.push(id);
        assert(texts(self.group.ids@) == texts(ids0).push(id@));
        let n: usize = embedding.len();
        for i in 0..n
            invariant
                n == embedding@.len(),
                self.hidden_dim == old(self).hidden_dim,
                self.group.ids@ == ids0.push(id),
                self.group.embeddings@ == values0 + embedding@.take(i as int),
        {
            self.group.embeddings.push(embedding[i]);
            assert(self.group.embeddings@ == values0 + embedding@.take(i + 1));
        }
        assert(embedding@.take(n as int) == embedding@);
        assert(self@.ids == before.ids.push(id@));
        proof {
            let k = before.ids.len();
            let d = self.hidden_dim;
            assert((k + 1) * d == k * d + d) by (nonlinear_arith);
            assert(0 * d == 0) by (nonlinear_arith);
        }
        if self.group.ids.len() >= ROW_GROUP_SIZE {
            Some(self.take())
        } else {
            None
        }
    }
}

/// The groups that rows fill one after the other, and what is left.
pub open spec fn grouped<T>(rows: Seq<(Seq<char>, Seq<T>)>) -> (Seq<GroupView<T>>, GroupView<T>)
    decreases rows.len(),
{
    if rows.len() == 0 {
        (Seq::empty(), GroupView::none())
    } else {
        let (groups, left) = grouped(rows.drop_last());
        let (after, full) = left.after_row(rows.last().0, rows.last().1);
        (
            match full {
                Some(group) => groups.push(group),
                None => groups,
            },
            after,
        )
    }
}

/// The IDs of groups, one group after the other.
pub open spec fn ids_of<T>(groups: Seq<GroupView<T>>) -> Seq<Seq<char>>
    decreases groups.len(),
{
    if groups.len() == 0 {
        Seq::empty()
    } else {
        ids_of(groups.drop_last()) + groups.last().ids
    }
}

/// The values of groups, one group after the other.
pub open spec fn values_of<T>(groups: Seq<GroupView<T>>) -> Seq<T>
    decreases groups.len(),
{
    if groups.len() == 0 {
        Seq::empty()
    } else {
        values_of(groups.drop_last()) + groups.last().embeddings
    }
}

/// The values of rows, one row after the other.
pub open spec fn row_values<T>(rows: Seq<(Seq<char>, Seq<T>)>) -> Seq<T>
    decreases rows.len(),
{
    if rows.len() == 0 {
        Seq::empty()
    } else {
        row_values(rows.drop_last()) + rows.last().1
    }
}

/// Grouping keeps every row and their order, and every group that is full has the same size.
pub proof fn groups_hold_all_rows<T>(rows: Seq<(Seq<char>, Seq<T>)>)
    ensures
        ({
            let (groups, left) = grouped(rows);
            &&& ids_of(groups) + left.ids == rows.map_values(|r: (Seq<char>, Seq<T>)| r.0)
            &&& values_of(groups) + left.embeddings == row_values(rows)
            &&& forall|i: int|
                0 <= i < groups.len() ==> (#[trigger] groups[i]).ids.len() == ROW_GROUP_SIZE
            &&& left.ids.len() < ROW_GROUP_SIZE
        }),
    decreases rows.len(),
{
    let ids = rows.map_values(|r: (Seq<char>, Seq<T>)| r.0);
    if rows.len() == 0 {
        assert(ids == Seq::<Seq<char>>::empty());
    } else {
        let front = rows.drop_last();
        groups_hold_all_rows(front);
        let (groups0, left0) = grouped(front);
        let (groups, left) = grouped(rows);
        let (id, row) = rows.last();
        assert(ids == front.map_values(|r: (Seq<char>, Seq<T>)| r.0).push(id));
        let more = left0.with_row(id, row);
        if more.ids.len() >= ROW_GROUP_SIZE {
            assert(groups.drop_last() == groups0);
        }
        assert(ids_of(groups) + left.ids == ids);
        assert(values_of(groups) + left.embeddings == row_values(rows));
    }
}

// Laws.

/// A row has the ID of the input, whole and unchanged, if that is not empty, and else its number.
/// So rows with different IDs in the input, none of them empty, have different IDs in the output,
/// and so have rows without IDs.
pub proof fn row_keeps_its_id(seq: u64, id: Seq<char>, other_seq: u64, other: Seq<char>)
    ensures
        id.len() > 0 ==> row_id(seq, Some(id)).len() == id.len() && forall|i: int|
            0 <= i < id.len() ==> row_id(seq, Some(id))[i] == #[trigger] id[i],
        id.len() > 0 && other.len() > 0 && id != other ==> row_id(seq, Some(id)) != row_id(
            other_seq,
            Some(other),
        ),
        id.len() == 0 ==> row_id(seq, Some(id)) == row_id(seq, None),
        seq != other_seq ==> row_id(seq, None) != row_id(other_seq, None),
        number_value(row_id(seq, None), u64::MAX as nat) == Ok::<nat, NumberError>(seq as nat),
{
    decimal_reads_back(seq as nat, u64::MAX as nat);
    decimal_reads_back(other_seq as nat, u64::MAX as nat);
}

/// Row `i` is row `i` modulo the size of a group of group `i` by that size, with its own ID and its
/// own values, and there are as many full groups as fit into the number of rows.
pub proof fn row_is_in_its_group<T>(rows: Seq<(Seq<char>, Seq<T>)>, dim: nat, i: int)
    requires
        0 <= i < rows.len(),
        forall|k: int| 0 <= k < rows.len() ==> (#[trigger] rows[k]).1.len() == dim,
    ensures
        ({
            let (groups, left) = grouped(rows);
            let group = if i / 50_000 < groups.len() {
                groups[i / 50_000]
            } else {
                left
            };
            let at = i % 50_000;
            &&& groups.len() == rows.len() / 50_000
            &&& left.ids.len() == rows.len() % 50_000
            &&& at < group.ids.len()
            &&& group.ids[at] == rows[i].0
            &&& group.embeddings.len() == group.ids.len() * dim
            &&& group.embeddings.subrange((at * dim) as int, (at * dim + dim) as int) == rows[i].1
        }),
    decreases rows.len(),
{
    let front = rows.drop_last();
    let n = front.len();
    let (groups0, left0) = grouped(front);
    let (groups, left) = grouped(rows);
    let (id, row) = rows.last();
    let more = left0.with_row(id, row);
    assert(rows[n as int].1.len() == dim);
    assert forall|k: int| 0 <= k < front.len() implies (#[trigger] front[k]).1.len() == dim by {
        assert(front[k] == rows[k]);
    }
    left_has_its_values(front, dim);
    left_has_its_values(rows, dim);
    let at = i % 50_000;
    let m = left0.ids.len();
    assert(at * dim + dim == (at + 1) * dim) by (nonlinear_arith);
    assert(0 <= at * dim) by (nonlinear_arith)
        requires
            0 <= at,
    ;
    if i < n {
        row_is_in_its_group(front, dim, i);
        assert(front[i] == rows[i]);
        let group0 = if i / 50_000 < groups0.len() {
            groups0[i / 50_000]
        } else {
            left0
        };
        assert((at + 1) * dim <= group0.ids.len() * dim) by (nonlinear_arith)
            requires
                at + 1 <= group0.ids.len(),
        ;
        let group = if i / 50_000 < groups.len() {
            groups[i / 50_000]
        } else {
            left
        };
        assert(group.embeddings.subrange((at * dim) as int, (at * dim + dim) as int)
            =~= group0.embeddings.subrange((at * dim) as int, (at * dim + dim) as int));
    } else {
        assert(at == m);
        assert(more.embeddings.subrange((m * dim) as int, (m * dim + dim) as int) =~= row);
    }
}

proof fn left_has_its_values<T>(rows: Seq<(Seq<char>, Seq<T>)>, dim: nat)
    requires
        forall|k: int| 0 <= k < rows.len() ==> (#[trigger] rows[k]).1.len() == dim,
    ensures
        ({
            let (groups, left) = grouped(rows);
            &&& groups.len() == rows.len() / 50_000
            &&& left.ids.len() == rows.len() % 50_000
            &&& left.embeddings.len() == left.ids.len() * dim
            &&& forall|g: int|
                0 <= g < groups.len() ==> (#[trigger] groups[g]).ids.len() == 50_000
                    && groups[g].embeddings.len() == 50_000 * dim
        }),
    decreases rows.len(),
{
    if rows.len() == 0 {
        assert(0 * dim == 0) by (nonlinear_arith);
    } else {
        let front = rows.drop_last();
        assert forall|k: int| 0 <= k < front.len() implies (#[trigger] front[k]).1.len() == dim by {
            assert(front[k] == rows[k]);
        }
        left_has_its_values(front, dim);
        let (groups0, left0) = grouped(front);
        let m = left0.ids.len();
        assert(rows[rows.len() - 1].1.len() == dim);
        assert((m + 1) * dim == m * dim + dim) by (nonlinear_arith);
        assert(0 * dim == 0) by (nonlinear_arith);
    }
}

}
