//! The files of the input: what was found under the given names, in order and without repeats.

use std::path::PathBuf;

use vstd::prelude::*;
use vstd::string::StringExecFns;

use crate::list::reversed;

verus! {

/// Paths in the order that sorting puts them in.
pub uninterp spec fn sorted_paths(paths: Seq<PathBuf>) -> Seq<PathBuf>;

/// Whether two paths have the same components.
pub uninterp spec fn same_path(a: PathBuf, b: PathBuf) -> bool;

/// Whether one path is ordered before another one.
pub uninterp spec fn path_before(a: PathBuf, b: PathBuf) -> bool;

/// Whether a path has its place in the order of all paths: of it and any other path one is before
/// the other, or they are the same, and only one of this holds; what is before it is before whatever
/// it is before; and paths that are the same as it stand where it stands.
pub open spec fn has_its_place(path: PathBuf) -> bool {
    &&& same_path(path, path)
    &&& forall|other: PathBuf|
        #![trigger path_before(path, other)]
        #![trigger path_before(other, path)]
        #![trigger same_path(path, other)]
        #![trigger same_path(other, path)]
        {
            &&& path_before(path, other) || path_before(other, path) || same_path(path, other)
            &&& !(path_before(path, other) && path_before(other, path))
            &&& !(path_before(path, other) && same_path(path, other))
            &&& !(path_before(other, path) && same_path(path, other))
            &&& same_path(path, other) == same_path(other, path)
        }
    &&& forall|a: PathBuf, c: PathBuf| #[trigger]
        path_before(a, path) && #[trigger] path_before(path, c) ==> path_before(a, c)
    &&& forall|a: PathBuf, c: PathBuf|
        #![trigger same_path(path, a), path_before(a, c)]
        #![trigger same_path(path, a), path_before(path, c)]
        same_path(path, a) ==> path_before(a, c) == path_before(path, c)
    &&& forall|a: PathBuf, c: PathBuf|
        #![trigger same_path(path, a), path_before(c, a)]
        #![trigger same_path(path, a), path_before(c, path)]
        same_path(path, a) ==> path_before(c, a) == path_before(c, path)
}

/// Calls `slice::sort`, which keeps every one of the paths and puts them in order: of two of them
/// the first is before the other, or they are the same. The order is total and agrees with `==`, so
/// each path has its place in it, and paths that are the same stand together. The order that
/// results is a function of the paths.
#[verifier::external_body]
fn sort_paths(paths: &mut Vec<PathBuf>)
    ensures
        final(paths)@ == sorted_paths(old(paths)@),
        final(paths)@.to_multiset() == old(paths)@.to_multiset(),
        forall|i: int, k: int|
            0 <= i < k < final(paths)@.len() ==> path_before(
                #[trigger] final(paths)@[i],
                #[trigger] final(paths)@[k],
            ) || same_path(final(paths)@[k], final(paths)@[i]),
        forall|i: int, j: int, k: int|
            #![trigger same_path(final(paths)@[k], final(paths)@[i]), final(paths)@[j]]
            0 <= i < j < k < final(paths)@.len() && same_path(final(paths)@[k], final(paths)@[i])
                ==> same_path(final(paths)@[j], final(paths)@[i]),
        forall|i: int| 0 <= i < final(paths)@.len() ==> has_its_place(#[trigger] final(paths)@[i]),
{
    paths.sort();
}

/// Calls `==` on two paths. What it says is a function of the paths.
#[verifier::external_body]
fn is_same_path(a: &PathBuf, b: &PathBuf) -> (r: bool)
    ensures
        r == same_path(*a, *b),
{
    a == b
}

/// What was found under a name.
pub enum Probe {
    /// A file.
    File(PathBuf),
    /// A directory, with all files in it.
    Directory(Vec<PathBuf>),
    /// Nothing.
    Missing,
}

/// The files that were found.
pub open spec fn files_of(probes: Seq<Probe>) -> Seq<PathBuf>
    decreases probes.len(),
{
    if probes.len() == 0 {
        Seq::empty()
    } else {
        files_of(probes.drop_last()) + match probes.last() {
            Probe::File(path) => seq![path],
            Probe::Directory(paths) => paths@,
            Probe::Missing => Seq::empty(),
        }
    }
}

/// The index of the first name under which nothing was found, or the number of names if something
/// was found under each.
pub open spec fn first_missing(probes: Seq<Probe>) -> int
    decreases probes.len(),
{
    if probes.len() == 0 {
        0
    } else if probes[0] is Missing {
        0
    } else {
        1 + first_missing(probes.drop_first())
    }
}

/// The paths without those that are the same as the one kept before them.
pub open spec fn without_repeats(paths: Seq<PathBuf>) -> Seq<PathBuf>
    decreases paths.len(),
{
    if paths.len() == 0 {
        Seq::empty()
    } else {
        let before = without_repeats(paths.drop_last());
        if before.len() > 0 && same_path(paths.last(), before.last()) {
            before
        } else {
            before.push(paths.last())
        }
    }
}

/// Drops every path that is the same as the one kept before it.
pub fn drop_repeats(paths: Vec<PathBuf>) -> (r: Vec<PathBuf>)
    ensures
        r@ == without_repeats(paths@),
{
    let ghost all = paths@;
    let n: usize = paths.len();
    let mut rest = reversed(paths);
    let mut kept: Vec<PathBuf> = Vec::new();
    assert(all.skip(0) == all);
    assert(all.take(0) == Seq::<PathBuf>::empty());
    for i in 0..n
        invariant
            n == all.len(),
            rest@ == all.skip(i as int).reverse(),
            kept@ == without_repeats(all.take(i as int)),
    {
        assert(all.take(i + 1).drop_last() == all.take(i as int));
        let path = match rest.pop() {
            Some(path) => path,
            None => {
                return kept;
            },
        };
        assert(path == all[i as int]);
        assert(rest@ == all.skip(i + 1).reverse());
        let k: usize = kept.len();
        if k == 0 || !is_same_path(&path, &kept[k - 1]) {
            kept.push(path);
        }
    }
    assert(all.take(n as int) == all);
    kept
}

/// Gathers the files that were found, as far as there are any.
fn gather_files(probes: Vec<Probe>) -> (r: Vec<PathBuf>)
    ensures
        r@ == files_of(probes@),
{
    let ghost all = probes@;
    let n: usize = probes.len();
    let mut rest = reversed(probes);
    let mut files: Vec<PathBuf> = Vec::new();
    assert(all.skip(0) == all);
    assert(all.take(0) == Seq::<Probe>::empty());
    for i in 0..n
        invariant
            n == all.len(),
            rest@ == all.skip(i as int).reverse(),
            files@ == files_of(all.take(i as int)),
    {
        assert(all.take(i + 1).drop_last() == all.take(i as int));
        let probe = match rest.pop() {
            Some(probe) => probe,
            None => {
                return files;
            },
        };
        assert(probe == all[i as int]);
        assert(rest@ == all.skip(i + 1).reverse());
        let ghost before = files@;
        match probe {
            Probe::File(path) => {
                files.push(path);
                assert(files@ == before + seq![path]);
            },
            Probe::Directory(paths) => {
                let mut paths = paths;
                files.append(&mut paths);
            },
            Probe::Missing => {
                assert(files@ == before + Seq::<PathBuf>::empty());
            },
        }
    }
    assert(all.take(n as int) == all);
    files
}

/// What is said of a name under which nothing was found.
pub open spec fn not_found(name: Seq<char>) -> Seq<char> {
    "not found: "@ + name
}

proof fn missing_behind(probes: Seq<Probe>, i: int)
    requires
        0 <= i < probes.len(),
        forall|k: int| 0 <= k < i ==> !(#[trigger] probes[k] is Missing),
        probes[i] is Missing,
    ensures
        first_missing(probes) == i,
    decreases i,
{
    if i > 0 {
        assert(!(probes[0] is Missing));
        let rest = probes.drop_first();
        assert forall|k: int| 0 <= k < i - 1 implies !(#[trigger] rest[k] is Missing) by {
            assert(rest[k] == probes[k + 1]);
        }
        missing_behind(rest, i - 1);
    }
}

proof fn none_missing(probes: Seq<Probe>)
    requires
        forall|k: int| 0 <= k < probes.len() ==> !(#[trigger] probes[k] is Missing),
    ensures
        first_missing(probes) == probes.len(),
    decreases probes.len(),
{
    if probes.len() > 0 {
        assert(!(probes[0] is Missing));
        let rest = probes.drop_first();
        assert forall|k: int| 0 <= k < rest.len() implies !(#[trigger] rest[k] is Missing) by {
            assert(rest[k] == probes[k + 1]);
        }
        none_missing(rest);
    }
}

/// The files of the input, in order and without repeats, from what was found under the given
/// names. It is an error if nothing was found under one.
pub fn resolve_inputs(inputs: &Vec<String>, probes: Vec<Probe>) -> (r: Result<Vec<PathBuf>, String>)
    requires
        probes@.len() <= inputs@.len(),
    ensures
        ({
            let i = first_missing(probes@);
            match r {
                Ok(files) => {
                    &&& i == probes@.len()
                    &&& files@ == without_repeats(sorted_paths(files_of(probes@)))
                    &&& increasing(files@)
                    &&& all_placed(files@)
                    &&& made_of(files@, files_of(probes@))
                },
                Err(msg) => {
                    &&& i < probes@.len()
                    &&& msg@ == not_found(inputs@[i]@)
                },
            }
        }),
{
    let n: usize = probes.len();
    for i in 0..n
        invariant
            n == probes@.len(),
            n <= inputs@.len(),
            forall|k: int| 0 <= k < i ==> !(#[trigger] probes@[k] is Missing),
    {
        if matches!(probes[i], Probe::Missing) {
            proof {
                missing_behind(probes@, i as int);
            }
            let mut msg = "not found: ".to_owned();
            msg.append(inputs[i].as_str());
            return Err(msg);
        }
    }
    proof {
        none_missing(probes@);
    }
    Ok(resolve_present(probes))
}

/// The files of the input, in order and without repeats, from what was found. Names under which
/// nothing was found are passed over.
pub fn resolve_present(probes: Vec<Probe>) -> (r: Vec<PathBuf>)
    ensures
        r@ == without_repeats(sorted_paths(files_of(probes@))),
        increasing(r@),
        all_placed(r@),
        made_of(r@, files_of(probes@)),
{
    let mut files = gather_files(probes);
    let ghost found = files@;
    sort_paths(&mut files);
    proof {
        assert(in_order(files@));
        no_repeats_are_left(files@);
        every_path_is_kept(files@);
        made_of_any_order(without_repeats(files@), files@, found);
        kept_in_place(files@);
        assert forall|i: int| 0 <= i < without_repeats(files@).len() implies has_its_place(
            #[trigger] without_repeats(files@)[i],
        ) by {
            assert(has_its_place(files@[kept_at(files@)[i]]));
        }
    }
    drop_repeats(files)
}

/// Whether paths are in order, the same ones together.
pub open spec fn in_order(paths: Seq<PathBuf>) -> bool {
    &&& forall|i: int, k: int|
        0 <= i < k < paths.len() ==> path_before(#[trigger] paths[i], #[trigger] paths[k])
            || same_path(paths[k], paths[i])
    &&& forall|i: int, j: int, k: int|
        #![trigger same_path(paths[k], paths[i]), paths[j]]
        0 <= i < j < k < paths.len() && same_path(paths[k], paths[i]) ==> same_path(
            paths[j],
            paths[i],
        )
}

/// Whether each path is before all that follow it, and is the same as none of them.
pub open spec fn increasing(paths: Seq<PathBuf>) -> bool {
    forall|i: int, k: int|
        0 <= i < k < paths.len() ==> path_before(#[trigger] paths[i], #[trigger] paths[k])
            && !same_path(paths[k], paths[i])
}

/// Whether all paths have their place in the order.
pub open spec fn all_placed(paths: Seq<PathBuf>) -> bool {
    forall|i: int| 0 <= i < paths.len() ==> has_its_place(#[trigger] paths[i])
}

/// Whether the result is made of the paths that were found: every one of the result is one of
/// them, and for every one of them the result holds it or one that is the same.
pub open spec fn made_of(result: Seq<PathBuf>, found: Seq<PathBuf>) -> bool {
    &&& forall|k: int| 0 <= k < result.len() ==> found.contains(#[trigger] result[k])
    &&& forall|i: int| 0 <= i < found.len() ==> stands_for(result, #[trigger] found[i])
}

/// Whether paths hold a path, or one that is the same.
pub open spec fn stands_for(paths: Seq<PathBuf>, path: PathBuf) -> bool {
    exists|k: int|
        0 <= k < paths.len() && (#[trigger] paths[k] == path || same_path(path, paths[k]))
}

/// Where the paths stand that are not dropped.
spec fn kept_at(paths: Seq<PathBuf>) -> Seq<int>
    decreases paths.len(),
{
    if paths.len() == 0 {
        Seq::empty()
    } else {
        let before = without_repeats(paths.drop_last());
        if before.len() > 0 && same_path(paths.last(), before.last()) {
            kept_at(paths.drop_last())
        } else {
            kept_at(paths.drop_last()).push(paths.len() - 1)
        }
    }
}

proof fn kept_in_place(paths: Seq<PathBuf>)
    ensures
        kept_at(paths).len() == without_repeats(paths).len(),
        forall|i: int|
            0 <= i < kept_at(paths).len() ==> 0 <= #[trigger] kept_at(paths)[i] < paths.len()
                && without_repeats(paths)[i] == paths[kept_at(paths)[i]],
        forall|i: int, k: int|
            0 <= i < k < kept_at(paths).len() ==> #[trigger] kept_at(paths)[i]
                < #[trigger] kept_at(paths)[k],
    decreases paths.len(),
{
    if paths.len() > 0 {
        kept_in_place(paths.drop_last());
        let before = kept_at(paths.drop_last());
        assert forall|i: int| 0 <= i < kept_at(paths).len() implies 0 <= #[trigger] kept_at(
            paths,
        )[i] < paths.len() && without_repeats(paths)[i] == paths[kept_at(paths)[i]] by {
            if i < before.len() {
                assert(before[i] == kept_at(paths)[i]);
            }
        }
    }
}

/// Of paths in order, what is left without repeats is strictly increasing.
pub proof fn no_repeats_are_left(paths: Seq<PathBuf>)
    requires
        in_order(paths),
    ensures
        increasing(without_repeats(paths)),
    decreases paths.len(),
{
    if paths.len() > 0 {
        let front = paths.drop_last();
        let before = without_repeats(front);
        let all = without_repeats(paths);
        let n = paths.len() - 1;
        assert(in_order(front)) by {
            assert forall|i: int, j: int, k: int|
                #![trigger same_path(front[k], front[i]), front[j]]
                0 <= i < j < k < front.len() && same_path(front[k], front[i]) implies same_path(
                front[j],
                front[i],
            ) by {
                assert(same_path(paths[k], paths[i]));
                assert(paths[j] == front[j]);
            }
        }
        no_repeats_are_left(front);
        kept_in_place(front);
        if !(before.len() > 0 && same_path(paths.last(), before.last())) {
            assert forall|i: int, k: int| 0 <= i < k < all.len() implies path_before(
                #[trigger] all[i],
                #[trigger] all[k],
            ) && !same_path(all[k], all[i]) by {
                if k < before.len() {
                    assert(before[i] == all[i] && before[k] == all[k]);
                } else {
                    let p = kept_at(front)[i];
                    let m = before.len() - 1;
                    let q = kept_at(front)[m];
                    assert(all[i] == paths[p] && all[k] == paths[n]);
                    if same_path(paths[n], paths[p]) {
                        if i < m {
                            assert(p < q);
                            assert(paths[q] == before[m]);
                            assert(same_path(paths[q], paths[p]));
                            assert(same_path(before[m], before[i]));
                        }
                        assert(false);
                    }
                }
            }
        }
    }
}

/// Every path that is left without repeats was there, and every one that was there is left, or
/// one that is the same.
pub proof fn every_path_is_kept(paths: Seq<PathBuf>)
    ensures
        made_of(without_repeats(paths), paths),
    decreases paths.len(),
{
    if paths.len() > 0 {
        let front = paths.drop_last();
        let before = without_repeats(front);
        let all = without_repeats(paths);
        every_path_is_kept(front);
        kept_in_place(paths);
        assert forall|k: int| 0 <= k < all.len() implies paths.contains(#[trigger] all[k]) by {
            assert(paths[kept_at(paths)[k]] == all[k]);
        }
        assert forall|i: int| 0 <= i < paths.len() implies stands_for(all, #[trigger] paths[i]) by {
            if i < front.len() {
                assert(stands_for(before, front[i]));
                let k = choose|k: int|
                    0 <= k < before.len() && (#[trigger] before[k] == front[i] || same_path(
                        front[i],
                        before[k],
                    ));
                assert(all[k] == before[k]);
            } else {
                let k = all.len() - 1;
                assert(all[k] == paths[i] || same_path(paths[i], all[k]));
            }
        }
    }
}

/// Paths made of others, put in another order, are made of these.
proof fn made_of_any_order(result: Seq<PathBuf>, found: Seq<PathBuf>, other: Seq<PathBuf>)
    requires
        made_of(result, found),
        found.to_multiset() == other.to_multiset(),
    ensures
        made_of(result, other),
{
    broadcast use vstd::seq_lib::group_to_multiset_ensures;

    assert forall|k: int| 0 <= k < result.len() implies other.contains(#[trigger] result[k]) by {
        assert(found.to_multiset().count(result[k]) > 0);
    }
    assert forall|i: int| 0 <= i < other.len() implies stands_for(result, #[trigger] other[i]) by {
        assert(other.to_multiset().count(other[i]) > 0);
        assert(found.contains(other[i]));
        let j = choose|j: int| 0 <= j < found.len() && found[j] == other[i];
        assert(stands_for(result, found[j]));
    }
}

/// Where the same path as `path` stands among paths.
spec fn place_among(paths: Seq<PathBuf>, path: PathBuf) -> int {
    choose|k: int| 0 <= k < paths.len() && same_path(path, #[trigger] paths[k])
}

proof fn each_has_its_like(a: Seq<PathBuf>, b: Seq<PathBuf>, found: Seq<PathBuf>)
    requires
        all_placed(a),
        all_placed(b),
        made_of(a, found),
        made_of(b, found),
    ensures
        forall|i: int|
            0 <= i < a.len() ==> 0 <= place_among(b, #[trigger] a[i]) < b.len() && same_path(
                a[i],
                b[place_among(b, a[i])],
            ),
{
    assert forall|i: int| 0 <= i < a.len() implies 0 <= place_among(b, #[trigger] a[i]) < b.len()
        && same_path(a[i], b[place_among(b, a[i])]) by {
        assert(found.contains(a[i]));
        let j = choose|j: int| 0 <= j < found.len() && found[j] == a[i];
        assert(stands_for(b, found[j]));
        let k = choose|k: int|
            0 <= k < b.len() && (#[trigger] b[k] == found[j] || same_path(found[j], b[k]));
        assert(has_its_place(a[i]));
        assert(same_path(a[i], b[k]));
    }
}

proof fn places_increase(a: Seq<PathBuf>, b: Seq<PathBuf>, i: int, j: int)
    requires
        all_placed(a),
        all_placed(b),
        increasing(a),
        increasing(b),
        0 <= i < j < a.len(),
        0 <= place_among(b, a[i]) < b.len(),
        0 <= place_among(b, a[j]) < b.len(),
        same_path(a[i], b[place_among(b, a[i])]),
        same_path(a[j], b[place_among(b, a[j])]),
    ensures
        place_among(b, a[i]) < place_among(b, a[j]),
{
    let p = b[place_among(b, a[i])];
    let q = b[place_among(b, a[j])];
    assert(has_its_place(a[i]) && has_its_place(a[j]) && has_its_place(p) && has_its_place(q));
    assert(path_before(a[i], a[j]));
    assert(path_before(p, a[j]));
    assert(path_before(p, q));
    if place_among(b, a[i]) > place_among(b, a[j]) {
        assert(path_before(q, p));
    }
}

proof fn before_places(a: Seq<PathBuf>, b: Seq<PathBuf>, i: int)
    requires
        all_placed(a),
        all_placed(b),
        increasing(a),
        increasing(b),
        0 <= i < a.len(),
        forall|k: int|
            0 <= k < a.len() ==> 0 <= place_among(b, #[trigger] a[k]) < b.len() && same_path(
                a[k],
                b[place_among(b, a[k])],
            ),
    ensures
        i <= place_among(b, a[i]),
    decreases i,
{
    assert(0 <= place_among(b, a[i]) < b.len());
    if i > 0 {
        before_places(a, b, i - 1);
        assert(0 <= place_among(b, a[i - 1]) < b.len());
        places_increase(a, b, i - 1, i);
    }
}

proof fn behind_places(a: Seq<PathBuf>, b: Seq<PathBuf>, i: int)
    requires
        all_placed(a),
        all_placed(b),
        increasing(a),
        increasing(b),
        0 <= i < a.len(),
        forall|k: int|
            0 <= k < a.len() ==> 0 <= place_among(b, #[trigger] a[k]) < b.len() && same_path(
                a[k],
                b[place_among(b, a[k])],
            ),
    ensures
        place_among(b, a[i]) + (a.len() - 1 - i) < b.len(),
    decreases a.len() - i,
{
    assert(0 <= place_among(b, a[i]) < b.len());
    if i < a.len() - 1 {
        behind_places(a, b, i + 1);
        assert(0 <= place_among(b, a[i + 1]) < b.len());
        places_increase(a, b, i, i + 1);
    }
}

/// The order in which files are found does not matter: two strictly increasing lists made of the
/// same files, found in any order, hold the same paths at the same places.
pub proof fn order_of_inputs_does_not_matter(
    found_a: Seq<PathBuf>,
    a: Seq<PathBuf>,
    found_b: Seq<PathBuf>,
    b: Seq<PathBuf>,
)
    requires
        found_a.to_multiset() == found_b.to_multiset(),
        all_placed(a),
        all_placed(b),
        increasing(a),
        increasing(b),
        made_of(a, found_a),
        made_of(b, found_b),
    ensures
        a.len() == b.len(),
        forall|i: int| 0 <= i < a.len() ==> same_path(#[trigger] a[i], b[i]),
{
    made_of_any_order(b, found_b, found_a);
    each_has_its_like(a, b, found_a);
    each_has_its_like(b, a, found_a);
    if a.len() > 0 {
        before_places(a, b, 0);
        behind_places(a, b, 0);
    }
    if b.len() > 0 {
        before_places(b, a, 0);
        behind_places(b, a, 0);
    }
    assert forall|i: int| 0 <= i < a.len() implies same_path(#[trigger] a[i], b[i]) by {
        before_places(a, b, i);
        behind_places(a, b, i);
        assert(place_among(b, a[i]) == i);
    }
}

/// The files that were found are those of all names, one name after the other: a file itself, and
/// all files of a directory.
pub proof fn files_are_those_of_all_names(
    a: Seq<Probe>,
    b: Seq<Probe>,
    path: PathBuf,
    dir: Vec<PathBuf>,
)
    ensures
        files_of(a + b) == files_of(a) + files_of(b),
        files_of(seq![Probe::File(path)]) == seq![path],
        files_of(seq![Probe::Directory(dir)]) == dir@,
        files_of(seq![Probe::Missing]) == Seq::<PathBuf>::empty(),
    decreases b.len(),
{
    let none = Seq::<Probe>::empty();
    assert(files_of(none) =~= Seq::<PathBuf>::empty());
    assert(seq![Probe::File(path)].drop_last() =~= none);
    assert(seq![Probe::Directory(dir)].drop_last() =~= none);
    assert(seq![Probe::Missing].drop_last() =~= none);
    assert(files_of(seq![Probe::File(path)]) =~= seq![path]);
    assert(files_of(seq![Probe::Directory(dir)]) =~= dir@);
    assert(files_of(seq![Probe::Missing]) =~= Seq::<PathBuf>::empty());
    if b.len() == 0 {
        assert(a + b =~= a);
        assert(files_of(a) + files_of(b) =~= files_of(a));
    } else {
        files_are_those_of_all_names(a, b.drop_last(), path, dir);
        assert((a + b).drop_last() =~= a + b.drop_last());
        assert(files_of(a + b) =~= files_of(a) + files_of(b));
    }
}

/// The first name that is missing is missing, and none before it is.
pub proof fn first_missing_name_is_found(probes: Seq<Probe>)
    ensures
        0 <= first_missing(probes) <= probes.len(),
        forall|i: int| 0 <= i < first_missing(probes) ==> !(#[trigger] probes[i] is Missing),
        first_missing(probes) < probes.len() ==> probes[first_missing(probes)] is Missing,
    decreases probes.len(),
{
    if probes.len() > 0 && !(probes[0] is Missing) {
        let rest = probes.drop_first();
        first_missing_name_is_found(rest);
        assert forall|i: int| 0 <= i < first_missing(probes) implies !(
        #[trigger] probes[i] is Missing) by {
            if i > 0 {
                assert(probes[i] == rest[i - 1]);
            }
        }
    }
}

/// Without repeats no path is left that is the same as the one before it, the first stays, and paths
/// that have no repeats are left as they are.
pub proof fn only_repeats_are_dropped(paths: Seq<PathBuf>)
    ensures
        forall|i: int|
            0 < i < without_repeats(paths).len() ==> !same_path(
                #[trigger] without_repeats(paths)[i],
                without_repeats(paths)[i - 1],
            ),
        paths.len() > 0 ==> without_repeats(paths).len() > 0 && without_repeats(paths)[0]
            == paths[0],
        (forall|i: int| 0 < i < paths.len() ==> !same_path(#[trigger] paths[i], paths[i - 1]))
            ==> without_repeats(paths) == paths,
    decreases paths.len(),
{
    if paths.len() > 0 {
        let front = paths.drop_last();
        only_repeats_are_dropped(front);
        let before = without_repeats(front);
        let all = without_repeats(paths);
        assert forall|i: int| 0 < i < all.len() implies !same_path(#[trigger] all[i], all[i - 1]) by {
            if i < before.len() {
                assert(all[i] == before[i] && all[i - 1] == before[i - 1]);
            }
        }
        if forall|i: int| 0 < i < paths.len() ==> !same_path(#[trigger] paths[i], paths[i - 1]) {
            assert forall|i: int| 0 < i < front.len() implies !same_path(
                #[trigger] front[i],
                front[i - 1],
            ) by {
                assert(front[i] == paths[i] && front[i - 1] == paths[i - 1]);
            }
            if front.len() > 0 {
                assert(!same_path(paths[paths.len() - 1], paths[paths.len() - 2]));
            }
            assert(all =~= paths);
        }
    }
}

}
