//! Sorted listings of the files that a directory holds under one extension.

use vstd::prelude::*;

use crate::paths::{copy_bytes, is_before, with_extension};
use crate::storage::{DiskModel, IoError, Storage};

verus! {

/// The files directly inside `dir` with extension `ext`.
pub open spec fn wanted(disk: DiskModel, dir: Seq<u8>, ext: Seq<u8>) -> spec_fn(Seq<u8>) -> bool {
    |p: Seq<u8>|
        disk.has(p) && crate::paths::is_child(p, dir) && crate::paths::has_extension(p, ext)
}

/// Their paths, sorted.
pub open spec fn listing(disk: DiskModel, dir: Seq<u8>, ext: Seq<u8>) -> Seq<Seq<u8>> {
    choose|l: Seq<Seq<u8>>| crate::paths::is_listing(l, wanted(disk, dir, ext))
}

/// A sorted list of exactly those files is the listing.
pub proof fn lemma_is_the_listing(l: Seq<Seq<u8>>, disk: DiskModel, dir: Seq<u8>, ext: Seq<u8>)
    requires
        crate::paths::is_listing(l, wanted(disk, dir, ext)),
    ensures
        listing(disk, dir, ext) == l,
{
    crate::paths::lemma_listing_unique(l, listing(disk, dir, ext), wanted(disk, dir, ext));
}

/// Disks with the same paths have the same listings.
pub proof fn lemma_listing_of_same_paths(
    a: DiskModel,
    b: DiskModel,
    dir: Seq<u8>,
    ext: Seq<u8>,
)
    requires
        a.files.dom() == b.files.dom(),
    ensures
        listing(a, dir, ext) == listing(b, dir, ext),
{
    assert forall|p: Seq<u8>| a.has(p) == b.has(p) by {
        assert(a.files.dom().contains(p) == b.files.dom().contains(p));
    }
    assert(wanted(a, dir, ext) =~= wanted(b, dir, ext));
}

/// Appends a path that sorts behind all others.
pub proof fn lemma_listing_push(
    before: DiskModel,
    after: DiskModel,
    dir: Seq<u8>,
    ext: Seq<u8>,
    path: Seq<u8>,
)
    requires
        crate::paths::is_listing(listing(before, dir, ext), wanted(before, dir, ext)),
        after.files.dom() == before.files.dom().insert(path),
        crate::paths::is_child(path, dir),
        crate::paths::has_extension(path, ext),
        forall|i: int|
            0 <= i < listing(before, dir, ext).len() ==> crate::paths::sorts_before(
                #[trigger] listing(before, dir, ext)[i],
                path,
            ),
    ensures
        crate::paths::is_listing(listing(after, dir, ext), wanted(after, dir, ext)),
        listing(after, dir, ext) == listing(before, dir, ext).push(path),
{
    let l = listing(before, dir, ext);
    let m = l.push(path);
    assert forall|p: Seq<u8>| #[trigger] after.has(p) == (before.has(p) || p == path) by {
        assert(after.files.dom().contains(p) == before.files.dom().insert(path).contains(p));
    }
    assert forall|i: int, j: int|
        0 <= i < j < m.len() implies #[trigger] crate::paths::sorts_before(m[i], m[j]) by {
        if j < l.len() {
            assert(crate::paths::sorts_before(l[i], l[j]));
        } else {
            assert(crate::paths::sorts_before(l[i], path));
        }
    }
    let w = wanted(after, dir, ext);
    assert forall|i: int| 0 <= i < m.len() implies w(#[trigger] m[i]) by {
        if i < l.len() {
            assert(wanted(before, dir, ext)(l[i]));
        }
    }
    assert forall|p: Seq<u8>| #[trigger] w(p) implies m.contains(p) by {
        if p == path {
            assert(m[l.len() as int] == p);
        } else {
            assert(wanted(before, dir, ext)(p));
            let i = choose|i: int| 0 <= i < l.len() && l[i] == p;
            assert(m[i] == p);
        }
    }
    assert(crate::paths::is_listing(m, w));
    lemma_is_the_listing(m, after, dir, ext);
}

spec fn views(paths: Seq<Vec<u8>>) -> Seq<Seq<u8>> {
    paths.map_values(|p: Vec<u8>| p@)
}

spec fn ascending(paths: Seq<Vec<u8>>) -> bool {
    forall|i: int, j: int|
        0 <= i < j < paths.len() ==> #[trigger] crate::paths::sorts_before(paths[i]@, paths[j]@)
}

/// Puts `path`, which is not in the list, where it sorts.
fn insert_sorted(list: &mut Vec<Vec<u8>>, path: Vec<u8>)
    requires
        ascending(old(list)@),
        forall|i: int| 0 <= i < old(list)@.len() ==> #[trigger] old(list)@[i]@ != path@,
    ensures
        ascending(final(list)@),
        exists|at: int|
            0 <= at <= old(list)@.len() && final(list)@ == #[trigger] old(list)@.insert(at, path),
{
    let ghost start = list@;
    let mut at: usize = 0;
    while at < list.len() && is_before(list[at].as_slice(), path.as_slice())
        invariant
            at <= list@.len(),
            list@ == start,
            forall|k: int|
                0 <= k < at ==> crate::paths::sorts_before(#[trigger] list@[k]@, path@),
        decreases list@.len() - at,
    {
        at = at + 1;
    }
    list.insert(at, path);
    proof {
        let end = list@;
        if at < start.len() {
            crate::paths::lemma_sorts_total(start[at as int]@, path@);
        }
        assert forall|k: int| at <= k < start.len() implies crate::paths::sorts_before(
            path@,
            #[trigger] start[k]@,
        ) by {
            if k > at {
                assert(crate::paths::sorts_before(start[at as int]@, start[k]@));
                crate::paths::lemma_sorts_transitive(path@, start[at as int]@, start[k]@);
            }
        }
        assert forall|i: int, j: int|
            0 <= i < j < end.len() implies #[trigger] crate::paths::sorts_before(
            end[i]@,
            end[j]@,
        ) by {
            if j < at {
                assert(end[i] == start[i] && end[j] == start[j]);
            } else if j == at {
                assert(end[i] == start[i]);
            } else if i < at {
                assert(end[i] == start[i] && end[j] == start[j - 1]);
            } else if i == at {
                assert(end[j] == start[j - 1]);
            } else {
                assert(end[i] == start[i - 1] && end[j] == start[j - 1]);
            }
        }
    }
}

/// The paths, sorted, of the files directly inside `dir` with extension `ext`.
pub fn sorted_listing<St: Storage>(storage: &St, dir: &[u8], ext: &[u8]) -> (r: Result<
    Vec<Vec<u8>>,
    IoError,
>)
    ensures
        r matches Ok(l) ==> {
            &&& l@.map_values(|p: Vec<u8>| p@) == listing(storage.view(), dir@, ext@)
            &&& crate::paths::is_listing(
                listing(storage.view(), dir@, ext@),
                wanted(storage.view(), dir@, ext@),
            )
        },
        r is Ok <==> storage.listable(dir@),
        storage.reliable() ==> r is Ok,
{
    let all = storage.list_dir(dir)?;
    let ghost paths = views(all@);
    let ghost disk = storage.view();
    let mut list: Vec<Vec<u8>> = Vec::new();
    let mut i: usize = 0;
    while i < all.len()
        invariant
            i <= all@.len(),
            paths == views(all@),
            crate::storage::lists(paths, disk, dir@),
            disk == storage.view(),
            ascending(list@),
            forall|k: int|
                0 <= k < list@.len() ==> wanted(disk, dir@, ext@)(#[trigger] list@[k]@)
                    && exists|j: int| 0 <= j < i && paths[j] == list@[k]@,
            forall|j: int|
                0 <= j < i && crate::paths::has_extension(#[trigger] paths[j], ext@)
                    ==> exists|k: int| 0 <= k < list@.len() && list@[k]@ == paths[j],
        decreases all@.len() - i,
    {
        if with_extension(all[i].as_slice(), ext) {
            let path = copy_bytes(all[i].as_slice());
            let ghost before = list@;
            proof {
                assert(paths[i as int] == path@);
                assert forall|k: int| 0 <= k < before.len() implies #[trigger] before[k]@
                    != path@ by {
                    let j = choose|j: int| 0 <= j < i && paths[j] == before[k]@;
                    assert(paths[j] != paths[i as int]);
                }
            }
            insert_sorted(&mut list, path);
            proof {
                let at = choose|at: int|
                    0 <= at <= before.len() && list@ == #[trigger] before.insert(at, path);
                assert forall|k: int| 0 <= k < list@.len() implies wanted(disk, dir@, ext@)(
                    #[trigger] list@[k]@,
                ) && exists|j: int| 0 <= j < i + 1 && paths[j] == list@[k]@ by {
                    if k < at {
                        assert(list@[k] == before[k]);
                        let j = choose|j: int| 0 <= j < i && paths[j] == before[k]@;
                        assert(paths[j] == list@[k]@);
                    } else if k == at {
                        assert(list@[k] == path);
                        assert(paths[i as int] == list@[k]@);
                    } else {
                        assert(list@[k] == before[k - 1]);
                        let j = choose|j: int| 0 <= j < i && paths[j] == before[k - 1]@;
                        assert(paths[j] == list@[k]@);
                    }
                }
                assert forall|j: int|
                    0 <= j < i + 1 && crate::paths::has_extension(
                        #[trigger] paths[j],
                        ext@,
                    ) implies exists|k: int| 0 <= k < list@.len() && list@[k]@ == paths[j] by {
                    if j < i {
                        let k = choose|k: int| 0 <= k < before.len() && before[k]@ == paths[j];
                        if k < at {
                            assert(list@[k] == before[k]);
                        } else {
                            assert(list@[k + 1] == before[k]);
                        }
                    } else {
                        assert(list@[at] == path);
                    }
                }
            }
        }
        i = i + 1;
    }
    proof {
        let l = views(list@);
        let w = wanted(disk, dir@, ext@);
        assert forall|a: int, b: int|
            0 <= a < b < l.len() implies #[trigger] crate::paths::sorts_before(l[a], l[b]) by {
            assert(crate::paths::sorts_before(list@[a]@, list@[b]@));
        }
        assert forall|a: int| 0 <= a < l.len() implies w(#[trigger] l[a]) by {
            assert(w(list@[a]@));
        }
        assert forall|p: Seq<u8>| #[trigger] w(p) implies l.contains(p) by {
            assert(disk.has(p));
            assert(paths.contains(p));
            let j = choose|j: int| 0 <= j < paths.len() && paths[j] == p;
            assert(crate::paths::has_extension(paths[j], ext@));
            let k = choose|k: int| 0 <= k < list@.len() && list@[k]@ == paths[j];
            assert(l[k] == p);
        }
        lemma_is_the_listing(l, disk, dir@, ext@);
    }
    Ok(list)
}

} // verus!
