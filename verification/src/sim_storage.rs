//! In-memory storage with seeded fault injection: the simulated disk.
//!
//! - Writes land in an unsynced buffer; a sync moves them to the synced
//!   region. Readers see both.
//! - [`SimStorage::crash`] simulates power loss: of every file, a seeded
//!   prefix of the unsynced bytes survives and the rest vanishes; optionally
//!   a surviving byte is bit-flipped. What survives is durable.
//! - A crash bumps the epoch; file handles opened before it fail every
//!   operation from then on.

use vstd::prelude::*;

use crate::paths::{child_of, copy_bytes, is_before, same_bytes};
use crate::rng::Rng;
use crate::storage::{Disk, DiskModel, FileModel, IoError, Storage, StorageFile};

verus! {

struct SimEntry {
    path: Vec<u8>,
    synced: Vec<u8>,
    unsynced: Vec<u8>,
}

impl SimEntry {
    spec fn model(&self) -> FileModel {
        FileModel { synced: self.synced@, unsynced: self.unsynced@ }
    }
}

/// Sorted by path, each path once.
spec fn sorted(entries: Seq<SimEntry>) -> bool {
    forall|i: int, j: int|
        0 <= i < j < entries.len() ==> #[trigger] crate::paths::sorts_before(
            entries[i].path@,
            entries[j].path@,
        )
}

/// Where the file at `p` is among the entries.
spec fn place(entries: Seq<SimEntry>, p: Seq<u8>) -> int {
    choose|i: int| 0 <= i < entries.len() && #[trigger] entries[i].path@ == p
}

spec fn files(entries: Seq<SimEntry>) -> Map<Seq<u8>, FileModel> {
    Map::new(
        |p: Seq<u8>| exists|i: int| 0 <= i < entries.len() && #[trigger] entries[i].path@ == p,
        |p: Seq<u8>| entries[place(entries, p)].model(),
    )
}

proof fn lemma_distinct(entries: Seq<SimEntry>, i: int, j: int)
    requires
        sorted(entries),
        0 <= i < entries.len(),
        0 <= j < entries.len(),
        entries[i].path@ == entries[j].path@,
    ensures
        i == j,
{
    crate::paths::lemma_sorts_irreflexive(entries[i].path@);
    if i < j {
        assert(crate::paths::sorts_before(entries[i].path@, entries[j].path@));
    } else if j < i {
        assert(crate::paths::sorts_before(entries[j].path@, entries[i].path@));
    }
}

proof fn lemma_files_at(entries: Seq<SimEntry>, i: int)
    requires
        sorted(entries),
        0 <= i < entries.len(),
    ensures
        files(entries).contains_key(entries[i].path@),
        files(entries)[entries[i].path@] == entries[i].model(),
{
    lemma_distinct(entries, i, place(entries, entries[i].path@));
}

proof fn lemma_files_update(before: Seq<SimEntry>, after: Seq<SimEntry>, at: int)
    requires
        sorted(before),
        before.len() == after.len(),
        0 <= at < before.len(),
        after[at].path@ == before[at].path@,
        forall|k: int| 0 <= k < before.len() && k != at ==> after[k] == before[k],
    ensures
        sorted(after),
        files(after) == files(before).insert(before[at].path@, after[at].model()),
{
    assert forall|k: int| 0 <= k < before.len() implies #[trigger] after[k].path@
        == before[k].path@ by {}
    assert forall|i: int, j: int|
        0 <= i < j < after.len() implies #[trigger] crate::paths::sorts_before(
        after[i].path@,
        after[j].path@,
    ) by {
        assert(crate::paths::sorts_before(before[i].path@, before[j].path@));
    }
    let m = files(before).insert(before[at].path@, after[at].model());
    assert forall|p: Seq<u8>| files(after).contains_key(p) <==> m.contains_key(p) by {
        if files(after).contains_key(p) {
            let i = choose|i: int| 0 <= i < after.len() && #[trigger] after[i].path@ == p;
            lemma_files_at(before, i);
        }
        if files(before).contains_key(p) {
            let i = choose|i: int| 0 <= i < before.len() && #[trigger] before[i].path@ == p;
            assert(after[i].path@ == p);
        }
        if p == before[at].path@ {
            assert(after[at].path@ == p);
        }
    }
    assert forall|p: Seq<u8>| files(after).contains_key(p) implies files(after)[p] == m[p] by {
        let i = choose|i: int| 0 <= i < after.len() && #[trigger] after[i].path@ == p;
        lemma_files_at(after, i);
        lemma_files_at(before, i);
        if i != at {
            if before[at].path@ == p {
                lemma_distinct(before, i, at);
            }
        }
    }
    assert(files(after) =~= m);
}

/// Entries that agree one by one hold the same files.
proof fn lemma_same_files(a: Seq<SimEntry>, b: Seq<SimEntry>)
    requires
        sorted(a),
        sorted(b),
        a.len() == b.len(),
        forall|k: int|
            0 <= k < a.len() ==> (#[trigger] b[k]).path@ == a[k].path@ && b[k].model()
                == a[k].model(),
    ensures
        files(a) == files(b),
{
    assert forall|p: Seq<u8>| #[trigger] files(a).contains_key(p) == files(b).contains_key(p) && (
    files(a).contains_key(p) ==> files(a)[p] == files(b)[p]) by {
        if files(a).contains_key(p) {
            let i = place(a, p);
            assert(b[i].path@ == p);
            lemma_files_at(a, i);
            lemma_files_at(b, i);
        }
        if files(b).contains_key(p) {
            let i = place(b, p);
            assert(b[i].path@ == a[i].path@);
            lemma_files_at(a, i);
        }
    }
    assert(files(a).dom() =~= files(b).dom()) by {
        assert forall|p: Seq<u8>| files(a).dom().contains(p) == files(b).dom().contains(p) by {
            assert(files(a).contains_key(p) == files(b).contains_key(p));
        }
    }
    assert(files(a) =~= files(b));
}

/// A simulated disk.
pub struct SimStorage {
    entries: Vec<SimEntry>,
    epoch: u64,
}

/// What power loss leaves of one file, and the generator's state afterwards.
pub open spec fn crash_file(file: FileModel, rng: u64, torn: bool) -> (FileModel, u64) {
    let room: u64 = if file.unsynced.len() < u64::MAX {
        (file.unsynced.len() + 1) as u64
    } else {
        u64::MAX
    };
    let keep = crate::rng::draw(rng) % room;
    let survivors = file.unsynced.take(keep as int);
    let s1 = crate::rng::next_state(rng);
    if torn && keep > 0 {
        let s2 = crate::rng::next_state(s1);
        if crate::rng::draw(s1) % 4 < 1 {
            let s3 = crate::rng::next_state(s2);
            let s4 = crate::rng::next_state(s3);
            let at = crate::rng::draw(s2) % keep;
            let bit = crate::rng::draw(s3) % 8;
            (
                FileModel {
                    synced: file.synced + survivors.update(
                        at as int,
                        survivors[at as int] ^ (1u8 << bit),
                    ),
                    unsynced: Seq::empty(),
                },
                s4,
            )
        } else {
            (FileModel { synced: file.synced + survivors, unsynced: Seq::empty() }, s2)
        }
    } else {
        (FileModel { synced: file.synced + survivors, unsynced: Seq::empty() }, s1)
    }
}

/// What power loss leaves of the files, taken in path order.
pub open spec fn crash_files(files: Seq<FileModel>, rng: u64, torn: bool) -> (Seq<FileModel>, u64)
    decreases files.len(),
{
    if files.len() == 0 {
        (files, rng)
    } else {
        let (front, mid) = crash_files(files.drop_last(), rng, torn);
        let (last, end) = crash_file(files.last(), mid, torn);
        (front.push(last), end)
    }
}

/// What is on the disk.
pub open spec fn present(disk: DiskModel) -> spec_fn(Seq<u8>) -> bool {
    |p: Seq<u8>| disk.has(p)
}

/// The paths on the disk, sorted.
pub open spec fn all_paths(disk: DiskModel) -> Seq<Seq<u8>> {
    choose|l: Seq<Seq<u8>>| crate::paths::is_listing(l, present(disk))
}

/// The files on the disk, in the order of their paths.
pub open spec fn files_in_order(disk: DiskModel) -> Seq<FileModel> {
    all_paths(disk).map_values(|p: Seq<u8>| disk.files[p])
}

/// What power loss leaves of the disk, and the generator's state afterwards.
pub open spec fn power_loss(disk: DiskModel, rng: u64, torn: bool) -> (DiskModel, u64) {
    let paths = all_paths(disk);
    let (left, end) = crash_files(files_in_order(disk), rng, torn);
    let files = Map::new(
        |p: Seq<u8>| disk.has(p),
        |p: Seq<u8>| left[paths.index_of(p)],
    );
    (DiskModel { files, epoch: disk.epoch + 1 }, end)
}

/// The entries list what is on the disk.
proof fn lemma_entries_listed(entries: Seq<SimEntry>, disk: DiskModel)
    requires
        sorted(entries),
        disk.files == files(entries),
    ensures
        entries.map_values(|e: SimEntry| e.path@) == all_paths(disk),
        entries.map_values(|e: SimEntry| e.model()) == files_in_order(disk),
        crate::paths::is_listing(all_paths(disk), present(disk)),
        forall|i: int|
            0 <= i < entries.len() ==> #[trigger] all_paths(disk).index_of(entries[i].path@) == i,
{
    let paths = entries.map_values(|e: SimEntry| e.path@);
    assert forall|i: int, j: int| 0 <= i < j < paths.len() implies
        #[trigger] crate::paths::sorts_before(paths[i], paths[j]) by {
        assert(crate::paths::sorts_before(entries[i].path@, entries[j].path@));
    }
    assert forall|i: int| 0 <= i < paths.len() implies present(disk)(#[trigger] paths[i]) by {
        lemma_files_at(entries, i);
    }
    assert forall|p: Seq<u8>| #[trigger] present(disk)(p) implies paths.contains(p) by {
        let k = choose|k: int| 0 <= k < entries.len() && #[trigger] entries[k].path@ == p;
        assert(paths[k] == p);
    }
    assert(crate::paths::is_listing(paths, present(disk)));
    crate::paths::lemma_listing_unique(paths, all_paths(disk), present(disk));
    assert forall|i: int| 0 <= i < entries.len() implies entries[i].model()
        == disk.files[#[trigger] paths[i]] by {
        lemma_files_at(entries, i);
    }
    assert(entries.map_values(|e: SimEntry| e.model()) =~= files_in_order(disk));
    assert forall|i: int| 0 <= i < entries.len() implies #[trigger] all_paths(disk).index_of(
        entries[i].path@,
    ) == i by {
        assert(paths[i] == entries[i].path@);
        let j = paths.index_of(paths[i]);
        assert(paths.contains(paths[i]));
        lemma_distinct(entries, i, j);
    }
}

/// Bytes with one bit flipped.
pub open spec fn flipped(bytes: Seq<u8>, at: int, bit: u64) -> Seq<u8> {
    bytes.update(at, bytes[at] ^ (1u8 << bit))
}

/// Whether `after` is something that power loss may leave of `before`:
/// everything durable, then a prefix of what was written behind it, with one
/// bit of that prefix flipped at most, and only where sectors may tear.
pub open spec fn survives(before: FileModel, after: FileModel, torn: bool) -> bool {
    let kept = before.content().take(after.synced.len() as int);
    &&& after.unsynced.len() == 0
    &&& before.synced.len() <= after.synced.len() <= before.content().len()
    &&& after.synced == kept || (torn && exists|at: int, bit: u64|
        before.synced.len() <= at < after.synced.len() && bit < 8 && after.synced
            == #[trigger] flipped(kept, at, bit))
}

/// Power loss never takes or changes a durable byte and never adds bytes.
pub proof fn law_crash_keeps_synced(file: FileModel, rng: u64, torn: bool)
    ensures
        survives(file, crash_file(file, rng, torn).0, torn),
{
    let after = crash_file(file, rng, torn).0;
    let room: u64 = if file.unsynced.len() < u64::MAX {
        (file.unsynced.len() + 1) as u64
    } else {
        u64::MAX
    };
    let keep = crate::rng::draw(rng) % room;
    assert(keep <= file.unsynced.len());
    let kept = file.content().take(after.synced.len() as int);
    let s1 = crate::rng::next_state(rng);
    let survivors = file.unsynced.take(keep as int);
    assert(kept =~= file.synced + survivors);
    if torn && keep > 0 && crate::rng::draw(s1) % 4 < 1 {
        let s2 = crate::rng::next_state(s1);
        let s3 = crate::rng::next_state(s2);
        let at = crate::rng::draw(s2) % keep;
        let bit = crate::rng::draw(s3) % 8;
        assert(after.synced =~= flipped(kept, file.synced.len() + at, bit));
    }
}

/// The same, of a whole disk.
pub proof fn law_crash_keeps_every_file(files: Seq<FileModel>, rng: u64, torn: bool)
    ensures
        crash_files(files, rng, torn).0.len() == files.len(),
        forall|i: int|
            0 <= i < files.len() ==> survives(
                #[trigger] files[i],
                crash_files(files, rng, torn).0[i],
                torn,
            ),
    decreases files.len(),
{
    if files.len() > 0 {
        let (front, mid) = crash_files(files.drop_last(), rng, torn);
        law_crash_keeps_every_file(files.drop_last(), rng, torn);
        law_crash_keeps_synced(files.last(), mid, torn);
        assert forall|i: int| 0 <= i < files.len() implies survives(
            #[trigger] files[i],
            crash_files(files, rng, torn).0[i],
            torn,
        ) by {
            if i < files.len() - 1 {
                assert(files.drop_last()[i] == files[i]);
            }
        }
    }
}

impl SimStorage {
    #[verifier::type_invariant]
    spec fn wf(&self) -> bool {
        sorted(self.entries@)
    }

    /// The paths, sorted.
    pub closed spec fn paths(&self) -> Seq<Seq<u8>> {
        self.entries@.map_values(|e: SimEntry| e.path@)
    }

    /// The files, in the order of their paths.
    pub closed spec fn models(&self) -> Seq<FileModel> {
        self.entries@.map_values(|e: SimEntry| e.model())
    }

    /// How often the disk has lost power.
    pub closed spec fn crashes(&self) -> u64 {
        self.epoch
    }

    pub fn new() -> (r: Self)
        ensures
            r.view().files == Map::<Seq<u8>, FileModel>::empty(),
            r.view().epoch == 0,
            r.crashes() == 0,
    {
        let r = SimStorage { entries: Vec::new(), epoch: 0 };
        assert(files(r.entries@) =~= Map::<Seq<u8>, FileModel>::empty());
        r
    }

    /// Another disk that holds the same.
    pub fn copy(&self) -> (r: Self)
        ensures
            r.view() == self.view(),
            r.reliable() == self.reliable(),
    {
        proof {
            use_type_invariant(self);
        }
        let n: usize = self.entries.len();
        let mut entries: Vec<SimEntry> = Vec::new();
        let mut i: usize = 0;
        while i < n
            invariant
                i <= n == self.entries@.len(),
                entries@.len() == i,
                forall|k: int|
                    0 <= k < i ==> (#[trigger] entries@[k]).path@ == self.entries@[k].path@
                        && entries@[k].model() == self.entries@[k].model(),
            decreases n - i,
        {
            let e = &self.entries[i];
            entries.push(
                SimEntry {
                    path: crate::paths::copy_bytes(e.path.as_slice()),
                    synced: crate::paths::copy_bytes(e.synced.as_slice()),
                    unsynced: crate::paths::copy_bytes(e.unsynced.as_slice()),
                },
            );
            i = i + 1;
        }
        proof {
            assert forall|a: int, b: int| 0 <= a < b < entries@.len() implies
                #[trigger] crate::paths::sorts_before(entries@[a].path@, entries@[b].path@) by {
                assert(crate::paths::sorts_before(
                    self.entries@[a].path@,
                    self.entries@[b].path@,
                ));
            }
            lemma_same_files(self.entries@, entries@);
        }
        SimStorage { entries, epoch: self.epoch }
    }

    /// The disk knows how often it has lost power.
    pub proof fn lemma_crashes(&self)
        ensures
            self.view().epoch == self.crashes(),
    {
    }

    fn find(&self, path: &[u8]) -> (r: Option<usize>)
        ensures
            match r {
                Some(i) => i < self.entries@.len() && self.entries@[i as int].path@ == path@,
                None => forall|i: int|
                    0 <= i < self.entries@.len() ==> #[trigger] self.entries@[i].path@ != path@,
            },
            r is Some <==> self.view().has(path@),
            r matches Some(i) ==> self.view().files[path@] == self.entries@[i as int].model(),
    {
        proof {
            use_type_invariant(self);
        }
        let mut i: usize = 0;
        while i < self.entries.len()
            invariant
                i <= self.entries@.len(),
                sorted(self.entries@),
                forall|k: int| 0 <= k < i ==> #[trigger] self.entries@[k].path@ != path@,
            decreases self.entries@.len() - i,
        {
            if same_bytes(self.entries[i].path.as_slice(), path) {
                proof {
                    lemma_files_at(self.entries@, i as int);
                }
                return Some(i);
            }
            i = i + 1;
        }
        None
    }

    /// Simulates power loss. Every file keeps its synced bytes plus a seeded
    /// prefix of its unsynced bytes; with `torn`, one surviving unsynced byte
    /// may be bit-flipped. Survivors become durable. Every file handle opened
    /// before fails from now on.
    pub fn crash(&mut self, rng: &mut Rng, torn: bool)
        requires
            old(self).crashes() < u64::MAX,
        ensures
            final(self).crashes() == old(self).crashes() + 1,
            final(self).view().epoch == old(self).view().epoch + 1,
            final(self).paths() == old(self).paths(),
            final(self).models() == crash_files(old(self).models(), old(rng).state(), torn).0,
            final(rng).state() == crash_files(old(self).models(), old(rng).state(), torn).1,
            old(self).paths() == all_paths(old(self).view()),
            old(self).models() == files_in_order(old(self).view()),
            (final(self).view(), final(rng).state()) == power_loss(
                old(self).view(),
                old(rng).state(),
                torn,
            ),
            final(self).view().files.dom() == old(self).view().files.dom(),
            forall|p: Seq<u8>| #[trigger]
                old(self).view().has(p) ==> survives(
                    old(self).view().files[p],
                    final(self).view().files[p],
                    torn,
                ),
    {
        proof {
            use_type_invariant(&*self);
        }
        let ghost start = self.entries@;
        let ghost seed = rng.state();
        let mut entries: Vec<SimEntry> = Vec::new();
        std::mem::swap(&mut entries, &mut self.entries);
        let mut i: usize = 0;
        let ghost models = start.map_values(|e: SimEntry| e.model());
        assert(models.take(0) =~= Seq::<FileModel>::empty());
        while i < entries.len()
            invariant
                i <= entries@.len(),
                entries@.len() == start.len(),
                models == start.map_values(|e: SimEntry| e.model()),
                forall|k: int| 0 <= k < start.len() ==> (#[trigger] entries@[k]).path@
                    == start[k].path@,
                forall|k: int| i <= k < start.len() ==> #[trigger] entries@[k] == start[k],
                crash_files(models.take(i as int), seed, torn).0.len() == i,
                crash_files(models.take(i as int), seed, torn).1 == rng.state(),
                forall|k: int|
                    0 <= k < i ==> (#[trigger] entries@[k]).model() == crash_files(
                        models.take(i as int),
                        seed,
                        torn,
                    ).0[k],
            decreases start.len() - i,
        {
            let ghost mid = rng.state();
            proof {
                let t = models.take(i + 1);
                assert(t.drop_last() =~= models.take(i as int));
                assert(t.last() == entries@[i as int].model());
            }
            let path = copy_bytes(entries[i].path.as_slice());
            let mut synced = copy_bytes(entries[i].synced.as_slice());
            let mut tail = copy_bytes(entries[i].unsynced.as_slice());
            let size: u64 = tail.len() as u64;
            let room: u64 = if size < u64::MAX {
                size + 1
            } else {
                u64::MAX
            };
            let keep: u64 = rng.below(room);
            tail.truncate(keep as usize);
            assert(tail@ =~= entries@[i as int].unsynced@.take(keep as int));
            if torn && keep > 0 {
                if rng.chance(1, 4) {
                    let at: u64 = rng.below(keep);
                    let bit: u64 = rng.below(8);
                    let turned: u8 = tail[at as usize] ^ (1u8 << bit);
                    tail.set(at as usize, turned);
                }
            }
            synced.extend_from_slice(tail.as_slice());
            let fresh = SimEntry { path, synced, unsynced: Vec::new() };
            proof {
                assert(fresh.model() =~= crash_file(entries@[i as int].model(), mid, torn).0);
            }
            entries.set(i, fresh);
            i = i + 1;
        }
        proof {
            assert(models.take(models.len() as int) =~= models);
            assert forall|a: int, b: int|
                0 <= a < b < entries@.len() implies #[trigger] crate::paths::sorts_before(
                entries@[a].path@,
                entries@[b].path@,
            ) by {
                assert(crate::paths::sorts_before(start[a].path@, start[b].path@));
            }
            law_crash_keeps_every_file(models, seed, torn);
        }
        self.entries = entries;
        self.epoch = self.epoch + 1;
        proof {
            let end = self.entries@;
            assert(end.map_values(|e: SimEntry| e.path@) =~= start.map_values(
                |e: SimEntry| e.path@,
            ));
            assert(end.map_values(|e: SimEntry| e.model()) =~= crash_files(models, seed, torn).0);
            assert forall|p: Seq<u8>| files(end).contains_key(p) <==> files(start).contains_key(
                p,
            ) by {
                if files(end).contains_key(p) {
                    let k = choose|k: int| 0 <= k < end.len() && #[trigger] end[k].path@ == p;
                    assert(start[k].path@ == p);
                }
                if files(start).contains_key(p) {
                    let k = choose|k: int| 0 <= k < start.len() && #[trigger] start[k].path@ == p;
                    assert(end[k].path@ == p);
                }
            }
            assert(files(end).dom() =~= files(start).dom());
            assert forall|p: Seq<u8>| #[trigger] old(self).view().has(p) implies survives(
                old(self).view().files[p],
                self.view().files[p],
                torn,
            ) by {
                let k = choose|k: int| 0 <= k < start.len() && #[trigger] start[k].path@ == p;
                lemma_files_at(start, k);
                lemma_files_at(end, k);
                assert(survives(models[k], crash_files(models, seed, torn).0[k], torn));
            }
            let disk = old(self).view();
            lemma_entries_listed(start, disk);
            let left = power_loss(disk, seed, torn).0;
            assert forall|p: Seq<u8>| #[trigger] files(end).contains_key(p) implies files(end)[p]
                == left.files[p] by {
                let k = choose|k: int| 0 <= k < end.len() && #[trigger] end[k].path@ == p;
                lemma_files_at(end, k);
                assert(start[k].path@ == p);
                assert(disk.files.contains_key(p));
                assert(all_paths(disk).index_of(start[k].path@) == k);
            }
            assert(files(end) =~= left.files);
        }
    }

    /// Flips one bit inside the synced region of a file: silent media
    /// corruption.
    pub fn rot_synced_byte(&mut self, path: &[u8], offset: usize, bit: u32)
        requires
            old(self).view().has(path@),
            offset < old(self).view().files[path@].synced.len(),
        ensures
            final(self).crashes() == old(self).crashes(),
            final(self).view() == old(self).view().with(
                path@,
                FileModel {
                    synced: old(self).view().files[path@].synced.update(
                        offset as int,
                        old(self).view().files[path@].synced[offset as int] ^ (1u8 << (bit % 8)),
                    ),
                    unsynced: old(self).view().files[path@].unsynced,
                },
            ),
    {
        if let Some(i) = self.find(path) {
            let mut synced = copy_bytes(self.entries[i].synced.as_slice());
            let turned: u8 = synced[offset] ^ (1u8 << (bit % 8));
            synced.set(offset, turned);
            let unsynced = copy_bytes(self.entries[i].unsynced.as_slice());
            self.replace(i, synced, unsynced);
        }
    }

    /// Paths of all files, sorted.
    pub fn file_paths(&self) -> (r: Vec<Vec<u8>>)
        ensures
            r@.map_values(|p: Vec<u8>| p@) == self.paths(),
            crate::paths::is_listing(self.paths(), |p: Seq<u8>| self.view().has(p)),
            self.paths() == all_paths(self.view()),
            self.models() == files_in_order(self.view()),
    {
        proof {
            use_type_invariant(self);
            lemma_entries_listed(self.entries@, self.view());
        }
        let mut out: Vec<Vec<u8>> = Vec::new();
        let mut i: usize = 0;
        while i < self.entries.len()
            invariant
                i <= self.entries@.len(),
                out@.len() == i,
                forall|k: int| 0 <= k < i ==> (#[trigger] out@[k])@ == self.entries@[k].path@,
            decreases self.entries@.len() - i,
        {
            out.push(copy_bytes(self.entries[i].path.as_slice()));
            i = i + 1;
        }
        proof {
            assert(out@.map_values(|p: Vec<u8>| p@) =~= self.paths());
            let es = self.entries@;
            assert forall|i: int| 0 <= i < self.paths().len() implies self.view().has(
                #[trigger] self.paths()[i],
            ) by {
                assert(es[i].path@ == self.paths()[i]);
            }
            assert forall|p: Seq<u8>| #[trigger] self.view().has(p) implies self.paths().contains(
                p,
            ) by {
                let k = choose|k: int| 0 <= k < es.len() && #[trigger] es[k].path@ == p;
                assert(self.paths()[k] == p);
            }
        }
        out
    }

    /// Gives the `i`-th file new contents.
    fn replace(&mut self, i: usize, synced: Vec<u8>, unsynced: Vec<u8>)
        requires
            i < old(self).entries@.len(),
        ensures
            final(self).epoch == old(self).epoch,
            final(self).view() == old(self).view().with(
                old(self).entries@[i as int].path@,
                FileModel { synced: synced@, unsynced: unsynced@ },
            ),
    {
        proof {
            use_type_invariant(&*self);
        }
        let ghost start = self.entries@;
        let mut entries: Vec<SimEntry> = Vec::new();
        std::mem::swap(&mut entries, &mut self.entries);
        let path = copy_bytes(entries[i].path.as_slice());
        entries.set(i, SimEntry { path, synced, unsynced });
        proof {
            lemma_files_update(start, entries@, i as int);
        }
        self.entries = entries;
    }

    /// Adds an empty file.
    fn insert(&mut self, path: &[u8])
        requires
            !old(self).view().has(path@),
        ensures
            final(self).epoch == old(self).epoch,
            final(self).view() == old(self).view().with(path@, FileModel::empty()),
    {
        proof {
            use_type_invariant(&*self);
        }
        let ghost start = self.entries@;
        let mut entries: Vec<SimEntry> = Vec::new();
        std::mem::swap(&mut entries, &mut self.entries);
        let mut at: usize = 0;
        while at < entries.len() && is_before(entries[at].path.as_slice(), path)
            invariant
                at <= entries@.len(),
                entries@ == start,
                forall|k: int|
                    0 <= k < at ==> crate::paths::sorts_before(
                        #[trigger] entries@[k].path@,
                        path@,
                    ),
            decreases entries@.len() - at,
        {
            at = at + 1;
        }
        let fresh = SimEntry {
            path: copy_bytes(path),
            synced: Vec::new(),
            unsynced: Vec::new(),
        };
        entries.insert(at, fresh);
        proof {
            let end = entries@;
            if at < start.len() {
                crate::paths::lemma_sorts_total(start[at as int].path@, path@);
                assert(files(start).contains_key(start[at as int].path@));
            }
            assert forall|k: int| at <= k < start.len() implies crate::paths::sorts_before(
                path@,
                #[trigger] start[k].path@,
            ) by {
                if k > at {
                    assert(crate::paths::sorts_before(start[at as int].path@, start[k].path@));
                    crate::paths::lemma_sorts_transitive(
                        path@,
                        start[at as int].path@,
                        start[k].path@,
                    );
                }
            }
            assert forall|i: int, j: int|
                0 <= i < j < end.len() implies #[trigger] crate::paths::sorts_before(
                end[i].path@,
                end[j].path@,
            ) by {
                if j < at {
                    assert(end[i] == start[i] && end[j] == start[j]);
                } else if j == at {
                    assert(end[i] == start[i]);
                } else if i < at {
                    assert(end[i] == start[i] && end[j] == start[j - 1]);
                } else if i == at {
                    assert(end[j] == start[j - 1]);
                } else {
                    assert(end[i] == start[i - 1] && end[j] == start[j - 1]);
                }
            }
            let m = files(start).insert(path@, FileModel::empty());
            assert forall|p: Seq<u8>| files(end).contains_key(p) <==> m.contains_key(p) by {
                if files(end).contains_key(p) {
                    let k = choose|k: int| 0 <= k < end.len() && #[trigger] end[k].path@ == p;
                    if k < at {
                        assert(start[k].path@ == p);
                    } else if k > at {
                        assert(start[k - 1].path@ == p);
                    }
                }
                if files(start).contains_key(p) {
                    let k = choose|k: int| 0 <= k < start.len() && #[trigger] start[k].path@ == p;
                    if k < at {
                        assert(end[k].path@ == p);
                    } else {
                        assert(end[k + 1].path@ == p);
                    }
                }
                if p == path@ {
                    assert(end[at as int].path@ == p);
                }
            }
            assert forall|p: Seq<u8>| files(end).contains_key(p) implies files(end)[p] == m[p] by {
                let k = choose|k: int| 0 <= k < end.len() && #[trigger] end[k].path@ == p;
                lemma_files_at(end, k);
                if k < at {
                    lemma_files_at(start, k);
                } else if k > at {
                    lemma_files_at(start, k - 1);
                } else {
                    assert(end[k].model() =~= FileModel::empty());
                }
            }
            assert(files(end) =~= m);
        }
        self.entries = entries;
    }

    /// Drops the `i`-th file.
    fn drop_file(&mut self, at: usize)
        requires
            at < old(self).entries@.len(),
        ensures
            final(self).epoch == old(self).epoch,
            final(self).view() == old(self).view().without(old(self).entries@[at as int].path@),
    {
        proof {
            use_type_invariant(&*self);
        }
        let ghost start = self.entries@;
        let mut entries: Vec<SimEntry> = Vec::new();
        std::mem::swap(&mut entries, &mut self.entries);
        let _ = entries.remove(at);
        proof {
            let end = entries@;
            assert forall|i: int, j: int|
                0 <= i < j < end.len() implies #[trigger] crate::paths::sorts_before(
                end[i].path@,
                end[j].path@,
            ) by {
                let a = if i < at {
                    i
                } else {
                    i + 1
                };
                let b = if j < at {
                    j
                } else {
                    j + 1
                };
                assert(end[i] == start[a] && end[j] == start[b]);
                assert(crate::paths::sorts_before(start[a].path@, start[b].path@));
            }
            let gone = start[at as int].path@;
            let m = files(start).remove(gone);
            assert forall|p: Seq<u8>| files(end).contains_key(p) <==> m.contains_key(p) by {
                if files(end).contains_key(p) {
                    let k = choose|k: int| 0 <= k < end.len() && #[trigger] end[k].path@ == p;
                    let s = if k < at {
                        k
                    } else {
                        k + 1
                    };
                    assert(start[s].path@ == p);
                    if p == gone {
                        lemma_distinct(start, s, at as int);
                    }
                }
                if m.contains_key(p) {
                    let k = choose|k: int| 0 <= k < start.len() && #[trigger] start[k].path@ == p;
                    if k < at {
                        assert(end[k].path@ == p);
                    } else {
                        assert(k != at);
                        assert(end[k - 1].path@ == p);
                    }
                }
            }
            assert forall|p: Seq<u8>| files(end).contains_key(p) implies files(end)[p] == m[p] by {
                let k = choose|k: int| 0 <= k < end.len() && #[trigger] end[k].path@ == p;
                let s = if k < at {
                    k
                } else {
                    k + 1
                };
                lemma_files_at(end, k);
                lemma_files_at(start, s);
                assert(m.contains_key(p));
            }
            assert(files(end) =~= m);
        }
        self.entries = entries;
    }
}

impl Disk for SimStorage {
    closed spec fn view(&self) -> DiskModel {
        DiskModel { files: files(self.entries@), epoch: self.epoch as nat }
    }

    open spec fn reliable(&self) -> bool {
        true
    }

    open spec fn listable(&self, dir: Seq<u8>) -> bool {
        true
    }
}

/// A handle into a [`SimStorage`], fenced by the epoch it was opened in.
pub struct SimFile {
    path: Vec<u8>,
    epoch: u64,
}

impl SimFile {
    /// The file's place on the disk, where the handle is still good.
    fn reach(&self, disk: &SimStorage) -> (r: Result<usize, IoError>)
        ensures
            r is Ok <==> crate::storage::live(self.path(), self.opened_in(), disk.view()),
            r matches Ok(i) ==> i < disk.entries@.len() && disk.entries@[i as int].path@
                == self.path() && disk.view().files[self.path()]
                == disk.entries@[i as int].model(),
            r matches Err(e) ==> e == (if self.opened_in() != disk.view().epoch {
                IoError::Stale
            } else {
                IoError::NotFound
            }),
    {
        if disk.epoch != self.epoch {
            return Err(IoError::Stale);
        }
        match disk.find(self.path.as_slice()) {
            Some(i) => Ok(i),
            None => Err(IoError::NotFound),
        }
    }
}

impl StorageFile<SimStorage> for SimFile {
    closed spec fn path(&self) -> Seq<u8> {
        self.path@
    }

    closed spec fn opened_in(&self) -> nat {
        self.epoch as nat
    }

    fn write_all(&mut self, disk: &mut SimStorage, buf: &[u8]) -> (r: Result<(), IoError>)
        ensures
            final(disk).crashes() == old(disk).crashes(),
    {
        let i: usize = self.reach(disk)?;
        let synced = copy_bytes(disk.entries[i].synced.as_slice());
        let mut unsynced = copy_bytes(disk.entries[i].unsynced.as_slice());
        unsynced.extend_from_slice(buf);
        let ghost was = disk.view().files[self.path@];
        assert(buf@.take(buf@.len() as int) =~= buf@);
        assert(unsynced@ =~= was.unsynced + buf@);
        disk.replace(i, synced, unsynced);
        Ok(())
    }

    fn sync_data(&mut self, disk: &mut SimStorage) -> (r: Result<(), IoError>)
        ensures
            final(disk).crashes() == old(disk).crashes(),
    {
        let i: usize = self.reach(disk)?;
        let mut synced = copy_bytes(disk.entries[i].synced.as_slice());
        synced.extend_from_slice(disk.entries[i].unsynced.as_slice());
        let ghost was = disk.view().files[self.path@];
        assert(synced@ =~= was.content());
        assert((FileModel { synced: synced@, unsynced: Seq::empty() }).content() =~= was.content());
        let rest: Vec<u8> = Vec::new();
        assert(rest@ =~= Seq::<u8>::empty());
        disk.replace(i, synced, rest);
        Ok(())
    }

    fn len(&self, disk: &SimStorage) -> (r: Result<u64, IoError>) {
        let i: usize = self.reach(disk)?;
        let a: u64 = disk.entries[i].synced.len() as u64;
        let b: u64 = disk.entries[i].unsynced.len() as u64;
        match a.checked_add(b) {
            Some(n) => Ok(n),
            None => Err(IoError::Os(0)),
        }
    }
}

impl Storage for SimStorage {
    type File = SimFile;

    fn create_dir_all(&mut self, dir: &[u8]) -> (r: Result<(), IoError>)
        ensures
            final(self).crashes() == old(self).crashes(),
    {
        Ok(())
    }

    fn list_dir(&self, dir: &[u8]) -> (r: Result<Vec<Vec<u8>>, IoError>) {
        proof {
            use_type_invariant(self);
        }
        let mut out: Vec<Vec<u8>> = Vec::new();
        let ghost mut from: Seq<int> = Seq::empty();
        let ghost es = self.entries@;
        let mut i: usize = 0;
        while i < self.entries.len()
            invariant
                i <= es.len(),
                es == self.entries@,
                sorted(es),
                from.len() == out@.len(),
                forall|k: int|
                    0 <= k < from.len() ==> 0 <= #[trigger] from[k] < i && out@[k]@
                        == es[from[k]].path@ && crate::paths::is_child(out@[k]@, dir@),
                forall|a: int, b: int| 0 <= a < b < from.len() ==> from[a] < from[b],
                forall|k: int|
                    0 <= k < i && crate::paths::is_child(#[trigger] es[k].path@, dir@)
                        ==> from.contains(k),
            decreases es.len() - i,
        {
            if child_of(self.entries[i].path.as_slice(), dir) {
                out.push(copy_bytes(self.entries[i].path.as_slice()));
                proof {
                    let before = from;
                    from = from.push(i as int);
                    assert forall|k: int|
                        0 <= k < i + 1 && crate::paths::is_child(
                            #[trigger] es[k].path@,
                            dir@,
                        ) implies from.contains(k) by {
                        if k < i {
                            let w = choose|w: int| 0 <= w < before.len() && before[w] == k;
                            assert(from[w] == k);
                        } else {
                            assert(from[from.len() - 1] == k);
                        }
                    }
                }
            }
            i = i + 1;
        }
        proof {
            let paths = out@.map_values(|p: Vec<u8>| p@);
            assert forall|a: int, b: int|
                0 <= a < paths.len() && 0 <= b < paths.len() && a != b implies paths[a]
                != paths[b] by {
                if paths[a] == paths[b] {
                    assert(out@[a]@ == es[from[a]].path@);
                    assert(out@[b]@ == es[from[b]].path@);
                    assert(0 <= from[a] < i && 0 <= from[b] < i);
                    lemma_distinct(es, from[a], from[b]);
                }
            }
            assert forall|k: int| 0 <= k < paths.len() implies self.view().has(
                #[trigger] paths[k],
            ) && crate::paths::is_child(paths[k], dir@) by {
                assert(0 <= from[k] < i);
                lemma_files_at(es, from[k]);
            }
            assert forall|p: Seq<u8>| #[trigger]
                self.view().has(p) && crate::paths::is_child(p, dir@) implies paths.contains(p) by {
                let k = choose|k: int| 0 <= k < es.len() && #[trigger] es[k].path@ == p;
                assert(from.contains(k));
                let w = choose|w: int| 0 <= w < from.len() && from[w] == k;
                assert(paths[w] == p);
            }
        }
        Ok(out)
    }

    fn read(&self, path: &[u8]) -> (r: Result<Vec<u8>, IoError>) {
        match self.find(path) {
            Some(i) => {
                let mut out = copy_bytes(self.entries[i].synced.as_slice());
                out.extend_from_slice(self.entries[i].unsynced.as_slice());
                assert(out@ =~= self.view().files[path@].content());
                Ok(out)
            },
            None => Err(IoError::NotFound),
        }
    }

    fn open_append(&mut self, path: &[u8]) -> (r: Result<SimFile, IoError>)
        ensures
            final(self).crashes() == old(self).crashes(),
    {
        match self.find(path) {
            Some(_) => {
                let file = SimFile { path: copy_bytes(path), epoch: self.epoch };
                assert(file.path() == path@);
                assert(file.opened_in() == self.view().epoch);
                Ok(file)
            },
            None => Err(IoError::NotFound),
        }
    }

    fn create_new(&mut self, path: &[u8]) -> (r: Result<SimFile, IoError>)
        ensures
            final(self).crashes() == old(self).crashes(),
    {
        match self.find(path) {
            Some(_) => Err(IoError::AlreadyExists),
            None => {
                self.insert(path);
                let file = SimFile { path: copy_bytes(path), epoch: self.epoch };
                assert(file.path() == path@);
                assert(file.opened_in() == self.view().epoch);
                Ok(file)
            },
        }
    }

    fn truncate(&mut self, path: &[u8], len: u64) -> (r: Result<(), IoError>)
        ensures
            final(self).crashes() == old(self).crashes(),
    {
        match self.find(path) {
            Some(i) => {
                let mut all = copy_bytes(self.entries[i].synced.as_slice());
                all.extend_from_slice(self.entries[i].unsynced.as_slice());
                let ghost before = self.view();
                let ghost content = before.files[path@].content();
                assert(all@ =~= content);
                if len < all.len() as u64 {
                    all.truncate(len as usize);
                }
                assert(len <= content.len() ==> all@ =~= content.take(len as int));
                let rest: Vec<u8> = Vec::new();
                assert(rest@ =~= Seq::<u8>::empty());
                self.replace(i, all, rest);
                assert(self.view().files.remove(path@) =~= before.files.remove(path@));
                Ok(())
            },
            None => Err(IoError::NotFound),
        }
    }

    fn remove(&mut self, path: &[u8]) -> (r: Result<(), IoError>)
        ensures
            final(self).crashes() == old(self).crashes(),
    {
        match self.find(path) {
            Some(i) => {
                self.drop_file(i);
                Ok(())
            },
            None => Err(IoError::NotFound),
        }
    }

    fn sync_dir(&mut self, dir: &[u8]) -> (r: Result<(), IoError>)
        ensures
            final(self).crashes() == old(self).crashes(),
    {
        Ok(())
    }
}

/// How much of a file power loss leaves is drawn: any number of the bytes that
/// were not synced, from none to all, in front of which everything synced stays.
/// Without torn sectors nothing else is drawn and no byte is changed.
pub proof fn law_power_loss_draws_what_stays(file: FileModel, rng: u64, torn: bool)
    requires
        file.unsynced.len() < u64::MAX,
    ensures
        ({
            let (after, end) = crash_file(file, rng, torn);
            let keep = crate::rng::draw(rng) as int % (file.unsynced.len() as int + 1);
            &&& after.synced.len() == file.synced.len() + keep
            &&& after.unsynced.len() == 0
            &&& after.synced.take(file.synced.len() as int) == file.synced
            &&& !torn || keep == 0 ==> after.synced == file.content().take(after.synced.len() as int)
                && end == crate::rng::next_state(rng)
            &&& file.unsynced.len() == 0 ==> after == file
        }),
{
    let (after, end) = crash_file(file, rng, torn);
    let keep = crate::rng::draw(rng) as int % (file.unsynced.len() as int + 1);
    let survivors = file.unsynced.take(keep);
    law_crash_keeps_synced(file, rng, torn);
    assert(after.synced.take(file.synced.len() as int) =~= file.synced);
    assert(file.content().take(file.synced.len() + keep) =~= file.synced + survivors);
    if file.unsynced.len() == 0 {
        assert(keep == 0);
        assert(after.synced =~= file.synced);
        assert(after.unsynced =~= file.unsynced);
    }
}

/// Files lose power one after the other, each drawing on from where the one
/// before it left the generator.
pub proof fn law_files_draw_in_turn(
    files: Seq<FileModel>,
    file: FileModel,
    rng: u64,
    torn: bool,
)
    ensures
        ({
            let (front, mid) = crash_files(files, rng, torn);
            let (last, end) = crash_file(file, mid, torn);
            crash_files(files.push(file), rng, torn) == (front.push(last), end)
        }),
        crash_files(Seq::empty(), rng, torn) == (Seq::<FileModel>::empty(), rng),
{
    assert(files.push(file).drop_last() =~= files);
}

/// Power loss makes no file and takes none, and everything that is left is
/// durable.
pub proof fn law_power_loss_keeps_the_files(disk: DiskModel, rng: u64, torn: bool, p: Seq<u8>)
    requires
        crate::paths::is_listing(all_paths(disk), present(disk)),
    ensures
        ({
            let after = power_loss(disk, rng, torn).0;
            &&& after.has(p) <==> disk.has(p)
            &&& disk.has(p) ==> survives(disk.files[p], after.files[p], torn)
            &&& after.epoch == disk.epoch + 1
        }),
{
    let paths = all_paths(disk);
    let files = files_in_order(disk);
    law_crash_keeps_every_file(files, rng, torn);
    if disk.has(p) {
        assert(present(disk)(p));
        assert(paths.contains(p));
        let i = paths.index_of(p);
        assert(paths[i] == p);
        assert(files[i] == disk.files[p]);
        assert(survives(files[i], crash_files(files, rng, torn).0[i], torn));
    }
}

} // verus!
