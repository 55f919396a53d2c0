//! The storage abstraction that the journal writes through.
//!
//! Everything the journal needs from a filesystem is behind [`Storage`], so
//! the deterministic simulator can substitute an in-memory disk with seeded
//! fault injection. Paths are byte strings.

use vstd::prelude::*;

verus! {

/// Why a storage operation failed.
#[derive(Debug, Clone, Copy, PartialEq, Eq, Structural)]
pub enum IoError {
    /// There is no such file.
    NotFound,
    /// The file to create is there already.
    AlreadyExists,
    /// The file handle was opened before a simulated crash.
    Stale,
    /// Anything else, by the operating system's error number.
    Os(i32),
}

/// One file: what is durable, and what was written behind it since.
#[verifier::ext_equal]
pub struct FileModel {
    pub synced: Seq<u8>,
    pub unsynced: Seq<u8>,
}

impl FileModel {
    /// What a reader sees.
    pub open spec fn content(self) -> Seq<u8> {
        self.synced + self.unsynced
    }

    /// A file that was just created.
    pub open spec fn empty() -> FileModel {
        FileModel { synced: Seq::empty(), unsynced: Seq::empty() }
    }

    /// The file with `data` written behind it.
    pub open spec fn appended(self, data: Seq<u8>) -> FileModel {
        FileModel { synced: self.synced, unsynced: self.unsynced + data }
    }

    /// The file with all of it durable.
    pub open spec fn flushed(self) -> FileModel {
        FileModel { synced: self.content(), unsynced: Seq::empty() }
    }
}

/// How often a disk has lost power.
pub type PowerLosses = nat;

/// A disk: its files by path, and how often it has lost power.
#[verifier::ext_equal]
pub struct DiskModel {
    pub files: Map<Seq<u8>, FileModel>,
    pub epoch: nat,
}

impl DiskModel {
    pub open spec fn has(self, path: Seq<u8>) -> bool {
        self.files.contains_key(path)
    }

    pub open spec fn with(self, path: Seq<u8>, file: FileModel) -> DiskModel {
        DiskModel { files: self.files.insert(path, file), epoch: self.epoch }
    }

    pub open spec fn without(self, path: Seq<u8>) -> DiskModel {
        DiskModel { files: self.files.remove(path), epoch: self.epoch }
    }

    /// Nothing but the file at `path` differs from `before`.
    pub open spec fn differs_only_at(self, before: DiskModel, path: Seq<u8>) -> bool {
        &&& self.epoch == before.epoch
        &&& self.files.remove(path) == before.files.remove(path)
        &&& self.has(path) == before.has(path)
    }
}

/// Something that is a disk.
pub trait Disk {
    spec fn view(&self) -> DiskModel;

    /// Whether operations fail only for the reasons that the model gives
    /// (a missing file, a file that is there already, a fenced handle).
    spec fn reliable(&self) -> bool;

    /// Whether the files in `dir` can be listed.
    spec fn listable(&self, dir: Seq<u8>) -> bool;
}

/// An open, appendable file on a disk of type `D`.
pub trait StorageFile<D: Disk> {
    spec fn path(&self) -> Seq<u8>;

    /// The power-loss count of the disk when the file was opened.
    spec fn opened_in(&self) -> PowerLosses;

    /// Writes `buf` behind the file.
    fn write_all(&mut self, disk: &mut D, buf: &[u8]) -> (r: Result<(), IoError>)
        ensures
            final(self).path() == old(self).path(),
            final(self).opened_in() == old(self).opened_in(),
            !live(old(self).path(), old(self).opened_in(), old(disk).view()) ==> final(disk).view()
                == old(disk).view(),
            live(old(self).path(), old(self).opened_in(), old(disk).view()) ==> wrote(
                old(disk).view(),
                final(disk).view(),
                old(self).path(),
                buf@,
                r is Ok,
            ),
            final(disk).reliable() == old(disk).reliable(),
            old(disk).reliable() ==> (r is Ok <==> live(
                old(self).path(),
                old(self).opened_in(),
                old(disk).view(),
            )),
    ;

    /// Persists what was written to stable storage.
    fn sync_data(&mut self, disk: &mut D) -> (r: Result<(), IoError>)
        ensures
            final(self).path() == old(self).path(),
            final(self).opened_in() == old(self).opened_in(),
            !live(old(self).path(), old(self).opened_in(), old(disk).view()) ==> final(disk).view()
                == old(disk).view(),
            live(old(self).path(), old(self).opened_in(), old(disk).view()) ==> synced(
                old(disk).view(),
                final(disk).view(),
                old(self).path(),
                r is Ok,
            ),
            final(disk).reliable() == old(disk).reliable(),
            old(disk).reliable() ==> (r is Ok <==> live(
                old(self).path(),
                old(self).opened_in(),
                old(disk).view(),
            )),
    ;

    /// The size of the file.
    fn len(&self, disk: &D) -> (r: Result<u64, IoError>)
        ensures
            r matches Ok(n) ==> live(self.path(), self.opened_in(), disk.view()) && n
                == disk.view().files[self.path()].content().len(),
            disk.reliable() && live(self.path(), self.opened_in(), disk.view())
                && disk.view().files[self.path()].content().len() <= u64::MAX ==> r is Ok,
    ;
}

/// Whether a handle opened at `opened_in` still reaches the file at `path`.
pub open spec fn live(path: Seq<u8>, opened_in: nat, disk: DiskModel) -> bool {
    opened_in == disk.epoch && disk.has(path)
}

/// What a write of `data` to the file at `path` does: all of it is there
/// when it succeeds, some prefix of it when it fails.
pub open spec fn wrote(
    before: DiskModel,
    after: DiskModel,
    path: Seq<u8>,
    data: Seq<u8>,
    ok: bool,
) -> bool {
    exists|k: int|
        #![trigger data.take(k)]
        0 <= k <= data.len() && (ok ==> k == data.len()) && after == before.with(
            path,
            before.files[path].appended(data.take(k)),
        )
}

/// What a sync of the file at `path` does: everything is durable when it
/// succeeds; when it fails, the contents are what they were and no durable
/// byte was lost.
pub open spec fn synced(before: DiskModel, after: DiskModel, path: Seq<u8>, ok: bool) -> bool {
    let was = before.files[path];
    let now = after.files[path];
    &&& after == before.with(path, now)
    &&& now.content() == was.content()
    &&& was.synced.len() <= now.synced.len()
    &&& ok ==> now == was.flushed()
}

/// Whether `paths` holds, each once, the files directly inside `dir`.
pub open spec fn lists(paths: Seq<Seq<u8>>, disk: DiskModel, dir: Seq<u8>) -> bool {
    &&& paths.no_duplicates()
    &&& forall|i: int|
        0 <= i < paths.len() ==> disk.has(#[trigger] paths[i]) && crate::paths::is_child(
            paths[i],
            dir,
        )
    &&& forall|p: Seq<u8>| #[trigger]
        disk.has(p) && crate::paths::is_child(p, dir) ==> paths.contains(p)
}

/// A minimal filesystem: exactly the operations that journal recovery and
/// appending require.
pub trait Storage: Disk + Sized {
    type File: StorageFile<Self>;

    fn create_dir_all(&mut self, dir: &[u8]) -> (r: Result<(), IoError>)
        ensures
            final(self).view() == old(self).view(),
            final(self).reliable() == old(self).reliable(),
            old(self).reliable() ==> r is Ok,
    ;

    /// All file paths directly inside `dir`, in any order.
    fn list_dir(&self, dir: &[u8]) -> (r: Result<Vec<Vec<u8>>, IoError>)
        ensures
            r matches Ok(paths) ==> lists(
                paths@.map_values(|p: Vec<u8>| p@),
                self.view(),
                dir@,
            ),
            r is Ok <==> self.listable(dir@),
            self.reliable() ==> r is Ok,
    ;

    /// Reads a whole file. Sees unsynced writes.
    fn read(&self, path: &[u8]) -> (r: Result<Vec<u8>, IoError>)
        ensures
            r matches Ok(bytes) ==> self.view().has(path@) && bytes@
                == self.view().files[path@].content(),
            r == Err::<Vec<u8>, IoError>(IoError::NotFound) <==> !self.view().has(path@),
            self.reliable() ==> (r is Ok <==> self.view().has(path@)),
    ;

    /// Opens an existing file for appending.
    fn open_append(&mut self, path: &[u8]) -> (r: Result<Self::File, IoError>)
        ensures
            final(self).view() == old(self).view(),
            r matches Ok(file) ==> old(self).view().has(path@) && file.path() == path@
                && file.opened_in() == old(self).view().epoch,
            final(self).reliable() == old(self).reliable(),
            old(self).reliable() ==> (r is Ok <==> old(self).view().has(path@)),
    ;

    /// Creates a new file for appending; an error if it is there already.
    fn create_new(&mut self, path: &[u8]) -> (r: Result<Self::File, IoError>)
        ensures
            r matches Ok(file) ==> {
                &&& !old(self).view().has(path@)
                &&& final(self).view() == old(self).view().with(path@, FileModel::empty())
                &&& file.path() == path@
                &&& file.opened_in() == old(self).view().epoch
            },
            r is Err ==> final(self).view() == old(self).view(),
            r matches Err(e) ==> (e == IoError::AlreadyExists <==> old(self).view().has(path@)),
            final(self).reliable() == old(self).reliable(),
            old(self).reliable() ==> (r is Ok <==> !old(self).view().has(path@)),
    ;

    /// Cuts a file to `len` bytes, durably.
    fn truncate(&mut self, path: &[u8], len: u64) -> (r: Result<(), IoError>)
        ensures
            r is Ok ==> old(self).view().has(path@),
            r is Ok && len <= old(self).view().files[path@].content().len() ==> final(self).view()
                == old(self).view().with(
                path@,
                FileModel {
                    synced: old(self).view().files[path@].content().take(len as int),
                    unsynced: Seq::empty(),
                },
            ),
            final(self).view().differs_only_at(old(self).view(), path@),
            final(self).reliable() == old(self).reliable(),
            old(self).reliable() ==> (r is Ok <==> old(self).view().has(path@)),
    ;

    /// Deletes a file.
    fn remove(&mut self, path: &[u8]) -> (r: Result<(), IoError>)
        ensures
            r is Ok ==> old(self).view().has(path@) && final(self).view() == old(
                self,
            ).view().without(path@),
            r is Err ==> final(self).view() == old(self).view(),
            final(self).reliable() == old(self).reliable(),
            old(self).reliable() ==> (r is Ok <==> old(self).view().has(path@)),
    ;

    /// Durably persists directory entries after creating or deleting a file.
    fn sync_dir(&mut self, dir: &[u8]) -> (r: Result<(), IoError>)
        ensures
            final(self).view() == old(self).view(),
            final(self).reliable() == old(self).reliable(),
            old(self).reliable() ==> r is Ok,
    ;
}

/// A write puts its bytes behind what the file holds and makes none of them
/// durable; a failed one puts a prefix of them there. No other file changes.
pub proof fn law_write_goes_behind(
    before: DiskModel,
    after: DiskModel,
    path: Seq<u8>,
    data: Seq<u8>,
    ok: bool,
    other: Seq<u8>,
)
    requires
        wrote(before, after, path, data, ok),
    ensures
        after.files[path].synced == before.files[path].synced,
        ok ==> after.files[path].content() == before.files[path].content() + data,
        before.files[path].content().is_prefix_of(after.files[path].content()),
        after.files[path].content().is_prefix_of(before.files[path].content() + data),
        other != path ==> after.has(other) == before.has(other) && after.files[other]
            == before.files[other],
        after.epoch == before.epoch,
{
    let k = choose|k: int|
        #![trigger data.take(k)]
        0 <= k <= data.len() && (ok ==> k == data.len()) && after == before.with(
            path,
            before.files[path].appended(data.take(k)),
        );
    let was = before.files[path];
    let now = after.files[path];
    assert(now.content() =~= was.content() + data.take(k));
    if k == data.len() {
        assert(data.take(k) =~= data);
    }
    assert(now.content().take(was.content().len() as int) =~= was.content());
    assert((was.content() + data).take(now.content().len() as int) =~= now.content());
}

/// A sync changes nothing that a reader sees; once it succeeds all of the file is
/// durable, and a failed one makes nothing less durable. No other file changes.
pub proof fn law_sync_makes_durable(
    before: DiskModel,
    after: DiskModel,
    path: Seq<u8>,
    ok: bool,
    other: Seq<u8>,
)
    requires
        synced(before, after, path, ok),
    ensures
        after.files[path].content() == before.files[path].content(),
        ok ==> after.files[path].unsynced.len() == 0,
        ok ==> after.files[path].synced == before.files[path].content(),
        before.files[path].synced.len() <= after.files[path].synced.len(),
        other != path ==> after.has(other) == before.has(other) && after.files[other]
            == before.files[other],
        after.epoch == before.epoch,
{
}

/// A listing holds every file directly inside the directory, once, and no other;
/// a handle reaches its file until power is lost or the file is gone.
pub proof fn law_listing_is_complete(
    paths: Seq<Seq<u8>>,
    disk: DiskModel,
    dir: Seq<u8>,
    p: Seq<u8>,
    opened_in: nat,
)
    requires
        lists(paths, disk, dir),
    ensures
        paths.contains(p) <==> disk.has(p) && crate::paths::is_child(p, dir),
        paths.no_duplicates(),
        live(p, opened_in, disk) <==> opened_in == disk.epoch && disk.has(p),
{
    if paths.contains(p) {
        let i = choose|i: int| 0 <= i < paths.len() && paths[i] == p;
        assert(disk.has(paths[i]));
    }
}

} // verus!
