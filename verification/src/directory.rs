//! An in-memory directory: named byte-stream files, sequential write
//! handles, random-read handles, atomic metadata writes, advisory locks and
//! change notification.
//!
//! The in-memory directory serves a single owner, so change notification is
//! modeled as a per-registration delivery counter that `atomic_write`
//! advances; an on-disk variant drives real callbacks from the same
//! contract.

use vstd::prelude::*;
use crate::error::TantivyError;

verus! {

/// The paths of `s`, pairwise distinct.
pub open spec fn distinct_paths(s: Seq<(Vec<u8>, Vec<u8>)>) -> bool {
    forall|i: int, j: int| 0 <= i < j < s.len() ==> s[i].0@ != s[j].0@
}

/// The file map an association list denotes: later entries win, though with
/// distinct paths the order never matters.
pub open spec fn map_of(s: Seq<(Vec<u8>, Vec<u8>)>) -> Map<Seq<u8>, Seq<u8>>
    decreases s.len(),
{
    if s.len() == 0 {
        Map::empty()
    } else {
        map_of(s.drop_last()).insert(s.last().0@, s.last().1@)
    }
}

pub proof fn lemma_map_of_contains(s: Seq<(Vec<u8>, Vec<u8>)>, p: Seq<u8>)
    ensures
        map_of(s).contains_key(p) <==> exists|i: int| 0 <= i < s.len() && s[i].0@ == p,
    decreases s.len(),
{
    if s.len() > 0 {
        lemma_map_of_contains(s.drop_last(), p);
        if s.last().0@ == p {
            assert(s[s.len() - 1].0@ == p);
        } else {
            if exists|i: int| 0 <= i < s.drop_last().len() && s.drop_last()[i].0@ == p {
                let i = choose|i: int| 0 <= i < s.drop_last().len() && s.drop_last()[i].0@ == p;
                assert(s[i].0@ == p);
            }
            if exists|i: int| 0 <= i < s.len() && s[i].0@ == p {
                let i = choose|i: int| 0 <= i < s.len() && s[i].0@ == p;
                assert(i < s.len() - 1);
                assert(s.drop_last()[i].0@ == p);
            }
        }
    }
}

pub proof fn lemma_map_of_at(s: Seq<(Vec<u8>, Vec<u8>)>, i: int)
    requires
        distinct_paths(s),
        0 <= i < s.len(),
    ensures
        map_of(s).contains_key(s[i].0@),
        map_of(s)[s[i].0@] == s[i].1@,
    decreases s.len(),
{
    if i == s.len() - 1 {
        lemma_map_of_contains(s, s[i].0@);
    } else {
        assert(s.last().0@ != s[i].0@);
        assert(s.drop_last()[i] == s[i]);
        lemma_map_of_at(s.drop_last(), i);
    }
}

pub proof fn lemma_map_of_remove(s: Seq<(Vec<u8>, Vec<u8>)>, i: int)
    requires
        distinct_paths(s),
        0 <= i < s.len(),
    ensures
        map_of(s.remove(i)) == map_of(s).remove(s[i].0@),
    decreases s.len(),
{
    let p = s[i].0@;
    if i == s.len() - 1 {
        assert(s.remove(i) =~= s.drop_last());
        assert(!map_of(s.drop_last()).contains_key(p)) by {
            lemma_map_of_contains(s.drop_last(), p);
            if exists|j: int| 0 <= j < s.drop_last().len() && s.drop_last()[j].0@ == p {
                let j = choose|j: int| 0 <= j < s.drop_last().len() && s.drop_last()[j].0@ == p;
                assert(s[j].0@ == s[i].0@);
            }
        }
        assert(map_of(s.drop_last()).insert(p, s.last().1@).remove(p) =~= map_of(s.drop_last()));
    } else {
        let t = s.remove(i);
        assert(t.drop_last() =~= s.drop_last().remove(i));
        assert(t.last() == s.last());
        lemma_map_of_remove(s.drop_last(), i);
        assert(s.drop_last()[i] == s[i]);
        assert(s.last().0@ != p);
        assert(map_of(s.drop_last()).remove(p).insert(s.last().0@, s.last().1@) =~= map_of(
            s.drop_last(),
        ).insert(s.last().0@, s.last().1@).remove(p));
        assert(map_of(t) =~= map_of(s).remove(p));
    }
}

/// Compares two byte slices for equality.
#[verifier::loop_isolation(false)]
pub fn bytes_eq(a: &[u8], b: &[u8]) -> (r: bool)
    ensures
        r == (a@ == b@),
{
    if a.len() != b.len() {
        return false;
    }
    let mut i: usize = 0;
    while i < a.len()
        invariant
            a@.len() == b@.len(),
            i <= a@.len(),
            forall|j: int| 0 <= j < i ==> a@[j] == b@[j],
        decreases a@.len() - i,
    {
        if a[i] != b[i] {
            return false;
        }
        i = i + 1;
    }
    proof {
        assert(a@ =~= b@);
    }
    true
}

/// Copies a byte slice into an owned vector.
#[verifier::loop_isolation(false)]
pub fn bytes_to_vec(src: &[u8]) -> (r: Vec<u8>)
    ensures
        r@ == src@,
{
    let mut r: Vec<u8> = Vec::new();
    let mut i: usize = 0;
    while i < src.len()
        invariant
            i <= src@.len(),
            r@ == src@.subrange(0, i as int),
        decreases src@.len() - i,
    {
        r.push(src[i]);
        i = i + 1;
        proof {
            assert(r@ =~= src@.subrange(0, i as int));
        }
    }
    proof {
        assert(src@.subrange(0, src@.len() as int) =~= src@);
    }
    r
}

/// A buffered sequential writer for one new file. Its bytes reach the
/// directory when the directory's `flush` seals it.
pub struct WriteHandle {
    path: Vec<u8>,
    data: Vec<u8>,
}

impl WriteHandle {
    /// The path this handle was opened for.
    pub closed spec fn path_spec(&self) -> Seq<u8> {
        self.path@
    }

    /// The bytes buffered so far.
    pub closed spec fn data_spec(&self) -> Seq<u8> {
        self.data@
    }

    /// Appends `bytes` to the write buffer.
    #[verifier::loop_isolation(false)]
    pub fn write_all(&mut self, bytes: &[u8])
        ensures
            final(self).path_spec() == old(self).path_spec(),
            final(self).data_spec() == old(self).data_spec() + bytes@,
    {
        let mut i: usize = 0;
        while i < bytes.len()
            invariant
                i <= bytes@.len(),
                self.path@ == old(self).path_spec(),
                self.data@ == old(self).data_spec() + bytes@.subrange(0, i as int),
            decreases bytes@.len() - i,
        {
            self.data.push(bytes[i]);
            i = i + 1;
            proof {
                assert(self.data@ =~= old(self).data_spec() + bytes@.subrange(0, i as int));
            }
        }
        proof {
            assert(bytes@.subrange(0, bytes@.len() as int) =~= bytes@);
        }
    }
}

/// A random-read handle: its bytes are the file's full contents at open
/// time and stay valid even if the file is deleted afterwards.
pub struct ReadHandle {
    data: Vec<u8>,
}

impl ReadHandle {
    /// The bytes of the file.
    pub closed spec fn data_spec(&self) -> Seq<u8> {
        self.data@
    }

    /// The file's full byte slice, as if memory-mapped.
    #[verifier::loop_isolation(false)]
    pub fn as_slice(&self) -> (r: &[u8])
        ensures
            r@ == self.data_spec(),
    {
        self.data.as_slice()
    }
}

/// An advisory exclusive lock request, keyed by a path within a directory.
pub struct Lock {
    /// The path conveying the lock.
    pub filepath: Vec<u8>,
    /// Whether the caller would rather wait than be refused. The in-memory
    /// directory serves a single owner, so a wait could never end; it
    /// refuses a held lock either way, and only the on-disk variant blocks.
    pub is_blocking: bool,
}

/// Witness that a lock is held; releasing it hands the guard back to the
/// directory.
pub struct LockGuard {
    path: Vec<u8>,
}

impl LockGuard {
    /// The path this guard holds.
    pub closed spec fn path_spec(&self) -> Seq<u8> {
        self.path@
    }
}

/// Witness of a live watch registration.
pub struct WatchHandle {
    id: u64,
}

impl WatchHandle {
    /// The registration's identity within its directory.
    pub closed spec fn id_spec(&self) -> u64 {
        self.id
    }
}

/// Every live watch registration keeps its identity and is delivered one
/// more notification, up to the counter's width.
pub open spec fn watches_bumped(pre: Seq<(u64, u64)>, post: Seq<(u64, u64)>) -> bool {
    &&& post.len() == pre.len()
    &&& forall|i: int|
        0 <= i < pre.len() ==> post[i].0 == pre[i].0 && post[i].1 == (
        if pre[i].1 < u64::MAX {
            pre[i].1 + 1
        } else {
            pre[i].1 as int
        })
}

/// The in-memory directory.
pub struct RamDirectory {
    files: Vec<(Vec<u8>, Vec<u8>)>,
    locks: Vec<Vec<u8>>,
    watches: Vec<(u64, u64)>,
    next_watch_id: u64,
}

impl RamDirectory {
    /// Structural well-formedness: distinct file paths, distinct held lock
    /// paths, distinct live watch ids all below the id counter.
    pub closed spec fn wf(&self) -> bool {
        &&& distinct_paths(self.files@)
        &&& forall|i: int, j: int|
            0 <= i < j < self.locks@.len() ==> self.locks@[i]@ != self.locks@[j]@
        &&& forall|i: int, j: int|
            0 <= i < j < self.watches@.len() ==> self.watches@[i].0 != self.watches@[j].0
        &&& forall|i: int| 0 <= i < self.watches@.len() ==> self.watches@[i].0 < self.next_watch_id
    }

    /// The files as a map from path to contents.
    pub closed spec fn files_spec(&self) -> Map<Seq<u8>, Seq<u8>> {
        map_of(self.files@)
    }

    /// The held lock paths, in acquisition order.
    pub closed spec fn locks_spec(&self) -> Seq<Seq<u8>> {
        Seq::new(self.locks@.len(), |i: int| self.locks@[i]@)
    }

    /// Whether the advisory lock at `path` is held.
    pub open spec fn lock_held(&self, path: Seq<u8>) -> bool {
        exists|i: int| 0 <= i < self.locks_spec().len() && self.locks_spec()[i] == path
    }

    /// The live watch registrations, in registration order, each with the
    /// number of deliveries it has received.
    pub closed spec fn watches_spec(&self) -> Seq<(u64, u64)> {
        self.watches@
    }

    /// The next watch registration id to be issued.
    pub closed spec fn next_watch_id_spec(&self) -> u64 {
        self.next_watch_id
    }

    /// Creates an empty in-memory directory.
    #[verifier::loop_isolation(false)]
    pub fn create() -> (r: RamDirectory)
        ensures
            r.wf(),
            r.files_spec() == Map::<Seq<u8>, Seq<u8>>::empty(),
            forall|p: Seq<u8>| !r.lock_held(p),
            r.watches_spec() == Seq::<(u64, u64)>::empty(),
            r.next_watch_id_spec() == 0,
    {
        RamDirectory { files: Vec::new(), locks: Vec::new(), watches: Vec::new(), next_watch_id: 0 }
    }

    #[verifier::loop_isolation(false)]
    fn find_file(&self, path: &[u8]) -> (r: Option<usize>)
        ensures
            match r {
                Some(i) => i < self.files@.len() && self.files@[i as int].0@ == path@,
                None => forall|i: int|
                    0 <= i < self.files@.len() ==> self.files@[i as int].0@ != path@,
            },
    {
        let mut i: usize = 0;
        while i < self.files.len()
            invariant
                i <= self.files@.len(),
                forall|j: int| 0 <= j < i ==> self.files@[j].0@ != path@,
            decreases self.files@.len() - i,
        {
            if bytes_eq(self.files[i].0.as_slice(), path) {
                return Some(i);
            }
            i = i + 1;
        }
        None
    }

    /// Whether a file exists at `path`.
    #[verifier::loop_isolation(false)]
    pub fn file_exists(&self, path: &[u8]) -> (r: bool)
        requires
            self.wf(),
        ensures
            r == self.files_spec().contains_key(path@),
    {
        proof {
            lemma_map_of_contains(self.files@, path@);
        }
        self.find_file(path).is_some()
    }

    /// Creates a new file at `path` and returns a buffered writer for it.
    /// Creation is exclusive: if the path is already taken the call fails
    /// with `FileAlreadyExists` and the directory is unchanged.
    #[verifier::loop_isolation(false)]
    pub fn open_write(&mut self, path: &[u8]) -> (r: Result<WriteHandle, TantivyError>)
        requires
            old(self).wf(),
        ensures
            final(self).wf(),
            final(self).locks_spec() == old(self).locks_spec(),
            final(self).watches_spec() == old(self).watches_spec(),
            final(self).next_watch_id_spec() == old(self).next_watch_id_spec(),
            match r {
                Ok(w) => {
                    &&& !old(self).files_spec().contains_key(path@)
                    &&& w.path_spec() == path@
                    &&& w.data_spec() == Seq::<u8>::empty()
                    &&& final(self).files_spec() == old(self).files_spec().insert(
                        path@,
                        Seq::<u8>::empty(),
                    )
                },
                Err(e) => {
                    &&& e == TantivyError::FileAlreadyExists
                    &&& old(self).files_spec().contains_key(path@)
                    &&& *final(self) == *old(self)
                },
            },
    {
        proof {
            lemma_map_of_contains(self.files@, path@);
        }
        match self.find_file(path) {
            Some(_) => Err(TantivyError::FileAlreadyExists),
            None => {
                let owned_path = bytes_to_vec(path);
                let empty: Vec<u8> = Vec::new();
                self.files.push((owned_path, empty));
                proof {
                    assert(self.files@.drop_last() =~= old(self).files@);
                }
                Ok(WriteHandle { path: bytes_to_vec(path), data: Vec::new() })
            },
        }
    }

    /// Seals a write handle: the buffered bytes become the file's contents.
    /// The file is (re)created even if it was deleted while the handle was
    /// open.
    #[verifier::loop_isolation(false)]
    pub fn flush(&mut self, w: WriteHandle) -> (r: Result<(), TantivyError>)
        requires
            old(self).wf(),
        ensures
            final(self).wf(),
            r.is_ok(),
            final(self).files_spec() == old(self).files_spec().insert(w.path_spec(), w.data_spec()),
            final(self).locks_spec() == old(self).locks_spec(),
            final(self).watches_spec() == old(self).watches_spec(),
            final(self).next_watch_id_spec() == old(self).next_watch_id_spec(),
    {
        self.set_file(w.path, w.data);
        Ok(())
    }

    #[verifier::loop_isolation(false)]
    fn set_file(&mut self, path: Vec<u8>, data: Vec<u8>)
        requires
            old(self).wf(),
        ensures
            final(self).wf(),
            final(self).files_spec() == old(self).files_spec().insert(path@, data@),
            final(self).locks_spec() == old(self).locks_spec(),
            final(self).watches_spec() == old(self).watches_spec(),
            final(self).next_watch_id_spec() == old(self).next_watch_id_spec(),
    {
        match self.find_file(path.as_slice()) {
            Some(i) => {
                proof {
                    lemma_map_of_remove(self.files@, i as int);
                }
                self.files.remove(i);
                let ghost mid = self.files@;
                self.files.push((path, data));
                proof {
                    assert(self.files@.drop_last() =~= mid);
                    assert(map_of(mid).insert(path@, data@) =~= old(self).files_spec().insert(
                        path@,
                        data@,
                    ));
                }
            },
            None => {
                self.files.push((path, data));
                proof {
                    assert(self.files@.drop_last() =~= old(self).files@);
                }
            },
        }
    }

    /// Opens the file at `path` for random reads. The handle's bytes are
    /// the file's contents at open time, and they outlive a later `delete`.
    #[verifier::loop_isolation(false)]
    pub fn open_read(&self, path: &[u8]) -> (r: Result<ReadHandle, TantivyError>)
        requires
            self.wf(),
        ensures
            match r {
                Ok(h) => self.files_spec().contains_key(path@) && h.data_spec()
                    == self.files_spec()[path@],
                Err(e) => e == TantivyError::FileDoesNotExist && !self.files_spec().contains_key(
                    path@,
                ),
            },
    {
        proof {
            lemma_map_of_contains(self.files@, path@);
        }
        match self.find_file(path) {
            Some(i) => {
                proof {
                    lemma_map_of_at(self.files@, i as int);
                }
                Ok(ReadHandle { data: bytes_to_vec(self.files[i].1.as_slice()) })
            },
            None => Err(TantivyError::FileDoesNotExist),
        }
    }

    /// Removes the file at `path`; fails with `FileDoesNotExist` when there
    /// is none.
    #[verifier::loop_isolation(false)]
    pub fn delete(&mut self, path: &[u8]) -> (r: Result<(), TantivyError>)
        requires
            old(self).wf(),
        ensures
            final(self).wf(),
            final(self).locks_spec() == old(self).locks_spec(),
            final(self).watches_spec() == old(self).watches_spec(),
            final(self).next_watch_id_spec() == old(self).next_watch_id_spec(),
            match r {
                Ok(u) => old(self).files_spec().contains_key(path@) && final(self).files_spec()
                    == old(self).files_spec().remove(path@),
                Err(e) => e == TantivyError::FileDoesNotExist && !old(
                    self,
                ).files_spec().contains_key(path@) && *final(self) == *old(self),
            },
    {
        proof {
            lemma_map_of_contains(self.files@, path@);
        }
        match self.find_file(path) {
            Some(i) => {
                proof {
                    lemma_map_of_at(self.files@, i as int);
                    lemma_map_of_remove(self.files@, i as int);
                }
                self.files.remove(i);
                Ok(())
            },
            None => Err(TantivyError::FileDoesNotExist),
        }
    }

    /// Atomically replaces the small metadata file at `path` with `data`
    /// and delivers one notification to every live watch registration.
    #[verifier::loop_isolation(false)]
    pub fn atomic_write(&mut self, path: &[u8], data: &[u8]) -> (r: Result<(), TantivyError>)
        requires
            old(self).wf(),
        ensures
            final(self).wf(),
            r.is_ok(),
            final(self).files_spec() == old(self).files_spec().insert(path@, data@),
            final(self).locks_spec() == old(self).locks_spec(),
            final(self).next_watch_id_spec() == old(self).next_watch_id_spec(),
            watches_bumped(old(self).watches_spec(), final(self).watches_spec()),
    {
        self.set_file(bytes_to_vec(path), bytes_to_vec(data));
        let mut bumped: Vec<(u64, u64)> = Vec::new();
        let ghost pre = self.watches@;
        let mut i: usize = 0;
        while i < self.watches.len()
            invariant
                self.watches@ == pre,
                i <= pre.len(),
                bumped@.len() == i,
                forall|j: int|
                    0 <= j < i ==> bumped@[j].0 == pre[j].0 && bumped@[j].1 == (
                    if pre[j].1 < u64::MAX {
                        pre[j].1 + 1
                    } else {
                        pre[j].1 as int
                    }),
            decreases pre.len() - i,
        {
            let (id, count) = self.watches[i];
            if count < u64::MAX {
                bumped.push((id, count + 1));
            } else {
                bumped.push((id, count));
            }
            i = i + 1;
        }
        self.watches = bumped;
        proof {
            assert forall|a: int, b: int|
                0 <= a < b < self.watches@.len() implies self.watches@[a].0
                != self.watches@[b].0 by {
                assert(self.watches@[a].0 == pre[a].0);
                assert(self.watches@[b].0 == pre[b].0);
            }
            assert forall|a: int|
                0 <= a < self.watches@.len() implies self.watches@[a].0 < self.next_watch_id by {
                assert(self.watches@[a].0 == pre[a].0);
            }
        }
        Ok(())
    }

    /// Acquires the advisory exclusive lock keyed by `lock.filepath`. A
    /// held lock is refused with `LockBusy`: within this single-owner
    /// in-memory directory a blocking wait could never end, so `is_blocking`
    /// changes nothing here.
    #[verifier::loop_isolation(false)]
    pub fn acquire_lock(&mut self, lock: &Lock) -> (r: Result<LockGuard, TantivyError>)
        requires
            old(self).wf(),
        ensures
            final(self).wf(),
            final(self).files_spec() == old(self).files_spec(),
            final(self).watches_spec() == old(self).watches_spec(),
            final(self).next_watch_id_spec() == old(self).next_watch_id_spec(),
            match r {
                Ok(g) => {
                    &&& !old(self).lock_held(lock.filepath@)
                    &&& g.path_spec() == lock.filepath@
                    &&& forall|p: Seq<u8>|
                        final(self).lock_held(p) <==> (old(self).lock_held(p) || p
                            == lock.filepath@)
                },
                Err(e) => {
                    &&& e == TantivyError::LockBusy
                    &&& old(self).lock_held(lock.filepath@)
                    &&& *final(self) == *old(self)
                },
            },
    {
        let mut i: usize = 0;
        while i < self.locks.len()
            invariant
                i <= self.locks@.len(),
                forall|j: int| 0 <= j < i ==> self.locks@[j]@ != lock.filepath@,
            decreases self.locks@.len() - i,
        {
            if bytes_eq(self.locks[i].as_slice(), lock.filepath.as_slice()) {
                proof {
                    assert(old(self).locks_spec()[i as int] == lock.filepath@);
                }
                return Err(TantivyError::LockBusy);
            }
            i = i + 1;
        }
        self.locks.push(bytes_to_vec(lock.filepath.as_slice()));
        proof {
            let pre = old(self).locks_spec();
            let post = self.locks_spec();
            assert(post =~= pre.push(lock.filepath@));
            assert forall|a: int, b: int|
                0 <= a < b < self.locks@.len() implies self.locks@[a]@ != self.locks@[b]@ by {
                assert(pre[a] == old(self).locks@[a]@);
                if b < self.locks@.len() - 1 {
                    assert(pre[b] == old(self).locks@[b]@);
                }
            }
            assert forall|p: Seq<u8>| self.lock_held(p) <==> (old(self).lock_held(p) || p
                == lock.filepath@) by {
                if old(self).lock_held(p) {
                    let j = choose|j: int| 0 <= j < pre.len() && pre[j] == p;
                    assert(post[j] == p);
                }
                if p == lock.filepath@ {
                    assert(post[post.len() - 1] == p);
                }
                if self.lock_held(p) {
                    let j = choose|j: int| 0 <= j < post.len() && post[j] == p;
                    if j < post.len() - 1 {
                        assert(pre[j] == p);
                    }
                }
            }
        }
        Ok(LockGuard { path: bytes_to_vec(lock.filepath.as_slice()) })
    }

    /// Releases a held lock; afterwards its path can be acquired again.
    #[verifier::loop_isolation(false)]
    pub fn release_lock(&mut self, guard: LockGuard)
        requires
            old(self).wf(),
            old(self).lock_held(guard.path_spec()),
        ensures
            final(self).wf(),
            final(self).files_spec() == old(self).files_spec(),
            final(self).watches_spec() == old(self).watches_spec(),
            final(self).next_watch_id_spec() == old(self).next_watch_id_spec(),
            forall|p: Seq<u8>|
                final(self).lock_held(p) <==> (old(self).lock_held(p) && p != guard.path_spec()),
    {
        let ghost pre = self.locks@;
        let mut i: usize = 0;
        while i < self.locks.len()
            invariant
                *self == *old(self),
                self.locks@ == pre,
                i <= pre.len(),
                forall|j: int| 0 <= j < i ==> pre[j]@ != guard.path@,
            decreases pre.len() - i,
        {
            if bytes_eq(self.locks[i].as_slice(), guard.path.as_slice()) {
                self.locks.remove(i);
                proof {
                    let pre_s = old(self).locks_spec();
                    let post_s = self.locks_spec();
                    assert(self.locks@ =~= pre.subrange(0, i as int) + pre.subrange(
                        i as int + 1,
                        pre.len() as int,
                    ));
                    assert(post_s =~= pre_s.remove(i as int));
                    assert forall|a: int, b: int|
                        0 <= a < b < self.locks@.len() implies self.locks@[a]@
                        != self.locks@[b]@ by {
                        let a0 = if a < i { a } else { a + 1 };
                        let b0 = if b < i { b } else { b + 1 };
                        assert(self.locks@[a]@ == pre[a0]@);
                        assert(self.locks@[b]@ == pre[b0]@);
                    }
                    assert forall|p: Seq<u8>|
                        self.lock_held(p) <==> (old(self).lock_held(p) && p != guard.path@) by {
                        if self.lock_held(p) {
                            let j = choose|j: int| 0 <= j < post_s.len() && post_s[j] == p;
                            let j0 = if j < i { j } else { j + 1 };
                            assert(pre_s[j0] == p);
                            if p == guard.path@ {
                                assert(pre_s[j0] == pre[i as int]@);
                                assert(false);
                            }
                        }
                        if old(self).lock_held(p) && p != guard.path@ {
                            let j = choose|j: int| 0 <= j < pre_s.len() && pre_s[j] == p;
                            assert(j != i);
                            let j1 = if j < i { j } else { j - 1 };
                            assert(post_s[j1] == p);
                        }
                    }
                }
                return;
            }
            i = i + 1;
        }
        proof {
            let j = choose|j: int|
                0 <= j < old(self).locks_spec().len() && old(self).locks_spec()[j]
                    == guard.path_spec();
            assert(pre[j]@ == guard.path@);
            assert(false);
        }
    }

    /// Registers a watch. The registration is delivered one notification
    /// per successful `atomic_write` until it is dropped with `unwatch`.
    #[verifier::loop_isolation(false)]
    pub fn watch(&mut self) -> (r: Result<WatchHandle, TantivyError>)
        requires
            old(self).wf(),
        ensures
            final(self).wf(),
            final(self).files_spec() == old(self).files_spec(),
            final(self).locks_spec() == old(self).locks_spec(),
            match r {
                Ok(h) => {
                    &&& old(self).next_watch_id_spec() < u64::MAX
                    &&& h.id_spec() == old(self).next_watch_id_spec()
                    &&& final(self).watches_spec() == old(self).watches_spec().push(
                        (h.id_spec(), 0u64),
                    )
                    &&& final(self).next_watch_id_spec() == old(self).next_watch_id_spec() + 1
                },
                Err(e) => {
                    &&& e == TantivyError::Io
                    &&& old(self).next_watch_id_spec() == u64::MAX
                    &&& *final(self) == *old(self)
                },
            },
    {
        if self.next_watch_id == u64::MAX {
            return Err(TantivyError::Io);
        }
        let id = self.next_watch_id;
        self.watches.push((id, 0));
        self.next_watch_id = id + 1;
        Ok(WatchHandle { id })
    }

    /// How many notifications the registration behind `handle` has been
    /// delivered.
    #[verifier::loop_isolation(false)]
    pub fn watch_count(&self, handle: &WatchHandle) -> (r: u64)
        requires
            self.wf(),
            exists|i: int|
                0 <= i < self.watches_spec().len() && self.watches_spec()[i].0 == handle.id_spec(),
        ensures
            exists|i: int|
                0 <= i < self.watches_spec().len() && self.watches_spec()[i].0 == handle.id_spec()
                    && r == self.watches_spec()[i].1,
    {
        let ghost pre = self.watches@;
        let mut i: usize = 0;
        while i < self.watches.len()
            invariant
                self.watches@ == pre,
                i <= pre.len(),
                forall|j: int| 0 <= j < i ==> pre[j].0 != handle.id_spec(),
            decreases pre.len() - i,
        {
            if self.watches[i].0 == handle.id {
                proof {
                    assert(i < self.watches_spec().len());
                    assert(self.watches_spec()[i as int].0 == handle.id_spec());
                }
                return self.watches[i].1;
            }
            i = i + 1;
        }
        proof {
            let j = choose|j: int| 0 <= j < pre.len() && pre[j].0 == handle.id_spec();
            assert(false);
        }
        0
    }

    /// Disarms a watch registration: subsequent atomic writes are not
    /// delivered to it, and every other registration keeps its count.
    #[verifier::loop_isolation(false)]
    pub fn unwatch(&mut self, handle: WatchHandle)
        requires
            old(self).wf(),
            exists|i: int|
                0 <= i < old(self).watches_spec().len() && old(self).watches_spec()[i].0
                    == handle.id_spec(),
        ensures
            final(self).wf(),
            final(self).files_spec() == old(self).files_spec(),
            final(self).locks_spec() == old(self).locks_spec(),
            final(self).next_watch_id_spec() == old(self).next_watch_id_spec(),
            exists|i: int|
                0 <= i < old(self).watches_spec().len() && old(self).watches_spec()[i].0
                    == handle.id_spec() && final(self).watches_spec() == old(
                    self,
                ).watches_spec().remove(i),
    {
        let ghost pre = self.watches@;
        let mut i: usize = 0;
        while i < self.watches.len()
            invariant
                *self == *old(self),
                self.watches@ == pre,
                i <= pre.len(),
                forall|j: int| 0 <= j < i ==> pre[j].0 != handle.id_spec(),
            decreases pre.len() - i,
        {
            if self.watches[i].0 == handle.id {
                self.watches.remove(i);
                proof {
                    assert(self.watches@ =~= pre.subrange(0, i as int) + pre.subrange(
                        i as int + 1,
                        pre.len() as int,
                    ));
                    assert forall|a: int, b: int|
                        0 <= a < b < self.watches@.len() implies self.watches@[a].0
                        != self.watches@[b].0 by {
                        let a0 = if a < i { a } else { a + 1 };
                        let b0 = if b < i { b } else { b + 1 };
                        assert(self.watches@[a].0 == pre[a0].0);
                        assert(self.watches@[b].0 == pre[b0].0);
                    }
                    assert forall|a: int|
                        0 <= a < self.watches@.len() implies self.watches@[a].0
                        < self.next_watch_id by {
                        let a0 = if a < i { a } else { a + 1 };
                        assert(self.watches@[a].0 == pre[a0].0);
                    }
                    assert(old(self).watches_spec()[i as int].0 == handle.id_spec());
                    assert(self.watches@ =~= old(self).watches_spec().remove(i as int));
                }
                return;
            }
            i = i + 1;
        }
        proof {
            let j = choose|j: int| 0 <= j < pre.len() && pre[j].0 == handle.id_spec();
            assert(false);
        }
    }
}

/// Two successive atomic writes of the same bytes to the same path leave
/// exactly those bytes there, and each write delivers a notification to
/// every registration live across both: writing what is already written is
/// harmless and still observable.
pub proof fn lemma_atomic_write_idempotent(
    m0: Map<Seq<u8>, Seq<u8>>,
    p: Seq<u8>,
    x: Seq<u8>,
    w0: Seq<(u64, u64)>,
    w1: Seq<(u64, u64)>,
    w2: Seq<(u64, u64)>,
)
    requires
        watches_bumped(w0, w1),
        watches_bumped(w1, w2),
        forall|i: int| 0 <= i < w0.len() ==> w0[i].1 < u64::MAX - 1,
    ensures
        m0.insert(p, x).insert(p, x) == m0.insert(p, x),
        m0.insert(p, x).insert(p, x)[p] == x,
        w2.len() == w0.len(),
        forall|i: int| 0 <= i < w0.len() ==> w2[i].0 == w0[i].0 && w2[i].1 == w0[i].1 + 2,
{
    assert(m0.insert(p, x).insert(p, x) =~= m0.insert(p, x));
}

/// Once `open_write` has created a file at `p`, a second `open_write` of
/// `p` without an intervening delete must fail: creation is exclusive.
pub proof fn lemma_rewrite_forbidden(m0: Map<Seq<u8>, Seq<u8>>, p: Seq<u8>)
    ensures
        m0.insert(p, Seq::<u8>::empty()).contains_key(p),
{
}

} // verus!
