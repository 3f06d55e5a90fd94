//! The store: where an object goes, what to do when it is put, and what a read of its
//! file amounts to. Files are read and written by the caller.

use crate::codec::{
    decode, decode_identified, decode_spec, encode, encode_spec, id_of, lemma_decode_encoded,
    lemma_decode_truncated, reads_back, stored_id, stored_id_spec, zlib_deflated, zlib_inflated,
};
use crate::error::{DecodeError, StoreError};
use crate::object::{GitObject, ObjectView};
use crate::oid::{
    fanout_dir_of, hex_of, is_hex_id, lemma_unhex_hex, object_path_of, objects_dir,
    objects_dir_of, unhex, ObjectId,
};
use vstd::prelude::*;

verus! {

/// What a put does to the object's file.
#[derive(Clone, Copy, Debug, PartialEq, Eq)]
pub enum PutAction {
    /// The file is there: objects are written once, so it is left as it is.
    Skip,
    /// The file is there and the store checks identifiers: it is left as it is, after a
    /// read that `Store::confirm_existing` judges.
    Verify,
    /// The file is not there: its directory is made if need be, and the bytes go in.
    Write,
}

/// What the caller found where an object's file should be.
#[derive(Clone, Debug, PartialEq, Eq)]
pub enum ReadOutcome {
    /// The repository has no `objects` directory.
    NoRepository,
    /// No file is at the path.
    Missing,
    /// The file is there and could not be read.
    Failed,
    /// The file's bytes.
    Contents(Vec<u8>),
}

/// What a `ReadOutcome` says.
pub ghost enum OutcomeView {
    NoRepository,
    Missing,
    Failed,
    Contents(Seq<u8>),
}

impl View for ReadOutcome {
    type V = OutcomeView;

    open spec fn view(&self) -> OutcomeView {
        match self {
            ReadOutcome::NoRepository => OutcomeView::NoRepository,
            ReadOutcome::Missing => OutcomeView::Missing,
            ReadOutcome::Failed => OutcomeView::Failed,
            ReadOutcome::Contents(bytes) => OutcomeView::Contents(bytes@),
        }
    }
}

/// What a put needs done: the bytes, and where they go.
#[derive(Clone, Debug, PartialEq, Eq)]
pub struct PutPlan {
    /// The object's identifier.
    pub id: ObjectId,
    /// The directory that must be there for the repository to count as one.
    pub objects_dir: Vec<u8>,
    /// The directory of the object's file.
    pub dir: Vec<u8>,
    /// The object's file.
    pub path: Vec<u8>,
    /// The compressed envelope.
    pub bytes: Vec<u8>,
}

/// What a get needs read.
#[derive(Clone, Debug, PartialEq, Eq)]
pub struct GetPlan {
    /// The identifier that was asked for.
    pub id: ObjectId,
    /// The directory that must be there for the repository to count as one.
    pub objects_dir: Vec<u8>,
    /// The object's file.
    pub path: Vec<u8>,
}

/// A repository root, and whether reads check identifiers.
#[derive(Clone, Debug, PartialEq, Eq)]
pub struct Store {
    /// The path of the repository.
    pub root: Vec<u8>,
    /// Whether a get hashes what it read and compares with what was asked for.
    pub verify_ids: bool,
}

/// What a put does, given whether the store checks identifiers and whether the `objects`
/// directory and the object's file are there.
pub open spec fn put_action_spec(verify_ids: bool, initialized: bool, present: bool) -> Result<
    PutAction,
    StoreError,
> {
    if !initialized {
        Err(StoreError::RepoNotInitialized)
    } else if !present {
        Ok(PutAction::Write)
    } else if verify_ids {
        Ok(PutAction::Verify)
    } else {
        Ok(PutAction::Skip)
    }
}

/// Whether what was found at the path of `id` may stay there for `id`: it must inflate to
/// an envelope whose digest is `id`.
pub open spec fn confirm_result(id: Seq<u8>, outcome: OutcomeView) -> Result<(), StoreError> {
    match outcome {
        OutcomeView::NoRepository => Err(StoreError::RepoNotInitialized),
        OutcomeView::Missing => Err(StoreError::NotFound),
        OutcomeView::Failed => Err(StoreError::Io),
        OutcomeView::Contents(bytes) => match stored_id_spec(bytes) {
            Ok(actual) => if actual == id {
                Ok(())
            } else {
                Err(StoreError::IdMismatch)
            },
            Err(error) => Err(error),
        },
    }
}

/// What a get of `id` returns, given what was found at the object's path. Where the store
/// checks identifiers, the digest of the envelope that was read must be `id`.
pub open spec fn get_result(verify_ids: bool, id: Seq<u8>, outcome: OutcomeView) -> Result<
    ObjectView,
    StoreError,
> {
    match outcome {
        OutcomeView::NoRepository => Err(StoreError::RepoNotInitialized),
        OutcomeView::Missing => Err(StoreError::NotFound),
        OutcomeView::Failed => Err(StoreError::Io),
        OutcomeView::Contents(bytes) => match decode_spec(bytes) {
            Ok(object) => if verify_ids && stored_id_spec(bytes) != Ok::<Seq<u8>, StoreError>(
                id,
            ) {
                Err(StoreError::IdMismatch)
            } else {
                Ok(object)
            },
            Err(error) => Err(error),
        },
    }
}

/// A repository as the store sees it: whether its `objects` directory is there, and the
/// files in it by their paths.
pub ghost struct Repo {
    pub initialized: bool,
    pub files: Map<Seq<u8>, Seq<u8>>,
}

impl Repo {
    /// What a reader finds at `path`, where every file that is there can be read.
    pub open spec fn read(self, path: Seq<u8>) -> OutcomeView {
        if !self.initialized {
            OutcomeView::NoRepository
        } else if !self.files.contains_key(path) {
            OutcomeView::Missing
        } else {
            OutcomeView::Contents(self.files[path])
        }
    }

    /// What a put of `x` into the repository at `root` returns, and the repository after
    /// it: the object is encoded, then the action is taken that `put_action_spec` names.
    pub open spec fn put(self, root: Seq<u8>, verify_ids: bool, x: ObjectView) -> Result<
        (Seq<u8>, Repo),
        StoreError,
    > {
        match encode_spec(x) {
            Ok((id, bytes)) => {
                let path = object_path_of(root, id);
                match put_action_spec(
                    verify_ids,
                    self.initialized,
                    self.files.contains_key(path),
                ) {
                    Ok(PutAction::Write) => Ok(
                        (
                            id,
                            Repo {
                                initialized: self.initialized,
                                files: self.files.insert(path, bytes),
                            },
                        ),
                    ),
                    Ok(PutAction::Skip) => Ok((id, self)),
                    Ok(PutAction::Verify) => match confirm_result(id, self.read(path)) {
                        Ok(_) => Ok((id, self)),
                        Err(error) => Err(error),
                    },
                    Err(error) => Err(error),
                }
            },
            Err(error) => Err(error),
        }
    }

    /// What a get of the identifier spelled `id` returns from the repository at `root`.
    pub open spec fn get(self, root: Seq<u8>, verify_ids: bool, id: Seq<u8>) -> Result<
        ObjectView,
        StoreError,
    > {
        if !is_hex_id(id) {
            Err(StoreError::InvalidId)
        } else {
            get_result(verify_ids, unhex(id), self.read(object_path_of(root, unhex(id))))
        }
    }
}

/// A get of what was put returns it. Where a put of a well-formed object `x` succeeded
/// with the identifier `id`, and the file of `x`, if it was there before, held `x`: a get
/// of `id` returns `x` as it is written, which for a canonical object is `x` itself.
pub proof fn lemma_get_after_put(
    repo: Repo,
    root: Seq<u8>,
    put_verifies: bool,
    get_verifies: bool,
    x: ObjectView,
    id: ObjectId,
)
    requires
        x.wf(),
        x.body().len() <= u64::MAX,
        reads_back(x.envelope()),
        repo.put(root, put_verifies, x) matches Ok((put_id, _)) && put_id == id@,
        repo.files.contains_key(object_path_of(root, id@)) ==> zlib_inflated(
            repo.files[object_path_of(root, id@)],
        ) == Some(x.envelope()),
    ensures
        repo.put(root, put_verifies, x)->Ok_0.1.get(root, get_verifies, hex_of(id@)) == Ok::<
            ObjectView,
            StoreError,
        >(x.canonical()),
        x.is_canonical() ==> repo.put(root, put_verifies, x)->Ok_0.1.get(
            root,
            get_verifies,
            hex_of(id@),
        ) == Ok::<ObjectView, StoreError>(x),
{
    let path = object_path_of(root, id@);
    let after = repo.put(root, put_verifies, x)->Ok_0.1;
    lemma_unhex_hex(id@);
    assert(after.files.contains_key(path));
    lemma_decode_encoded(x, after.files[path]);
    x.lemma_canonical_same();
    if x.is_canonical() {
        x.lemma_canonical();
    }
}

/// A second put of the same object succeeds as the first did and changes nothing. Where
/// a put of `x` succeeded, a put of `x` into what it left succeeds with the same
/// identifier and leaves the same repository; and the first put added no file but the
/// object's own, which holds what was there before or else the encoded bytes.
pub proof fn lemma_put_twice(repo: Repo, root: Seq<u8>, verify_ids: bool, x: ObjectView)
    requires
        reads_back(x.envelope()),
        repo.put(root, verify_ids, x) is Ok,
    ensures
        repo.put(root, verify_ids, x)->Ok_0.1.put(root, verify_ids, x) == repo.put(
            root,
            verify_ids,
            x,
        ),
        repo.put(root, verify_ids, x)->Ok_0.0 == id_of(x),
        repo.put(root, verify_ids, x)->Ok_0.1.files.dom() == repo.files.dom().insert(
            object_path_of(root, id_of(x)),
        ),
        repo.put(root, verify_ids, x)->Ok_0.1.files[object_path_of(root, id_of(x))]
            == if repo.files.contains_key(object_path_of(root, id_of(x))) {
            repo.files[object_path_of(root, id_of(x))]
        } else {
            zlib_deflated(x.envelope())->Some_0
        },
        forall|other: Seq<u8>|
            other != object_path_of(root, id_of(x)) && repo.files.contains_key(other)
                ==> repo.put(root, verify_ids, x)->Ok_0.1.files[other] == repo.files[other],
{
    let path = object_path_of(root, id_of(x));
    let after = repo.put(root, verify_ids, x)->Ok_0.1;
    assert(after.files.dom() =~= repo.files.dom().insert(path));
}

/// A get of a well-formed identifier under which nothing is stored is `NotFound`.
pub proof fn lemma_get_missing(repo: Repo, root: Seq<u8>, verify_ids: bool, id: Seq<u8>)
    requires
        repo.initialized,
        is_hex_id(id),
        !repo.files.contains_key(object_path_of(root, unhex(id))),
    ensures
        repo.get(root, verify_ids, id) == Err::<ObjectView, StoreError>(StoreError::NotFound),
{
}

/// A get of a file whose envelope lost the last byte of its body is corrupt, with a size
/// mismatch.
pub proof fn lemma_get_truncated(
    repo: Repo,
    root: Seq<u8>,
    verify_ids: bool,
    id: Seq<u8>,
    x: ObjectView,
)
    requires
        repo.initialized,
        is_hex_id(id),
        0 < x.body().len() <= u64::MAX,
        repo.files.contains_key(object_path_of(root, unhex(id))),
        zlib_inflated(repo.files[object_path_of(root, unhex(id))]) == Some(
            x.envelope().drop_last(),
        ),
    ensures
        repo.get(root, verify_ids, id) == Err::<ObjectView, StoreError>(
            StoreError::Corrupt(DecodeError::SizeMismatch),
        ),
{
    lemma_decode_truncated(x, repo.files[object_path_of(root, unhex(id))]);
}

impl Store {
    /// The store of the repository at `root`.
    pub fn new(root: Vec<u8>, verify_ids: bool) -> (store: Store)
        ensures
            store.root == root,
            store.verify_ids == verify_ids,
    {
        Store { root, verify_ids }
    }

    /// Encodes `object` and says where it goes.
    ///
    /// The plan is what `encode_spec` gives, with the paths of the identifier; planning
    /// fails, with `Io`, just where the compressor reports an error on the envelope. The
    /// planned bytes, found at the path, are confirmed for the identifier, and a get that
    /// finds them returns a well-formed object as it is written.
    pub fn plan_put(&self, object: &GitObject) -> (r: Result<PutPlan, StoreError>)
        ensures
            match r {
                Ok(plan) => {
                    &&& encode_spec(object@) == Ok::<(Seq<u8>, Seq<u8>), StoreError>(
                        (plan.id@, plan.bytes@),
                    )
                    &&& plan.id@ == id_of(object@)
                    &&& zlib_deflated(object@.envelope()) == Some(plan.bytes@)
                    &&& plan.objects_dir@ == objects_dir_of(self.root@)
                    &&& plan.dir@ == fanout_dir_of(self.root@, plan.id@)
                    &&& plan.path@ == object_path_of(self.root@, plan.id@)
                    &&& zlib_inflated(plan.bytes@) == Some(object@.envelope())
                    &&& confirm_result(plan.id@, OutcomeView::Contents(plan.bytes@)) == Ok::<
                        (),
                        StoreError,
                    >(())
                    &&& object@.wf() ==> get_result(
                        self.verify_ids,
                        plan.id@,
                        OutcomeView::Contents(plan.bytes@),
                    ) == Ok::<ObjectView, StoreError>(object@.canonical())
                },
                Err(error) => error == StoreError::Io && zlib_deflated(object@.envelope())
                    is None,
            },
            reads_back(object@.envelope()),
    {
        match encode(object) {
            Ok((id, bytes)) => Ok(
                PutPlan {
                    id,
                    objects_dir: objects_dir(self.root.as_slice()),
                    dir: id.dir_under(self.root.as_slice()),
                    path: id.path_under(self.root.as_slice()),
                    bytes,
                },
            ),
            Err(error) => Err(error),
        }
    }

    /// What a put does, given whether the `objects` directory and the object's file are
    /// there: nothing at all without the directory; the bytes go in where no file is; a
    /// file that is there stays, after a read where the store checks identifiers.
    pub fn put_action(&self, objects_dir_exists: bool, target_exists: bool) -> (r: Result<
        PutAction,
        StoreError,
    >)
        ensures
            r == put_action_spec(self.verify_ids, objects_dir_exists, target_exists),
    {
        if !objects_dir_exists {
            Err(StoreError::RepoNotInitialized)
        } else if !target_exists {
            Ok(PutAction::Write)
        } else if self.verify_ids {
            Ok(PutAction::Verify)
        } else {
            Ok(PutAction::Skip)
        }
    }

    /// Whether what was found at the path of `id` may stay there for `id`: its envelope is
    /// hashed again and must have the digest `id`, else the error is `IdMismatch`. What
    /// the envelope says is not looked at.
    pub fn confirm_existing(id: &ObjectId, outcome: ReadOutcome) -> (r: Result<(), StoreError>)
        ensures
            r == confirm_result(id@, outcome@),
    {
        match outcome {
            ReadOutcome::NoRepository => Err(StoreError::RepoNotInitialized),
            ReadOutcome::Missing => Err(StoreError::NotFound),
            ReadOutcome::Failed => Err(StoreError::Io),
            ReadOutcome::Contents(bytes) => match stored_id(bytes.as_slice()) {
                Ok(actual) => {
                    if actual.same_as(id) {
                        Ok(())
                    } else {
                        Err(StoreError::IdMismatch)
                    }
                },
                Err(error) => Err(error),
            },
        }
    }

    /// Checks an identifier and says which file holds its object. Anything but forty
    /// lowercase hexadecimal digits is `InvalidId`.
    pub fn plan_get(&self, id: &[u8]) -> (r: Result<GetPlan, StoreError>)
        ensures
            match r {
                Ok(plan) => {
                    &&& is_hex_id(id@)
                    &&& plan.id@ == unhex(id@)
                    &&& plan.objects_dir@ == objects_dir_of(self.root@)
                    &&& plan.path@ == object_path_of(self.root@, unhex(id@))
                },
                Err(error) => !is_hex_id(id@) && error == StoreError::InvalidId,
            },
    {
        match ObjectId::from_hex(id) {
            Ok(parsed) => Ok(
                GetPlan {
                    id: parsed,
                    objects_dir: objects_dir(self.root.as_slice()),
                    path: parsed.path_under(self.root.as_slice()),
                },
            ),
            Err(error) => Err(error),
        }
    }

    /// What a get of `id` returns, given what was found at the object's path.
    ///
    /// Without a repository the error is `RepoNotInitialized`, without a file `NotFound`,
    /// for a file that could not be read or inflated `Io`, for an envelope that holds no
    /// object `Corrupt`. Where the store checks identifiers, an envelope with another
    /// digest than `id` is `IdMismatch`.
    pub fn finish_get(&self, id: &ObjectId, outcome: ReadOutcome) -> (r: Result<
        GitObject,
        StoreError,
    >)
        ensures
            match r {
                Ok(object) => get_result(self.verify_ids, id@, outcome@) == Ok::<
                    ObjectView,
                    StoreError,
                >(object@),
                Err(error) => get_result(self.verify_ids, id@, outcome@) == Err::<
                    ObjectView,
                    StoreError,
                >(error),
            },
    {
        match outcome {
            ReadOutcome::NoRepository => Err(StoreError::RepoNotInitialized),
            ReadOutcome::Missing => Err(StoreError::NotFound),
            ReadOutcome::Failed => Err(StoreError::Io),
            ReadOutcome::Contents(bytes) => {
                if self.verify_ids {
                    match decode_identified(bytes.as_slice()) {
                        Ok((actual, object)) => {
                            if actual.same_as(id) {
                                Ok(object)
                            } else {
                                Err(StoreError::IdMismatch)
                            }
                        },
                        Err(error) => Err(error),
                    }
                } else {
                    decode(bytes.as_slice())
                }
            },
        }
    }
}

} // verus!
