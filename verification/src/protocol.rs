//! The vocabulary of the synchronization protocol: file actions, file
//! descriptors, directive envelopes and the request/response payloads of the
//! four operations.

use crate::db::{DbManager, Meta};
use crate::error::{ApplicationError, UserError};
use crate::user::{compute_hash, credential_matches};
use vstd::prelude::*;
use vstd::string::StrSliceExecFns;
use vstd::string::StringExecFns;

verus! {

/// The directive attached to a file descriptor: the action last applied to a
/// record on the server side, or the action requested of one side by the
/// other. `Absent` marks an implicit delta: the client asks what to do with
/// the file.
#[derive(Clone, Copy, PartialEq, Eq, Structural, Debug, Hash)]
pub enum FileAction {
    Upload,
    Download,
    Delete,
    Chunk,
    Modify,
    Absent,
}

/// State of one file as a client declares it; identity is by `name`.
#[derive(Debug, Hash, Eq)]
pub struct FileInfo {
    pub name: String,
    pub path: String,
    pub mtime: i64,
    pub ctime: i64,
}

/// Value equality of two file descriptors: all four fields agree.
pub open spec fn fi_eq(a: FileInfo, b: FileInfo) -> bool {
    &&& a.name@ == b.name@
    &&& a.path@ == b.path@
    &&& a.mtime == b.mtime
    &&& a.ctime == b.ctime
}

impl PartialEq for FileInfo {
    fn eq(&self, other: &Self) -> bool {
        self.name == other.name && self.path == other.path && self.mtime == other.mtime
            && self.ctime == other.ctime
    }
}

impl vstd::std_specs::cmp::PartialEqSpecImpl for FileInfo {
    open spec fn obeys_eq_spec() -> bool {
        true
    }

    open spec fn eq_spec(&self, other: &Self) -> bool {
        fi_eq(*self, *other)
    }
}

impl Clone for FileInfo {
    fn clone(&self) -> (r: Self)
        ensures
            r == *self,
    {
        FileInfo {
            name: self.name.clone(),
            path: self.path.clone(),
            mtime: self.mtime,
            ctime: self.ctime,
        }
    }
}

impl Default for FileInfo {
    fn default() -> (r: Self)
        ensures
            r.name@ =~= Seq::<char>::empty(),
            r.path@ =~= Seq::<char>::empty(),
            r.mtime == 0,
            r.ctime == 0,
    {
        FileInfo { name: String::new(), path: String::new(), mtime: 0, ctime: 0 }
    }
}

impl FileInfo {
    pub fn path(&self) -> (r: String)
        ensures
            r == self.path,
    {
        self.path.clone()
    }

    pub fn name(&self) -> (r: String)
        ensures
            r == self.name,
    {
        self.name.clone()
    }
}

/// One directive envelope: an action paired with a file descriptor. This is
/// the unit of exchange of the Meta operation, in both directions.
#[derive(Debug, Hash, Eq)]
pub struct MetaInner {
    pub action: FileAction,
    pub fileinfo: FileInfo,
}

/// Value equality of two envelopes: same action, equal descriptors.
pub open spec fn mi_eq(a: MetaInner, b: MetaInner) -> bool {
    &&& a.action == b.action
    &&& fi_eq(a.fileinfo, b.fileinfo)
}

impl PartialEq for MetaInner {
    fn eq(&self, other: &Self) -> bool {
        self.action == other.action && self.fileinfo == other.fileinfo
    }
}

impl vstd::std_specs::cmp::PartialEqSpecImpl for MetaInner {
    open spec fn obeys_eq_spec() -> bool {
        true
    }

    open spec fn eq_spec(&self, other: &Self) -> bool {
        mi_eq(*self, *other)
    }
}

impl Clone for MetaInner {
    fn clone(&self) -> (r: Self)
        ensures
            r == *self,
    {
        MetaInner { action: self.action, fileinfo: self.fileinfo.clone() }
    }
}

impl Default for MetaInner {
    fn default() -> (r: Self)
        ensures
            r.action == FileAction::Absent,
            r.fileinfo.name@ =~= Seq::<char>::empty(),
            r.fileinfo.path@ =~= Seq::<char>::empty(),
            r.fileinfo.mtime == 0,
            r.fileinfo.ctime == 0,
    {
        MetaInner { action: FileAction::Absent, fileinfo: FileInfo::default() }
    }
}

/// The envelope that announces `action` for the file a server record
/// describes.
pub open spec fn mi_of_meta(action: FileAction, m: Meta) -> MetaInner {
    MetaInner {
        action,
        fileinfo: FileInfo { name: m.fname, path: m.paths, mtime: m.mtime, ctime: m.ctime },
    }
}

impl MetaInner {
    pub fn from_fileinfo(action: FileAction, fileinfo: &FileInfo) -> (r: Self)
        ensures
            r == (MetaInner { action, fileinfo: *fileinfo }),
    {
        Self { action, fileinfo: fileinfo.clone() }
    }

    pub fn new(action: FileAction, meta: &Meta) -> (r: Self)
        ensures
            r == mi_of_meta(action, *meta),
    {
        Self {
            action,
            fileinfo: FileInfo {
                name: meta.fname(),
                path: meta.paths(),
                mtime: meta.mtime(),
                ctime: meta.ctime(),
            },
        }
    }
}

/// Request payload of the Meta operation: the client's declared deltas.
#[derive(Debug)]
pub struct MetaRequest {
    pub states: Vec<MetaInner>,
}

/// Response payload of the Meta operation: the outbound directives.
#[derive(Debug)]
pub struct MetaResponse {
    pub metainner: Vec<MetaInner>,
}

/// A whole file in flight: its descriptor and its content.
#[derive(Debug)]
pub struct Pfile {
    pub states: FileInfo,
    pub content: String,
}

impl Clone for Pfile {
    fn clone(&self) -> (r: Self)
        ensures
            r == *self,
    {
        Pfile { states: self.states.clone(), content: self.content.clone() }
    }
}

/// Value equality of two files in flight: equal descriptors, equal content.
pub open spec fn pf_eq(a: Pfile, b: Pfile) -> bool {
    &&& fi_eq(a.states, b.states)
    &&& a.content@ == b.content@
}

impl PartialEq for Pfile {
    fn eq(&self, other: &Self) -> bool {
        self.states == other.states && self.content == other.content
    }
}

impl vstd::std_specs::cmp::PartialEqSpecImpl for Pfile {
    open spec fn obeys_eq_spec() -> bool {
        true
    }

    open spec fn eq_spec(&self, other: &Self) -> bool {
        pf_eq(*self, *other)
    }
}

/// Request payload of the Upload operation.
#[derive(Debug)]
pub struct UploadRequest {
    pub files: Vec<Pfile>,
}

/// Request payload of the Download operation.
#[derive(Debug)]
pub struct DownloadRequest {
    pub filenames: Vec<String>,
}

/// Response payload of the Download operation.
#[derive(Debug)]
pub struct DownloadResponse {
    pub files: Vec<Pfile>,
}

/// Request payload of the HostKey operation.
#[derive(Debug)]
pub struct HostKeyRequest {
    pub username: String,
    pub password: String,
}

/// Response payload of the HostKey operation: the session key, equal to the
/// stored salted hash.
#[derive(Debug)]
pub struct HostKeyResponse {
    pub key: String,
}

/// The operation vocabulary. Only HostKey, Meta, Upload and Download have
/// behavior in the core; the rest are reserved.
#[derive(Clone, Copy, PartialEq, Eq, Structural, Debug)]
pub enum SyncMethod {
    HostKey,
    Meta,
    Chunk,
    ApplyChunk,
    Finish,
    Abort,
    Upload,
    Download,
}

/// One registered user: the name, the stored credential that doubles as the
/// session key, the per-user folder tag, and the user's own store.
pub struct User {
    pub name: String,
    pub hash: String,
    pub folder: String,
    pub db: DbManager,
}

/// The session registry: every registered user, each isolated in an own
/// store. A presented session key selects the user whose stored credential
/// equals it.
pub struct Server {
    pub users: Vec<User>,
}

/// The registered user a session key selects: the last row whose stored
/// credential equals the key (a later registration shadows an earlier one
/// under the same credential), or -1 when none does.
pub open spec fn key_idx(users: Seq<User>, key: Seq<char>) -> int
    decreases users.len(),
{
    if users.len() == 0 {
        -1
    } else if users.last().hash@ == key {
        users.len() - 1
    } else {
        key_idx(users.drop_last(), key)
    }
}

/// The registered user of a given name: the last row of that name, or -1.
pub open spec fn uname_idx(users: Seq<User>, name: Seq<char>) -> int
    decreases users.len(),
{
    if users.len() == 0 {
        -1
    } else if users.last().name@ == name {
        users.len() - 1
    } else {
        uname_idx(users.drop_last(), name)
    }
}

/// Where the key index points, and that it misses exactly when no stored
/// credential equals the key.
pub proof fn lemma_key_idx(users: Seq<User>, key: Seq<char>)
    ensures
        -1 <= key_idx(users, key) < users.len(),
        key_idx(users, key) >= 0 ==> users[key_idx(users, key)].hash@ == key,
        (key_idx(users, key) == -1) <==> (forall|i: int|
            0 <= i < users.len() ==> (#[trigger] users[i]).hash@ != key),
    decreases users.len(),
{
    if users.len() > 0 && users.last().hash@ != key {
        lemma_key_idx(users.drop_last(), key);
        if key_idx(users, key) >= 0 {
            assert(users.drop_last()[key_idx(users, key)] == users[key_idx(users, key)]);
        }
        if key_idx(users, key) == -1 {
            assert forall|i: int|
                0 <= i < users.len() implies (#[trigger] users[i]).hash@ != key by {
                if i < users.len() - 1 {
                    assert(users.drop_last()[i] == users[i]);
                }
            }
        }
    }
}

/// Where the name index points, and that it misses exactly when no user has
/// the name.
pub proof fn lemma_uname_idx(users: Seq<User>, name: Seq<char>)
    ensures
        -1 <= uname_idx(users, name) < users.len(),
        uname_idx(users, name) >= 0 ==> users[uname_idx(users, name)].name@ == name,
        (uname_idx(users, name) == -1) <==> (forall|i: int|
            0 <= i < users.len() ==> (#[trigger] users[i]).name@ != name),
    decreases users.len(),
{
    if users.len() > 0 && users.last().name@ != name {
        lemma_uname_idx(users.drop_last(), name);
        if uname_idx(users, name) >= 0 {
            assert(users.drop_last()[uname_idx(users, name)] == users[uname_idx(users, name)]);
        }
        if uname_idx(users, name) == -1 {
            assert forall|i: int|
                0 <= i < users.len() implies (#[trigger] users[i]).name@ != name by {
                if i < users.len() - 1 {
                    assert(users.drop_last()[i] == users[i]);
                }
            }
        }
    }
}

/// Find the user a session key selects.
fn find_by_key(users: &Vec<User>, key: &String) -> (r: Option<usize>)
    ensures
        match r {
            Some(i) => key_idx(users@, key@) == i,
            None => key_idx(users@, key@) == -1,
        },
{
    let mut found: Option<usize> = None;
    let mut j: usize = 0;
    while j < users.len()
        invariant
            j <= users@.len(),
            match found {
                Some(i) => key_idx(users@.take(j as int), key@) == i,
                None => key_idx(users@.take(j as int), key@) == -1,
            },
        decreases users@.len() - j,
    {
        proof {
            assert(users@.take(j as int + 1).drop_last() =~= users@.take(j as int));
            assert(users@.take(j as int + 1).last() == users@[j as int]);
        }
        if users[j].hash == *key {
            found = Some(j);
        }
        j += 1;
    }
    proof {
        assert(users@.take(users@.len() as int) =~= users@);
    }
    found
}

/// Find the user of a given name.
fn find_by_name(users: &Vec<User>, name: &String) -> (r: Option<usize>)
    ensures
        match r {
            Some(i) => uname_idx(users@, name@) == i,
            None => uname_idx(users@, name@) == -1,
        },
{
    let mut found: Option<usize> = None;
    let mut j: usize = 0;
    while j < users.len()
        invariant
            j <= users@.len(),
            match found {
                Some(i) => uname_idx(users@.take(j as int), name@) == i,
                None => uname_idx(users@.take(j as int), name@) == -1,
            },
        decreases users@.len() - j,
    {
        proof {
            assert(users@.take(j as int + 1).drop_last() =~= users@.take(j as int));
            assert(users@.take(j as int + 1).last() == users@[j as int]);
        }
        if users[j].name == *name {
            found = Some(j);
        }
        j += 1;
    }
    proof {
        assert(users@.take(users@.len() as int) =~= users@);
    }
    found
}

impl Server {
    /// Every user's store is well-formed.
    pub open spec fn wf(self) -> bool {
        forall|i: int| 0 <= i < self.users@.len() ==> (#[trigger] self.users@[i]).db.wf()
    }

    /// Build the registry from the credential table: one user with a fresh
    /// store per (name, stored credential) row, the per-user folder tagged by
    /// the name. An empty table is refused: the server must not start with
    /// zero users.
    pub fn new_from_db(users: Vec<(String, String)>) -> (r: Result<Server, ApplicationError>)
        ensures
            (r is Ok) <==> users@.len() > 0,
            r matches Ok(s) ==> {
                &&& s.wf()
                &&& s.users@.len() == users@.len()
                &&& forall|i: int|
                    0 <= i < users@.len() ==> {
                        &&& (#[trigger] s.users@[i]).name == users@[i].0
                        &&& s.users@[i].hash == users@[i].1
                        &&& s.users@[i].folder == users@[i].0
                        &&& s.users@[i].db.db.meta@ =~= Seq::<Meta>::empty()
                        &&& s.users@[i].db.db.content@ =~= Seq::<
                            crate::db::ContentBlob,
                        >::empty()
                    }
            },
            !(r is Ok) ==> r matches Err(
                ApplicationError::UserError(UserError::MissingValues(_)),
            ),
    {
        if users.len() == 0 {
            return Err(
                ApplicationError::UserError(
                    UserError::MissingValues(String::from_str("no user found on the server side")),
                ),
            );
        }
        let mut built: Vec<User> = Vec::new();
        let mut i: usize = 0;
        while i < users.len()
            invariant
                i <= users@.len(),
                built@.len() == i,
                forall|j: int|
                    0 <= j < i ==> {
                        &&& (#[trigger] built@[j]).name == users@[j].0
                        &&& built@[j].hash == users@[j].1
                        &&& built@[j].folder == users@[j].0
                        &&& built@[j].db.db.meta@ =~= Seq::<Meta>::empty()
                        &&& built@[j].db.db.content@ =~= Seq::<crate::db::ContentBlob>::empty()
                        &&& built@[j].db.wf()
                    },
            decreases users@.len() - i,
        {
            let entry = &users[i];
            built.push(
                User {
                    name: entry.0.clone(),
                    hash: entry.1.clone(),
                    folder: entry.0.clone(),
                    db: DbManager::new(),
                },
            );
            i += 1;
        }
        Ok(Server { users: built })
    }

    /// Verify the presented name and password against the registered
    /// credential. On success the stored credential itself is handed back as
    /// the session key; an unknown name and a wrong password fail alike.
    pub fn host_key(&self, req: &HostKeyRequest) -> (r: Result<
        HostKeyResponse,
        ApplicationError,
    >)
        ensures
            uname_idx(self.users@, req.username@) == -1 ==> r matches Err(
                ApplicationError::UserError(UserError::Authentication(_)),
            ),
            uname_idx(self.users@, req.username@) >= 0 ==> {
                let stored = self.users@[uname_idx(self.users@, req.username@)].hash;
                &&& credential_matches(req.username@, req.password@, stored@) ==> (r matches Ok(
                    resp,
                ) && resp.key == stored)
                &&& !credential_matches(req.username@, req.password@, stored@) ==> r matches Err(
                    ApplicationError::UserError(UserError::Authentication(_)),
                )
            },
    {
        let found = find_by_name(&self.users, &req.username);
        proof {
            lemma_uname_idx(self.users@, req.username@);
        }
        match found {
            Some(i) => {
                let stored = &self.users[i].hash;
                if stored.unicode_len() < 16 {
                    return Err(
                        ApplicationError::UserError(
                            UserError::Authentication(
                                String::from_str("authentication failed"),
                            ),
                        ),
                    );
                }
                let actual_hash = compute_hash(
                    req.username.as_str(),
                    req.password.as_str(),
                    stored.as_str(),
                );
                if actual_hash == *stored {
                    Ok(HostKeyResponse { key: stored.clone() })
                } else {
                    Err(
                        ApplicationError::UserError(
                            UserError::Authentication(
                                String::from_str("authentication failed"),
                            ),
                        ),
                    )
                }
            },
            None => Err(
                ApplicationError::UserError(
                    UserError::Authentication(String::from_str("authentication failed")),
                ),
            ),
        }
    }

    /// Run one Meta call against the store of the user the session key
    /// selects; an unknown key is refused before any store access.
    pub fn meta(&mut self, sync_key: &String, req: MetaRequest) -> (r: Result<
        MetaResponse,
        ApplicationError,
    >)
        requires
            old(self).wf(),
        ensures
            final(self).wf(),
            key_idx(old(self).users@, sync_key@) == -1 ==> (r matches Err(
                ApplicationError::InvalidHostKey(_),
            ) && *final(self) == *old(self)),
            key_idx(old(self).users@, sync_key@) >= 0 ==> {
                let i = key_idx(old(self).users@, sync_key@);
                let u = old(self).users@[i];
                &&& final(self).users@.len() == old(self).users@.len()
                &&& forall|j: int|
                    0 <= j < old(self).users@.len() && j != i ==> final(self).users@[j] == old(
                        self,
                    ).users@[j]
                &&& final(self).users@[i].name == u.name
                &&& final(self).users@[i].hash == u.hash
                &&& final(self).users@[i].folder == u.folder
                &&& final(self).users@[i].db.db.meta@ == crate::file_process::reconcile_meta(
                    req.states@,
                    u.db.db.meta@,
                )
                &&& final(self).users@[i].db.db.content@ == u.db.db.content@
                &&& r matches Ok(resp) && resp.metainner@ == crate::file_process::reconcile_out(
                    req.states@,
                    u.db.db.meta@,
                )
            },
    {
        let found = find_by_key(&self.users, sync_key);
        proof {
            lemma_key_idx(self.users@, sync_key@);
        }
        match found {
            Some(i) => {
                let u = &mut self.users[i];
                let resp = crate::file_process::server_meta(req, &mut u.db);
                Ok(resp)
            },
            None => Err(
                ApplicationError::InvalidHostKey(String::from_str("invalid host key")),
            ),
        }
    }

    /// Append the uploaded files to the store of the user the session key
    /// selects; an unknown key is refused before any store access.
    pub fn upload(&mut self, sync_key: &String, req: UploadRequest) -> (r: Result<
        (),
        ApplicationError,
    >)
        requires
            old(self).wf(),
        ensures
            final(self).wf(),
            key_idx(old(self).users@, sync_key@) == -1 ==> (r matches Err(
                ApplicationError::InvalidHostKey(_),
            ) && *final(self) == *old(self)),
            key_idx(old(self).users@, sync_key@) >= 0 ==> {
                let i = key_idx(old(self).users@, sync_key@);
                let u = old(self).users@[i];
                &&& final(self).users@.len() == old(self).users@.len()
                &&& forall|j: int|
                    0 <= j < old(self).users@.len() && j != i ==> final(self).users@[j] == old(
                        self,
                    ).users@[j]
                &&& final(self).users@[i].name == u.name
                &&& final(self).users@[i].hash == u.hash
                &&& final(self).users@[i].folder == u.folder
                &&& ((r is Ok) <==> crate::db::max_id(u.db.db.meta@) + req.files@.len()
                    <= i32::MAX)
                &&& r is Ok ==> final(self).users@[i].db.db.meta@ == crate::db::appended_meta(
                    u.db.db.meta@,
                    req.files@,
                ) && final(self).users@[i].db.db.content@ == crate::db::appended_content(
                    u.db.db.content@,
                    crate::db::max_id(u.db.db.meta@),
                    req.files@,
                )
                &&& !(r is Ok) ==> final(self).users@[i] == u && (r matches Err(
                    ApplicationError::Storage(_),
                ))
            },
    {
        let found = find_by_key(&self.users, sync_key);
        proof {
            lemma_key_idx(self.users@, sync_key@);
        }
        match found {
            Some(i) => {
                let u = &mut self.users[i];
                let res = u.db.upload(req);
                proof {
                    if !(res is Ok) {
                        assert(final(self).users@ =~= old(self).users@);
                    }
                }
                res
            },
            None => Err(
                ApplicationError::InvalidHostKey(String::from_str("invalid host key")),
            ),
        }
    }

    /// Resolve the requested names against the store of the user the session
    /// key selects; an unknown key is refused before any store access.
    pub fn download(&self, sync_key: &String, req: DownloadRequest) -> (r: Result<
        DownloadResponse,
        ApplicationError,
    >)
        ensures
            key_idx(self.users@, sync_key@) == -1 ==> r matches Err(
                ApplicationError::InvalidHostKey(_),
            ),
            key_idx(self.users@, sync_key@) >= 0 ==> {
                let u = self.users@[key_idx(self.users@, sync_key@)];
                &&& ((r is Ok) <==> (forall|k: int|
                    0 <= k < req.filenames@.len() ==> crate::db::retrieved_file(
                        u.db.db.meta@,
                        u.db.db.content@,
                        (#[trigger] req.filenames@[k])@,
                    ) is Some))
                &&& (r matches Ok(resp) ==> resp.files@.len() == req.filenames@.len() && (
                forall|k: int|
                    0 <= k < req.filenames@.len() ==> crate::db::retrieved_file(
                        u.db.db.meta@,
                        u.db.db.content@,
                        (#[trigger] req.filenames@[k])@,
                    ) == Some(resp.files@[k])))
                &&& (r matches Err(e) ==> exists|k: int|
                    0 <= k < req.filenames@.len() && crate::db::retrieved_file(
                        u.db.db.meta@,
                        u.db.db.content@,
                        (#[trigger] req.filenames@[k])@,
                    ) is None && (e matches ApplicationError::NotFound(n) && n@
                        == req.filenames@[k]@))
            },
    {
        let found = find_by_key(&self.users, sync_key);
        proof {
            lemma_key_idx(self.users@, sync_key@);
        }
        match found {
            Some(i) => {
                let res = self.users[i].db.download(req);
                res
            },
            None => Err(
                ApplicationError::InvalidHostKey(String::from_str("invalid host key")),
            ),
        }
    }
}

} // verus!
