//! The per-user content store: file metadata records and content blobs, with
//! append/tombstone semantics. Records are never removed; a deletion is
//! recorded by setting a record's action to `Delete`, and re-uploading a name
//! appends a new record rather than replacing the old one. Readers fold the
//! log to the latest record per name, by id.

use crate::error::ApplicationError;
use crate::protocol::{DownloadRequest, DownloadResponse, FileAction, FileInfo, MetaInner, Pfile,
    UploadRequest};
use vstd::prelude::*;

verus! {

/// One metadata record: the descriptor of a file as the server last saw it,
/// plus the action last applied to it. `indexs` points at the content blob;
/// by convention it equals `id`.
#[derive(Debug)]
pub struct Meta {
    pub id: i32,
    pub fname: String,
    pub indexs: i32,
    pub paths: String,
    pub states: FileAction,
    pub ctime: i64,
    pub mtime: i64,
}

impl Clone for Meta {
    fn clone(&self) -> (r: Self)
        ensures
            r == *self,
    {
        Meta {
            id: self.id,
            fname: self.fname.clone(),
            indexs: self.indexs,
            paths: self.paths.clone(),
            states: self.states,
            ctime: self.ctime,
            mtime: self.mtime,
        }
    }
}

impl Meta {
    pub fn fname(&self) -> (r: String)
        ensures
            r == self.fname,
    {
        self.fname.clone()
    }

    pub fn paths(&self) -> (r: String)
        ensures
            r == self.paths,
    {
        self.paths.clone()
    }

    pub fn ctime(&self) -> (r: i64)
        ensures
            r == self.ctime,
    {
        self.ctime
    }

    pub fn mtime(&self) -> (r: i64)
        ensures
            r == self.mtime,
    {
        self.mtime
    }
}

/// One content blob, referenced by a record whose `indexs` equals `index`.
#[derive(Debug)]
pub struct ContentBlob {
    pub index: i32,
    pub content: String,
}

impl Clone for ContentBlob {
    fn clone(&self) -> (r: Self)
        ensures
            r == *self,
    {
        ContentBlob { index: self.index, content: self.content.clone() }
    }
}

/// The id of the newest record, or 0 when the store is empty; ids grow
/// strictly, so this is the largest id in use.
pub open spec fn max_id(m: Seq<Meta>) -> int {
    if m.len() == 0 {
        0
    } else {
        m.last().id as int
    }
}

/// The record an upload of `f` appends, under the freshly assigned `id`.
pub open spec fn upload_meta(f: Pfile, id: i32) -> Meta {
    Meta {
        id,
        fname: f.states.name,
        indexs: id,
        paths: f.states.path,
        states: FileAction::Upload,
        ctime: f.states.ctime,
        mtime: f.states.mtime,
    }
}

/// The blob an upload of `f` appends, under the freshly assigned `id`.
pub open spec fn upload_blob(f: Pfile, id: i32) -> ContentBlob {
    ContentBlob { index: id, content: f.content }
}

/// The metadata table after appending `files`, each under the next id.
pub open spec fn appended_meta(m: Seq<Meta>, files: Seq<Pfile>) -> Seq<Meta> {
    m + Seq::new(files.len(), |i: int| upload_meta(files[i], (max_id(m) + 1 + i) as i32))
}

/// The content table after appending `files`, `base` being the largest id in
/// use before the call.
pub open spec fn appended_content(c: Seq<ContentBlob>, base: int, files: Seq<Pfile>) -> Seq<
    ContentBlob,
> {
    c + Seq::new(files.len(), |i: int| upload_blob(files[i], (base + 1 + i) as i32))
}

/// The position of the most recent (largest-id, hence last) record named
/// `name`, or -1 when no record has that name.
pub open spec fn latest_idx(m: Seq<Meta>, name: Seq<char>) -> int
    decreases m.len(),
{
    if m.len() == 0 {
        -1
    } else if m.last().fname@ == name {
        m.len() - 1
    } else {
        latest_idx(m.drop_last(), name)
    }
}

/// The set of all names the metadata table mentions.
pub open spec fn name_set(m: Seq<Meta>) -> Set<Seq<char>> {
    Set::new(|n: Seq<char>| exists|i: int| 0 <= i < m.len() && m[i].fname@ == n)
}

/// `m` with its action replaced: the one in-place mutation the store performs.
pub open spec fn with_states(m: Meta, act: FileAction) -> Meta {
    Meta { states: act, ..m }
}

/// The table after marking the most recent record named `name` with `act`;
/// unchanged when no record has that name.
pub open spec fn mark_one(m: Seq<Meta>, name: Seq<char>, act: FileAction) -> Seq<Meta> {
    let i = latest_idx(m, name);
    if i >= 0 {
        m.update(i, with_states(m[i], act))
    } else {
        m
    }
}

/// The table after applying each envelope's action to its name, in order.
pub open spec fn mark_all(m: Seq<Meta>, envs: Seq<MetaInner>) -> Seq<Meta>
    decreases envs.len(),
{
    if envs.len() == 0 {
        m
    } else {
        mark_one(
            mark_all(m, envs.drop_last()),
            envs.last().fileinfo.name@,
            envs.last().action,
        )
    }
}

/// The position of the last blob with the given content index, or -1.
pub open spec fn blob_idx(c: Seq<ContentBlob>, index: i32) -> int
    decreases c.len(),
{
    if c.len() == 0 {
        -1
    } else if c.last().index == index {
        c.len() - 1
    } else {
        blob_idx(c.drop_last(), index)
    }
}

/// What a download of `name` hands back: the most recent record folded with
/// its blob, or nothing when the name is unknown or its blob is missing.
pub open spec fn retrieved_file(m: Seq<Meta>, c: Seq<ContentBlob>, name: Seq<char>) -> Option<
    Pfile,
> {
    let i = latest_idx(m, name);
    if i >= 0 {
        let b = blob_idx(c, m[i].indexs);
        if b >= 0 {
            Some(
                Pfile {
                    states: FileInfo {
                        name: m[i].fname,
                        path: m[i].paths,
                        mtime: m[i].mtime,
                        ctime: m[i].ctime,
                    },
                    content: c[b].content,
                },
            )
        } else {
            None
        }
    } else {
        None
    }
}

/// Well-formedness of the two tables: one blob per record, `indexs` equal to
/// `id` by convention, ids positive and strictly increasing (the append-only
/// log order), and no record carrying the request-only `Absent` action.
pub open spec fn store_wf(m: Seq<Meta>, c: Seq<ContentBlob>) -> bool {
    &&& c.len() == m.len()
    &&& forall|i: int|
        0 <= i < m.len() ==> {
            &&& (#[trigger] m[i]).indexs == m[i].id
            &&& m[i].id >= 1
            &&& m[i].states != FileAction::Absent
        }
    &&& forall|i: int| 0 <= i < m.len() ==> (#[trigger] c[i]).index == m[i].id
    &&& forall|i: int, j: int|
        0 <= i < j < m.len() ==> (#[trigger] m[i]).id < (#[trigger] m[j]).id
}

/// Every id in a well-ordered table is at most `max_id`, which is never
/// negative.
pub proof fn lemma_max_id(m: Seq<Meta>, c: Seq<ContentBlob>)
    requires
        store_wf(m, c),
    ensures
        max_id(m) >= 0,
        forall|i: int| 0 <= i < m.len() ==> (#[trigger] m[i]).id <= max_id(m),
{
    if m.len() > 0 {
        assert forall|i: int| 0 <= i < m.len() implies (#[trigger] m[i]).id <= max_id(m) by {
            if i < m.len() - 1 {
                assert(m[i].id < m[m.len() - 1].id);
            }
        }
    }
}

/// Where the latest index points, and that it is the last occurrence.
pub proof fn lemma_latest_idx(m: Seq<Meta>, name: Seq<char>)
    ensures
        -1 <= latest_idx(m, name) < m.len(),
        latest_idx(m, name) >= 0 ==> m[latest_idx(m, name)].fname@ == name,
        forall|j: int|
            latest_idx(m, name) < j < m.len() ==> (#[trigger] m[j]).fname@ != name,
        (latest_idx(m, name) == -1) <==> !name_set(m).contains(name),
    decreases m.len(),
{
    if m.len() > 0 && m.last().fname@ != name {
        lemma_latest_idx(m.drop_last(), name);
        assert forall|j: int|
            latest_idx(m, name) < j < m.len() implies (#[trigger] m[j]).fname@ != name by {
            if j < m.len() - 1 {
                assert(m.drop_last()[j] == m[j]);
            }
        }
        if latest_idx(m, name) >= 0 {
            assert(m.drop_last()[latest_idx(m, name)] == m[latest_idx(m, name)]);
        }
        if latest_idx(m, name) == -1 {
            assert forall|i: int| 0 <= i < m.len() implies (#[trigger] m[i]).fname@ != name by {
                if i < m.len() - 1 {
                    assert(m.drop_last()[i] == m[i]);
                }
            }
        }
    }
}

/// Where the blob index points, and that it is the last occurrence.
pub proof fn lemma_blob_idx(c: Seq<ContentBlob>, index: i32)
    ensures
        -1 <= blob_idx(c, index) < c.len(),
        blob_idx(c, index) >= 0 ==> c[blob_idx(c, index)].index == index,
        (blob_idx(c, index) == -1) <==> (forall|j: int|
            0 <= j < c.len() ==> (#[trigger] c[j]).index != index),
    decreases c.len(),
{
    if c.len() > 0 && c.last().index != index {
        lemma_blob_idx(c.drop_last(), index);
        if blob_idx(c, index) >= 0 {
            assert(c.drop_last()[blob_idx(c, index)] == c[blob_idx(c, index)]);
        }
        if blob_idx(c, index) == -1 {
            assert forall|j: int| 0 <= j < c.len() implies (#[trigger] c[j]).index != index by {
                if j < c.len() - 1 {
                    assert(c.drop_last()[j] == c[j]);
                }
            }
        }
    }
}

/// Marking changes no field but the action, and no record but the latest of
/// the marked name.
pub proof fn lemma_mark_one_shape(m: Seq<Meta>, name: Seq<char>, act: FileAction)
    ensures
        mark_one(m, name, act).len() == m.len(),
        forall|i: int|
            0 <= i < m.len() ==> {
                let r = #[trigger] mark_one(m, name, act)[i];
                &&& r.id == m[i].id
                &&& r.fname == m[i].fname
                &&& r.indexs == m[i].indexs
                &&& r.paths == m[i].paths
                &&& r.ctime == m[i].ctime
                &&& r.mtime == m[i].mtime
            },
        forall|i: int|
            0 <= i < m.len() && i != latest_idx(m, name) ==> (#[trigger] mark_one(
                m,
                name,
                act,
            )[i]).states == m[i].states,
        latest_idx(m, name) >= 0 ==> mark_one(m, name, act)[latest_idx(m, name)].states == act,
{
    lemma_latest_idx(m, name);
}

/// Two tables with the same names at the same places agree on every latest
/// index.
pub proof fn lemma_latest_idx_same_names(a: Seq<Meta>, b: Seq<Meta>, name: Seq<char>)
    requires
        a.len() == b.len(),
        forall|i: int| 0 <= i < a.len() ==> (#[trigger] a[i]).fname@ == b[i].fname@,
    ensures
        latest_idx(a, name) == latest_idx(b, name),
    decreases a.len(),
{
    if a.len() > 0 {
        assert(a.last().fname@ == b.last().fname@);
        if a.last().fname@ != name {
            assert forall|i: int|
                0 <= i < a.drop_last().len() implies (#[trigger] a.drop_last()[i]).fname@
                == b.drop_last()[i].fname@ by {
                assert(a.drop_last()[i] == a[i]);
                assert(b.drop_last()[i] == b[i]);
            }
            lemma_latest_idx_same_names(a.drop_last(), b.drop_last(), name);
        }
    }
}

/// Marking a batch preserves every field but the actions.
pub proof fn lemma_mark_all_shape(m: Seq<Meta>, envs: Seq<MetaInner>)
    ensures
        mark_all(m, envs).len() == m.len(),
        forall|i: int|
            0 <= i < m.len() ==> {
                let r = #[trigger] mark_all(m, envs)[i];
                &&& r.id == m[i].id
                &&& r.fname == m[i].fname
                &&& r.indexs == m[i].indexs
                &&& r.paths == m[i].paths
                &&& r.ctime == m[i].ctime
                &&& r.mtime == m[i].mtime
            },
    decreases envs.len(),
{
    if envs.len() > 0 {
        lemma_mark_all_shape(m, envs.drop_last());
        lemma_mark_one_shape(
            mark_all(m, envs.drop_last()),
            envs.last().fileinfo.name@,
            envs.last().action,
        );
    }
}

/// After marking a batch of deletes that names `name` — a name the table
/// holds — the latest record of that name is a tombstone, and it stays the
/// latest.
pub proof fn lemma_mark_all_delete(m: Seq<Meta>, envs: Seq<MetaInner>, name: Seq<char>)
    requires
        forall|k: int| 0 <= k < envs.len() ==> (#[trigger] envs[k]).action == FileAction::Delete,
        exists|k: int| 0 <= k < envs.len() && (#[trigger] envs[k]).fileinfo.name@ == name,
        name_set(m).contains(name),
    ensures
        ({
            let m2 = mark_all(m, envs);
            &&& latest_idx(m2, name) == latest_idx(m, name)
            &&& latest_idx(m2, name) >= 0
            &&& m2[latest_idx(m2, name)].states == FileAction::Delete
        }),
    decreases envs.len(),
{
    lemma_latest_idx(m, name);
    let kw = choose|k: int| 0 <= k < envs.len() && (#[trigger] envs[k]).fileinfo.name@ == name;
    let mprev = mark_all(m, envs.drop_last());
    let last = envs.last();
    let m2 = mark_all(m, envs);
    lemma_mark_all_shape(m, envs.drop_last());
    lemma_mark_all_shape(m, envs);
    assert forall|i: int|
        0 <= i < mprev.len() implies (#[trigger] mprev[i]).fname@ == m[i].fname@ by {}
    assert forall|i: int|
        0 <= i < m2.len() implies (#[trigger] m2[i]).fname@ == m[i].fname@ by {}
    lemma_latest_idx_same_names(mprev, m, name);
    lemma_latest_idx_same_names(m2, m, name);
    let el = latest_idx(mprev, last.fileinfo.name@);
    lemma_latest_idx(mprev, last.fileinfo.name@);
    lemma_mark_one_shape(mprev, last.fileinfo.name@, last.action);
    let li = latest_idx(m, name);
    if last.fileinfo.name@ == name {
        assert(el == li);
        assert(m2[li].states == FileAction::Delete);
    } else {
        assert(kw < envs.len() - 1);
        assert(envs.drop_last()[kw] == envs[kw]);
        assert forall|k: int|
            0 <= k < envs.drop_last().len() implies (#[trigger] envs.drop_last()[k]).action
            == FileAction::Delete by {
            assert(envs.drop_last()[k] == envs[k]);
        }
        lemma_mark_all_delete(m, envs.drop_last(), name);
        assert(mprev[li].states == FileAction::Delete);
        if el >= 0 {
            assert(mprev[el].fname@ == last.fileinfo.name@);
            assert(mprev[li].fname@ == name);
            assert(el != li);
        }
        assert(m2[li].states == mprev[li].states);
    }
}

/// The per-user content store, as two parallel append-only tables.
pub struct Db {
    pub meta: Vec<Meta>,
    pub content: Vec<ContentBlob>,
}

/// Find the most recent record named `name`: the last matching position.
pub(crate) fn find_latest(meta: &Vec<Meta>, name: &String) -> (r: Option<usize>)
    ensures
        match r {
            Some(i) => latest_idx(meta@, name@) == i,
            None => latest_idx(meta@, name@) == -1,
        },
{
    let mut found: Option<usize> = None;
    let mut j: usize = 0;
    while j < meta.len()
        invariant
            j <= meta@.len(),
            match found {
                Some(i) => latest_idx(meta@.take(j as int), name@) == i,
                None => latest_idx(meta@.take(j as int), name@) == -1,
            },
        decreases meta@.len() - j,
    {
        proof {
            assert(meta@.take(j as int + 1).drop_last() =~= meta@.take(j as int));
            assert(meta@.take(j as int + 1).last() == meta@[j as int]);
        }
        if meta[j].fname == *name {
            found = Some(j);
        }
        j += 1;
    }
    proof {
        assert(meta@.take(meta@.len() as int) =~= meta@);
    }
    found
}

/// Find the last blob with the given content index.
fn find_blob(content: &Vec<ContentBlob>, index: i32) -> (r: Option<usize>)
    ensures
        match r {
            Some(i) => blob_idx(content@, index) == i,
            None => blob_idx(content@, index) == -1,
        },
{
    let mut found: Option<usize> = None;
    let mut j: usize = 0;
    while j < content.len()
        invariant
            j <= content@.len(),
            match found {
                Some(i) => blob_idx(content@.take(j as int), index) == i,
                None => blob_idx(content@.take(j as int), index) == -1,
            },
        decreases content@.len() - j,
    {
        proof {
            assert(content@.take(j as int + 1).drop_last() =~= content@.take(j as int));
            assert(content@.take(j as int + 1).last() == content@[j as int]);
        }
        if content[j].index == index {
            found = Some(j);
        }
        j += 1;
    }
    proof {
        assert(content@.take(content@.len() as int) =~= content@);
    }
    found
}

impl Db {
    pub open spec fn wf(self) -> bool {
        store_wf(self.meta@, self.content@)
    }

    /// An empty store with its schema in place.
    pub fn new() -> (r: Self)
        ensures
            r.meta@ =~= Seq::<Meta>::empty(),
            r.content@ =~= Seq::<ContentBlob>::empty(),
            r.wf(),
    {
        Db { meta: Vec::new(), content: Vec::new() }
    }

    /// All records, in log order; nothing when the table is empty.
    pub fn get_meta_records(&self) -> (r: Option<Vec<Meta>>)
        ensures
            match r {
                None => self.meta@.len() == 0,
                Some(v) => v@ == self.meta@ && v@.len() > 0,
            },
    {
        if self.meta.len() == 0 {
            return None;
        }
        let mut v: Vec<Meta> = Vec::new();
        let mut i: usize = 0;
        while i < self.meta.len()
            invariant
                i <= self.meta@.len(),
                v@ =~= self.meta@.take(i as int),
            decreases self.meta@.len() - i,
        {
            v.push(self.meta[i].clone());
            i += 1;
        }
        proof {
            assert(self.meta@.take(self.meta@.len() as int) =~= self.meta@);
        }
        Some(v)
    }

    /// Append one record and one blob per file, each under the next id:
    /// strictly increasing across the call, never reusing an id. Re-uploading
    /// an existing name appends a new row rather than replacing the old one.
    /// Fails only when the id space cannot take the batch.
    pub fn store_files(&mut self, req: UploadRequest) -> (r: Result<(), ApplicationError>)
        requires
            old(self).wf(),
        ensures
            final(self).wf(),
            (r is Ok) <==> max_id(old(self).meta@) + req.files@.len() <= i32::MAX,
            r is Ok ==> final(self).meta@ == appended_meta(old(self).meta@, req.files@)
                && final(self).content@ == appended_content(
                old(self).content@,
                max_id(old(self).meta@),
                req.files@,
            ),
            !(r is Ok) ==> *final(self) == *old(self) && (r matches Err(
                ApplicationError::Storage(_),
            )),
    {
        proof {
            lemma_max_id(self.meta@, self.content@);
        }
        let mut last_id: i32 = if self.meta.len() == 0 {
            0
        } else {
            self.meta[self.meta.len() - 1].id
        };
        let ghost base: int = last_id as int;
        if req.files.len() > (i32::MAX - last_id) as usize {
            return Err(
                ApplicationError::Storage(String::from_str("id space exhausted")),
            );
        }
        let ghost m0 = self.meta@;
        let ghost c0 = self.content@;
        let mut i: usize = 0;
        while i < req.files.len()
            invariant
                i <= req.files@.len(),
                store_wf(m0, c0),
                base == max_id(m0),
                base + req.files@.len() <= i32::MAX,
                last_id == base + i,
                self.meta@ =~= appended_meta(m0, req.files@.take(i as int)),
                self.content@ =~= appended_content(c0, base, req.files@.take(i as int)),
            decreases req.files@.len() - i,
        {
            let new_id = last_id + 1;
            let f = &req.files[i];
            self.meta.push(
                Meta {
                    id: new_id,
                    fname: f.states.name.clone(),
                    indexs: new_id,
                    paths: f.states.path.clone(),
                    states: FileAction::Upload,
                    ctime: f.states.ctime,
                    mtime: f.states.mtime,
                },
            );
            self.content.push(ContentBlob { index: new_id, content: f.content.clone() });
            last_id = new_id;
            proof {
                assert(self.meta@ =~= appended_meta(m0, req.files@.take(i as int + 1)));
                assert(self.content@ =~= appended_content(
                    c0,
                    base,
                    req.files@.take(i as int + 1),
                ));
            }
            i += 1;
        }
        proof {
            assert(req.files@.take(req.files@.len() as int) =~= req.files@);
            lemma_max_id(m0, c0);
            assert(store_wf(self.meta@, self.content@));
        }
        Ok(())
    }

    /// Apply each envelope's action — `Delete` or `Modify`, the only two the
    /// reconciliation writes — to the most recent record of its name, in
    /// order; an unknown name changes nothing.
    pub fn update_meta_states(&mut self, meta_vec: &Vec<MetaInner>) -> (r: Result<
        (),
        ApplicationError,
    >)
        requires
            old(self).wf(),
            forall|k: int|
                0 <= k < meta_vec@.len() ==> ((#[trigger] meta_vec@[k]).action
                    == FileAction::Delete || meta_vec@[k].action == FileAction::Modify),
        ensures
            final(self).wf(),
            r is Ok,
            final(self).meta@ == mark_all(old(self).meta@, meta_vec@),
            final(self).content@ == old(self).content@,
    {
        let ghost m0 = self.meta@;
        let ghost c0 = self.content@;
        let mut k: usize = 0;
        while k < meta_vec.len()
            invariant
                k <= meta_vec@.len(),
                self.content@ == c0,
                store_wf(m0, self.content@),
                forall|t: int|
                    0 <= t < meta_vec@.len() ==> ((#[trigger] meta_vec@[t]).action
                        == FileAction::Delete || meta_vec@[t].action == FileAction::Modify),
                self.meta@ =~= mark_all(m0, meta_vec@.take(k as int)),
                store_wf(self.meta@, self.content@),
            decreases meta_vec@.len() - k,
        {
            let env = &meta_vec[k];
            let found = find_latest(&self.meta, &env.fileinfo.name);
            let ghost before = self.meta@;
            proof {
                lemma_latest_idx(before, env.fileinfo.name@);
            }
            match found {
                Some(i) => {
                    self.meta[i].states = env.action;
                    proof {
                        assert(self.meta@ =~= mark_one(
                            before,
                            env.fileinfo.name@,
                            env.action,
                        ));
                    }
                },
                None => {
                    proof {
                        assert(self.meta@ =~= mark_one(
                            before,
                            env.fileinfo.name@,
                            env.action,
                        ));
                    }
                },
            }
            proof {
                assert(meta_vec@.take(k as int + 1).drop_last() =~= meta_vec@.take(k as int));
                assert(meta_vec@.take(k as int + 1).last() == meta_vec@[k as int]);
                assert(self.meta@ =~= mark_all(m0, meta_vec@.take(k as int + 1)));
                assert(store_wf(self.meta@, self.content@));
            }
            k += 1;
        }
        proof {
            assert(meta_vec@.take(meta_vec@.len() as int) =~= meta_vec@);
        }
        Ok(())
    }

    /// For each requested name, the most recent record folded with its blob.
    /// Succeeds exactly when every name resolves; otherwise reports the first
    /// name that does not.
    pub fn retrieve_files(&self, req: DownloadRequest) -> (r: Result<
        DownloadResponse,
        ApplicationError,
    >)
        ensures
            (r is Ok) <==> (forall|k: int|
                0 <= k < req.filenames@.len() ==> retrieved_file(
                    self.meta@,
                    self.content@,
                    (#[trigger] req.filenames@[k])@,
                ) is Some),
            r matches Ok(resp) ==> resp.files@.len() == req.filenames@.len() && (forall|k: int|
                0 <= k < req.filenames@.len() ==> retrieved_file(
                    self.meta@,
                    self.content@,
                    (#[trigger] req.filenames@[k])@,
                ) == Some(resp.files@[k])),
            r matches Err(e) ==> exists|k: int|
                0 <= k < req.filenames@.len() && retrieved_file(
                    self.meta@,
                    self.content@,
                    (#[trigger] req.filenames@[k])@,
                ) is None && (e matches ApplicationError::NotFound(n) && n@ == req.filenames@[k]@),
    {
        let mut files: Vec<Pfile> = Vec::new();
        let mut k: usize = 0;
        while k < req.filenames.len()
            invariant
                k <= req.filenames@.len(),
                files@.len() == k,
                forall|j: int|
                    0 <= j < k ==> retrieved_file(
                        self.meta@,
                        self.content@,
                        (#[trigger] req.filenames@[j])@,
                    ) == Some(files@[j]),
            decreases req.filenames@.len() - k,
        {
            let fname = &req.filenames[k];
            let found = find_latest(&self.meta, fname);
            proof {
                lemma_latest_idx(self.meta@, fname@);
            }
            match found {
                Some(i) => {
                    let rec = &self.meta[i];
                    proof {
                        lemma_blob_idx(self.content@, rec.indexs);
                    }
                    match find_blob(&self.content, rec.indexs) {
                        Some(b) => {
                            files.push(
                                Pfile {
                                    states: FileInfo {
                                        name: rec.fname.clone(),
                                        path: rec.paths.clone(),
                                        mtime: rec.mtime,
                                        ctime: rec.ctime,
                                    },
                                    content: self.content[b].content.clone(),
                                },
                            );
                        },
                        None => {
                            return Err(ApplicationError::NotFound(fname.clone()));
                        },
                    }
                },
                None => {
                    return Err(ApplicationError::NotFound(fname.clone()));
                },
            }
            k += 1;
        }
        Ok(DownloadResponse { files })
    }
}

/// The handle the protocol layer holds on one user's store.
pub struct DbManager {
    pub db: Db,
}

impl DbManager {
    pub open spec fn wf(self) -> bool {
        self.db.wf()
    }

    /// A manager over a fresh, empty store.
    pub fn new() -> (r: Self)
        ensures
            r.db.meta@ =~= Seq::<Meta>::empty(),
            r.db.content@ =~= Seq::<ContentBlob>::empty(),
            r.wf(),
    {
        DbManager { db: Db::new() }
    }

    /// All records of the meta table, or nothing when it is empty.
    pub fn get_meta(&self) -> (r: Option<Vec<Meta>>)
        ensures
            match r {
                None => self.db.meta@.len() == 0,
                Some(v) => v@ == self.db.meta@ && v@.len() > 0,
            },
    {
        self.db.get_meta_records()
    }

    /// Apply the envelopes' Delete/Modify marks to the meta table.
    pub fn update_stetes(&mut self, meta: &Vec<MetaInner>) -> (r: Result<(), ApplicationError>)
        requires
            old(self).wf(),
            forall|k: int|
                0 <= k < meta@.len() ==> ((#[trigger] meta@[k]).action == FileAction::Delete
                    || meta@[k].action == FileAction::Modify),
        ensures
            final(self).wf(),
            r is Ok,
            final(self).db.meta@ == mark_all(old(self).db.meta@, meta@),
            final(self).db.content@ == old(self).db.content@,
    {
        self.db.update_meta_states(meta)
    }

    /// Resolve each requested name against the store.
    pub fn download(&self, req: DownloadRequest) -> (r: Result<
        DownloadResponse,
        ApplicationError,
    >)
        ensures
            (r is Ok) <==> (forall|k: int|
                0 <= k < req.filenames@.len() ==> retrieved_file(
                    self.db.meta@,
                    self.db.content@,
                    (#[trigger] req.filenames@[k])@,
                ) is Some),
            r matches Ok(resp) ==> resp.files@.len() == req.filenames@.len() && (forall|k: int|
                0 <= k < req.filenames@.len() ==> retrieved_file(
                    self.db.meta@,
                    self.db.content@,
                    (#[trigger] req.filenames@[k])@,
                ) == Some(resp.files@[k])),
            r matches Err(e) ==> exists|k: int|
                0 <= k < req.filenames@.len() && retrieved_file(
                    self.db.meta@,
                    self.db.content@,
                    (#[trigger] req.filenames@[k])@,
                ) is None && (e matches ApplicationError::NotFound(n) && n@
                    == req.filenames@[k]@),
    {
        self.db.retrieve_files(req)
    }

    /// Append the uploaded files to the store.
    pub fn upload(&mut self, req: UploadRequest) -> (r: Result<(), ApplicationError>)
        requires
            old(self).wf(),
        ensures
            final(self).wf(),
            (r is Ok) <==> max_id(old(self).db.meta@) + req.files@.len() <= i32::MAX,
            r is Ok ==> final(self).db.meta@ == appended_meta(old(self).db.meta@, req.files@)
                && final(self).db.content@ == appended_content(
                old(self).db.content@,
                max_id(old(self).db.meta@),
                req.files@,
            ),
            !(r is Ok) ==> *final(self) == *old(self) && (r matches Err(
                ApplicationError::Storage(_),
            )),
    {
        self.db.store_files(req)
    }
}

} // verus!
