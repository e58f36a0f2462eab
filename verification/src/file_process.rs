//! The reconciliation engine: given the client's declared deltas and the
//! server's metadata, compute the outbound directives each side must apply.
//!
//! The inbound deltas are first de-duplicated by value equality (clients may
//! resend identical envelopes; the first occurrence wins). Explicit deltas
//! (action other than `Absent`) are handled directly: deletes for names the
//! server knows are persisted and acknowledged, uploads and modifies are
//! echoed back. The implicit deltas (action `Absent`) are classified by set
//! membership between the server's names and the client's names, folding the
//! server's append-only log to the latest record per name.

use crate::db::{latest_idx, mark_all, name_set, DbManager, Meta};
use crate::protocol::{mi_eq, mi_of_meta, FileAction, MetaInner, MetaRequest, MetaResponse};
use vstd::prelude::*;

verus! {

/// Whether some envelope in `s` equals `x` by value.
pub open spec fn contains_env(s: Seq<MetaInner>, x: MetaInner) -> bool {
    exists|i: int| 0 <= i < s.len() && mi_eq(s[i], x)
}

/// `s` with every envelope that repeats an earlier one (by value) dropped.
pub open spec fn dedup_envs(s: Seq<MetaInner>) -> Seq<MetaInner>
    decreases s.len(),
{
    if s.len() == 0 {
        Seq::empty()
    } else {
        let front = dedup_envs(s.drop_last());
        if contains_env(s.drop_last(), s.last()) {
            front
        } else {
            front.push(s.last())
        }
    }
}

/// The envelopes of `s` whose action is `act`, in order.
pub open spec fn filter_action(s: Seq<MetaInner>, act: FileAction) -> Seq<MetaInner>
    decreases s.len(),
{
    if s.len() == 0 {
        Seq::empty()
    } else {
        let front = filter_action(s.drop_last(), act);
        if s.last().action == act {
            front.push(s.last())
        } else {
            front
        }
    }
}

/// The delete envelopes whose name the server knows: only those are
/// persisted; a delete for an unknown name has nothing to delete.
pub open spec fn valid_deletes(deletes: Seq<MetaInner>, snames: Set<Seq<char>>) -> Seq<MetaInner>
    decreases deletes.len(),
{
    if deletes.len() == 0 {
        Seq::empty()
    } else {
        let front = valid_deletes(deletes.drop_last(), snames);
        if snames.contains(deletes.last().fileinfo.name@) {
            front.push(deletes.last())
        } else {
            front
        }
    }
}

/// The set of names the envelopes mention.
pub open spec fn env_names(s: Seq<MetaInner>) -> Set<Seq<char>> {
    Set::new(|n: Seq<char>| exists|i: int| 0 <= i < s.len() && s[i].fileinfo.name@ == n)
}

/// Upload directives for the client-only names: one per implicit envelope
/// whose name the server has never seen.
pub open spec fn upload_envs(implicit: Seq<MetaInner>, snames: Set<Seq<char>>) -> Seq<MetaInner>
    decreases implicit.len(),
{
    if implicit.len() == 0 {
        Seq::empty()
    } else {
        let front = upload_envs(implicit.drop_last(), snames);
        if !snames.contains(implicit.last().fileinfo.name@) {
            front.push(MetaInner { action: FileAction::Upload, fileinfo: implicit.last().fileinfo })
        } else {
            front
        }
    }
}

/// Which latest records emit a directive of kind `act`, `cnames` being the
/// client's implicit names: a name both sides hold is told `Delete` when the
/// server already considers it gone and `Modify` otherwise; a live name only
/// the server holds is told `Download`; a tombstone only the server holds
/// emits nothing.
pub open spec fn server_env_cond(m: Meta, cnames: Set<Seq<char>>, act: FileAction) -> bool {
    match act {
        FileAction::Delete => cnames.contains(m.fname@) && m.states == FileAction::Delete,
        FileAction::Modify => cnames.contains(m.fname@) && m.states != FileAction::Delete,
        FileAction::Download => !cnames.contains(m.fname@) && m.states != FileAction::Delete,
        _ => false,
    }
}

/// The directives of kind `act` the first `k` records emit: one per record
/// that is the latest of its name and meets the condition above.
pub open spec fn server_envs_upto(
    m: Seq<Meta>,
    k: int,
    cnames: Set<Seq<char>>,
    act: FileAction,
) -> Seq<MetaInner>
    decreases k,
{
    if k <= 0 {
        Seq::empty()
    } else {
        let front = server_envs_upto(m, k - 1, cnames, act);
        if latest_idx(m, m[k - 1].fname@) == k - 1 && server_env_cond(m[k - 1], cnames, act) {
            front.push(mi_of_meta(act, m[k - 1]))
        } else {
            front
        }
    }
}

/// The directives of kind `act` the whole table emits.
pub open spec fn server_envs(m: Seq<Meta>, cnames: Set<Seq<char>>, act: FileAction) -> Seq<
    MetaInner,
> {
    server_envs_upto(m, m.len() as int, cnames, act)
}

/// The deletes one Meta call persists: the de-duplicated explicit deletes
/// whose name the server knows.
pub open spec fn reconcile_deletes(states: Seq<MetaInner>, m: Seq<Meta>) -> Seq<MetaInner> {
    valid_deletes(filter_action(dedup_envs(states), FileAction::Delete), name_set(m))
}

/// The server's metadata after one Meta call: each persisted delete marks the
/// latest record of its name.
pub open spec fn reconcile_meta(states: Seq<MetaInner>, m: Seq<Meta>) -> Seq<Meta> {
    mark_all(m, reconcile_deletes(states, m))
}

/// The outbound directive set of one Meta call: the persisted-delete
/// acknowledgements, the uploads for client-only names, the explicit echoes,
/// and the three server-side groups, concatenated in that order and then
/// de-duplicated by the same value-equality rule as the inbound deltas (the
/// groups are not disjoint; the first occurrence wins).
pub open spec fn reconcile_out(states: Seq<MetaInner>, m: Seq<Meta>) -> Seq<MetaInner> {
    let dd = dedup_envs(states);
    let valid_delete = valid_deletes(filter_action(dd, FileAction::Delete), name_set(m));
    let upload0 = filter_action(dd, FileAction::Upload);
    let modify0 = filter_action(dd, FileAction::Modify);
    let implicit = filter_action(dd, FileAction::Absent);
    let m2 = mark_all(m, valid_delete);
    let snames = name_set(m2);
    let cnames = env_names(implicit);
    let upload = upload_envs(implicit, snames);
    let delete = server_envs(m2, cnames, FileAction::Delete);
    let modify = server_envs(m2, cnames, FileAction::Modify);
    let download = server_envs(m2, cnames, FileAction::Download);
    dedup_envs(valid_delete + upload + upload0 + modify0 + delete + modify + download)
}

/// Every envelope a filter keeps carries the filtered action.
pub proof fn lemma_filter_action_all(s: Seq<MetaInner>, act: FileAction)
    ensures
        forall|i: int|
            0 <= i < filter_action(s, act).len() ==> (#[trigger] filter_action(s, act)[i]).action
                == act,
    decreases s.len(),
{
    if s.len() > 0 {
        lemma_filter_action_all(s.drop_last(), act);
    }
}

/// Every envelope `valid_deletes` keeps comes from its input.
pub proof fn lemma_valid_deletes_sub(deletes: Seq<MetaInner>, snames: Set<Seq<char>>)
    ensures
        forall|i: int|
            0 <= i < valid_deletes(deletes, snames).len() ==> exists|j: int|
                0 <= j < deletes.len() && (#[trigger] valid_deletes(deletes, snames)[i])
                    == deletes[j],
    decreases deletes.len(),
{
    if deletes.len() > 0 {
        lemma_valid_deletes_sub(deletes.drop_last(), snames);
        assert forall|i: int|
            0 <= i < valid_deletes(deletes, snames).len() implies exists|j: int|
            0 <= j < deletes.len() && (#[trigger] valid_deletes(deletes, snames)[i])
                == deletes[j] by {
            let front = valid_deletes(deletes.drop_last(), snames);
            if i < front.len() {
                let j = choose|j: int|
                    0 <= j < deletes.drop_last().len() && front[i] == deletes.drop_last()[j];
                assert(deletes.drop_last()[j] == deletes[j]);
            } else {
                assert(valid_deletes(deletes, snames)[i] == deletes[deletes.len() - 1]);
            }
        }
    }
}

/// Every envelope the de-duplication keeps is one of the input's.
pub proof fn lemma_dedup_sub(s: Seq<MetaInner>)
    ensures
        forall|i: int|
            0 <= i < dedup_envs(s).len() ==> exists|j: int|
                0 <= j < s.len() && (#[trigger] dedup_envs(s)[i]) == s[j],
    decreases s.len(),
{
    if s.len() > 0 {
        lemma_dedup_sub(s.drop_last());
        assert forall|i: int|
            0 <= i < dedup_envs(s).len() implies exists|j: int|
            0 <= j < s.len() && (#[trigger] dedup_envs(s)[i]) == s[j] by {
            let front = dedup_envs(s.drop_last());
            if i < front.len() {
                let j = choose|j: int|
                    0 <= j < s.drop_last().len() && front[i] == s.drop_last()[j];
                assert(s.drop_last()[j] == s[j]);
            } else {
                assert(dedup_envs(s)[i] == s[s.len() - 1]);
            }
        }
    }
}

/// De-duplication keeps exactly the values the input holds.
pub proof fn lemma_dedup_contains(s: Seq<MetaInner>, x: MetaInner)
    ensures
        contains_env(dedup_envs(s), x) <==> contains_env(s, x),
    decreases s.len(),
{
    if s.len() > 0 {
        lemma_dedup_contains(s.drop_last(), x);
        let front = dedup_envs(s.drop_last());
        if contains_env(s.drop_last(), s.last()) {
            // the repeated last element is dropped
            if contains_env(s, x) {
                let i = choose|i: int| 0 <= i < s.len() && mi_eq(s[i], x);
                if i == s.len() - 1 {
                    // x equals the last element, which equals an earlier one
                    let j = choose|j: int|
                        0 <= j < s.drop_last().len() && mi_eq(s.drop_last()[j], s.last());
                    assert(s.drop_last()[j] == s[j]);
                    assert(mi_eq(s[j], x));
                    assert(contains_env(s.drop_last(), x));
                } else {
                    assert(s.drop_last()[i] == s[i]);
                    assert(contains_env(s.drop_last(), x));
                }
            }
            if contains_env(s.drop_last(), x) {
                let i = choose|i: int| 0 <= i < s.drop_last().len() && mi_eq(s.drop_last()[i], x);
                assert(s.drop_last()[i] == s[i]);
                assert(contains_env(s, x));
            }
        } else {
            // the last element is kept
            if contains_env(s, x) {
                let i = choose|i: int| 0 <= i < s.len() && mi_eq(s[i], x);
                if i == s.len() - 1 {
                    assert(dedup_envs(s).last() == s.last());
                    assert(mi_eq(dedup_envs(s)[dedup_envs(s).len() - 1], x));
                    assert(contains_env(dedup_envs(s), x));
                } else {
                    assert(s.drop_last()[i] == s[i]);
                    assert(contains_env(s.drop_last(), x));
                    let k = choose|k: int| 0 <= k < front.len() && mi_eq(front[k], x);
                    assert(dedup_envs(s)[k] == front[k]);
                    assert(contains_env(dedup_envs(s), x));
                }
            }
            if contains_env(dedup_envs(s), x) {
                let k = choose|k: int| 0 <= k < dedup_envs(s).len() && mi_eq(dedup_envs(s)[k], x);
                if k < front.len() {
                    assert(dedup_envs(s)[k] == front[k]);
                    assert(contains_env(front, x));
                    let i = choose|i: int|
                        0 <= i < s.drop_last().len() && mi_eq(s.drop_last()[i], x);
                    assert(s.drop_last()[i] == s[i]);
                    assert(contains_env(s, x));
                } else {
                    assert(dedup_envs(s)[k] == s.last());
                    assert(mi_eq(s[s.len() - 1], x));
                    assert(contains_env(s, x));
                }
            }
        }
    }
}

/// A filter keeps nothing when no envelope carries the action.
pub proof fn lemma_filter_action_none(s: Seq<MetaInner>, act: FileAction)
    requires
        forall|i: int| 0 <= i < s.len() ==> (#[trigger] s[i]).action != act,
    ensures
        filter_action(s, act) =~= Seq::<MetaInner>::empty(),
    decreases s.len(),
{
    if s.len() > 0 {
        assert forall|i: int|
            0 <= i < s.drop_last().len() implies (#[trigger] s.drop_last()[i]).action != act by {
            assert(s.drop_last()[i] == s[i]);
        }
        lemma_filter_action_none(s.drop_last(), act);
    }
}

/// A filter keeps everything when every envelope carries the action.
pub proof fn lemma_filter_action_full(s: Seq<MetaInner>, act: FileAction)
    requires
        forall|i: int| 0 <= i < s.len() ==> (#[trigger] s[i]).action == act,
    ensures
        filter_action(s, act) =~= s,
    decreases s.len(),
{
    if s.len() > 0 {
        assert forall|i: int|
            0 <= i < s.drop_last().len() implies (#[trigger] s.drop_last()[i]).action == act by {
            assert(s.drop_last()[i] == s[i]);
        }
        lemma_filter_action_full(s.drop_last(), act);
    }
}

/// An envelope carrying the action survives the filter.
pub proof fn lemma_filter_action_contains(s: Seq<MetaInner>, act: FileAction, j: int)
    requires
        0 <= j < s.len(),
        s[j].action == act,
    ensures
        exists|k: int| 0 <= k < filter_action(s, act).len() && (#[trigger] filter_action(s, act)[k])
            == s[j],
    decreases s.len(),
{
    if s.len() > 0 {
        if j == s.len() - 1 {
            let out = filter_action(s, act);
            assert(out[out.len() - 1] == s[j]);
        } else {
            assert(s.drop_last()[j] == s[j]);
            lemma_filter_action_contains(s.drop_last(), act, j);
            let k = choose|k: int|
                0 <= k < filter_action(s.drop_last(), act).len() && filter_action(
                    s.drop_last(),
                    act,
                )[k] == s[j];
            assert(filter_action(s, act)[k] == filter_action(s.drop_last(), act)[k]);
        }
    }
}

/// A delete whose name the server knows survives the validity filter.
pub proof fn lemma_valid_deletes_contains(s: Seq<MetaInner>, snames: Set<Seq<char>>, j: int)
    requires
        0 <= j < s.len(),
        snames.contains(s[j].fileinfo.name@),
    ensures
        exists|k: int|
            0 <= k < valid_deletes(s, snames).len() && (#[trigger] valid_deletes(s, snames)[k])
                == s[j],
    decreases s.len(),
{
    if s.len() > 0 {
        if j == s.len() - 1 {
            let out = valid_deletes(s, snames);
            assert(out[out.len() - 1] == s[j]);
        } else {
            assert(s.drop_last()[j] == s[j]);
            lemma_valid_deletes_contains(s.drop_last(), snames, j);
            let k = choose|k: int|
                0 <= k < valid_deletes(s.drop_last(), snames).len() && valid_deletes(
                    s.drop_last(),
                    snames,
                )[k] == s[j];
            assert(valid_deletes(s, snames)[k] == valid_deletes(s.drop_last(), snames)[k]);
        }
    }
}

/// Every Upload directive the classification emits names a file the server
/// lacks, and carries the Upload action.
pub proof fn lemma_upload_envs_shape(implicit: Seq<MetaInner>, snames: Set<Seq<char>>)
    ensures
        forall|k: int|
            0 <= k < upload_envs(implicit, snames).len() ==> {
                &&& (#[trigger] upload_envs(implicit, snames)[k]).action == FileAction::Upload
                &&& !snames.contains(upload_envs(implicit, snames)[k].fileinfo.name@)
            },
    decreases implicit.len(),
{
    if implicit.len() > 0 {
        lemma_upload_envs_shape(implicit.drop_last(), snames);
    }
}

/// Every directive a server-side group emits comes from a latest record that
/// meets the group's condition.
pub proof fn lemma_server_envs_mem(m: Seq<Meta>, cnames: Set<Seq<char>>, act: FileAction, k: int)
    requires
        0 <= k < server_envs(m, cnames, act).len(),
    ensures
        exists|i: int|
            0 <= i < m.len() && latest_idx(m, (#[trigger] m[i]).fname@) == i && server_env_cond(
                m[i],
                cnames,
                act,
            ) && server_envs(m, cnames, act)[k] == mi_of_meta(act, m[i]),
{
    lemma_server_envs_upto_mem(m, m.len() as int, cnames, act, k);
}

proof fn lemma_server_envs_upto_mem(
    m: Seq<Meta>,
    t: int,
    cnames: Set<Seq<char>>,
    act: FileAction,
    k: int,
)
    requires
        t <= m.len(),
        0 <= k < server_envs_upto(m, t, cnames, act).len(),
    ensures
        exists|i: int|
            0 <= i < m.len() && latest_idx(m, (#[trigger] m[i]).fname@) == i && server_env_cond(
                m[i],
                cnames,
                act,
            ) && server_envs_upto(m, t, cnames, act)[k] == mi_of_meta(act, m[i]),
    decreases t,
{
    if t > 0 {
        let front = server_envs_upto(m, t - 1, cnames, act);
        if k < front.len() {
            lemma_server_envs_upto_mem(m, t - 1, cnames, act, k);
            let i = choose|i: int|
                0 <= i < m.len() && latest_idx(m, (#[trigger] m[i]).fname@) == i && server_env_cond(
                    m[i],
                    cnames,
                    act,
                ) && front[k] == mi_of_meta(act, m[i]);
            assert(server_envs_upto(m, t, cnames, act)[k] == front[k]);
            assert(server_envs_upto(m, t, cnames, act)[k] == mi_of_meta(act, m[i]));
        } else {
            assert(server_envs_upto(m, t, cnames, act)[k] == mi_of_meta(act, m[t - 1]));
        }
    }
}

/// A latest record that meets a group's condition emits its directive.
pub proof fn lemma_server_envs_contains(
    m: Seq<Meta>,
    cnames: Set<Seq<char>>,
    act: FileAction,
    i: int,
)
    requires
        0 <= i < m.len(),
        latest_idx(m, m[i].fname@) == i,
        server_env_cond(m[i], cnames, act),
    ensures
        exists|k: int|
            0 <= k < server_envs(m, cnames, act).len() && (#[trigger] server_envs(
                m,
                cnames,
                act,
            )[k]) == mi_of_meta(act, m[i]),
{
    lemma_server_envs_upto_contains(m, m.len() as int, cnames, act, i);
    let k = choose|k: int|
        0 <= k < server_envs_upto(m, m.len() as int, cnames, act).len() && (
        #[trigger] server_envs_upto(m, m.len() as int, cnames, act)[k]) == mi_of_meta(act, m[i]);
    assert(server_envs(m, cnames, act)[k] == mi_of_meta(act, m[i]));
}

proof fn lemma_server_envs_upto_contains(
    m: Seq<Meta>,
    t: int,
    cnames: Set<Seq<char>>,
    act: FileAction,
    i: int,
)
    requires
        0 <= i < t <= m.len(),
        latest_idx(m, m[i].fname@) == i,
        server_env_cond(m[i], cnames, act),
    ensures
        exists|k: int|
            0 <= k < server_envs_upto(m, t, cnames, act).len() && (#[trigger] server_envs_upto(
                m,
                t,
                cnames,
                act,
            )[k]) == mi_of_meta(act, m[i]),
    decreases t,
{
    let front = server_envs_upto(m, t - 1, cnames, act);
    if i == t - 1 {
        let out = server_envs_upto(m, t, cnames, act);
        assert(out[out.len() - 1] == mi_of_meta(act, m[i]));
    } else {
        lemma_server_envs_upto_contains(m, t - 1, cnames, act, i);
        let k = choose|k: int|
            0 <= k < front.len() && (#[trigger] front[k]) == mi_of_meta(act, m[i]);
        assert(server_envs_upto(m, t, cnames, act)[k] == front[k]);
    }
}

/// A concatenation holds a value exactly when one of its parts does.
pub proof fn lemma_contains_concat(a: Seq<MetaInner>, b: Seq<MetaInner>, x: MetaInner)
    ensures
        contains_env(a + b, x) <==> (contains_env(a, x) || contains_env(b, x)),
{
    if contains_env(a + b, x) {
        let i = choose|i: int| 0 <= i < (a + b).len() && mi_eq(#[trigger] (a + b)[i], x);
        if i < a.len() {
            assert((a + b)[i] == a[i]);
            assert(contains_env(a, x));
        } else {
            assert((a + b)[i] == b[i - a.len()]);
            assert(contains_env(b, x));
        }
    }
    if contains_env(a, x) {
        let i = choose|i: int| 0 <= i < a.len() && mi_eq(#[trigger] a[i], x);
        assert((a + b)[i] == a[i]);
        assert(contains_env(a + b, x));
    }
    if contains_env(b, x) {
        let i = choose|i: int| 0 <= i < b.len() && mi_eq(#[trigger] b[i], x);
        assert((a + b)[a.len() + i] == b[i]);
        assert(contains_env(a + b, x));
    }
}

/// Every Upload directive the classification emits is built from some
/// implicit envelope whose name the server lacks.
pub proof fn lemma_upload_envs_mem(implicit: Seq<MetaInner>, snames: Set<Seq<char>>, k: int)
    requires
        0 <= k < upload_envs(implicit, snames).len(),
    ensures
        exists|j: int|
            0 <= j < implicit.len() && !snames.contains((#[trigger] implicit[j]).fileinfo.name@)
                && upload_envs(implicit, snames)[k] == (MetaInner {
                action: FileAction::Upload,
                fileinfo: implicit[j].fileinfo,
            }),
    decreases implicit.len(),
{
    if implicit.len() > 0 {
        let front = upload_envs(implicit.drop_last(), snames);
        if k < front.len() {
            lemma_upload_envs_mem(implicit.drop_last(), snames, k);
            let j = choose|j: int|
                0 <= j < implicit.drop_last().len() && !snames.contains(
                    (#[trigger] implicit.drop_last()[j]).fileinfo.name@,
                ) && front[k] == (MetaInner {
                    action: FileAction::Upload,
                    fileinfo: implicit.drop_last()[j].fileinfo,
                });
            assert(implicit.drop_last()[j] == implicit[j]);
            assert(upload_envs(implicit, snames)[k] == front[k]);
        } else {
            assert(upload_envs(implicit, snames)[k] == (MetaInner {
                action: FileAction::Upload,
                fileinfo: implicit[implicit.len() - 1].fileinfo,
            }));
        }
    }
}

/// An implicit envelope whose name the server lacks emits its Upload
/// directive.
pub proof fn lemma_upload_envs_contains(implicit: Seq<MetaInner>, snames: Set<Seq<char>>, j: int)
    requires
        0 <= j < implicit.len(),
        !snames.contains(implicit[j].fileinfo.name@),
    ensures
        exists|k: int|
            0 <= k < upload_envs(implicit, snames).len() && (#[trigger] upload_envs(
                implicit,
                snames,
            )[k]) == (MetaInner { action: FileAction::Upload, fileinfo: implicit[j].fileinfo }),
    decreases implicit.len(),
{
    if implicit.len() > 0 {
        if j == implicit.len() - 1 {
            let out = upload_envs(implicit, snames);
            assert(out[out.len() - 1] == (MetaInner {
                action: FileAction::Upload,
                fileinfo: implicit[j].fileinfo,
            }));
        } else {
            assert(implicit.drop_last()[j] == implicit[j]);
            lemma_upload_envs_contains(implicit.drop_last(), snames, j);
            let k = choose|k: int|
                0 <= k < upload_envs(implicit.drop_last(), snames).len() && (
                #[trigger] upload_envs(implicit.drop_last(), snames)[k]) == (MetaInner {
                    action: FileAction::Upload,
                    fileinfo: implicit[j].fileinfo,
                });
            assert(upload_envs(implicit, snames)[k] == upload_envs(implicit.drop_last(), snames)[k]);
        }
    }
}

/// Whether the vector holds an envelope equal to `x` by value.
fn env_in(v: &Vec<MetaInner>, x: &MetaInner) -> (r: bool)
    ensures
        r == contains_env(v@, *x),
{
    let mut j: usize = 0;
    let mut found = false;
    while j < v.len()
        invariant
            j <= v@.len(),
            found == contains_env(v@.take(j as int), *x),
        decreases v@.len() - j,
    {
        proof {
            assert(v@.take(j as int + 1).drop_last() =~= v@.take(j as int));
            assert(v@.take(j as int + 1).last() == v@[j as int]);
        }
        let hit = v[j] == *x;
        proof {
            if hit {
                assert(mi_eq(v@.take(j as int + 1)[j as int], *x));
            } else if !found {
                assert forall|i: int|
                    0 <= i < j as int + 1 implies !mi_eq(
                    #[trigger] v@.take(j as int + 1)[i],
                    *x,
                ) by {
                    if i < j as int {
                        assert(v@.take(j as int + 1)[i] == v@.take(j as int)[i]);
                    }
                }
            }
        }
        if hit {
            found = true;
        }
        j += 1;
    }
    proof {
        assert(v@.take(v@.len() as int) =~= v@);
    }
    found
}

/// De-duplicate by value equality, keeping the first occurrence of each
/// envelope.
fn dedup_states(v: &Vec<MetaInner>) -> (r: Vec<MetaInner>)
    ensures
        r@ == dedup_envs(v@),
{
    let mut out: Vec<MetaInner> = Vec::new();
    let mut i: usize = 0;
    while i < v.len()
        invariant
            i <= v@.len(),
            out@ =~= dedup_envs(v@.take(i as int)),
        decreases v@.len() - i,
    {
        // does the prefix already hold this envelope?
        let mut dup = false;
        let mut j: usize = 0;
        while j < i
            invariant
                j <= i < v@.len(),
                dup == contains_env(v@.take(j as int), v@[i as int]),
            decreases i - j,
        {
            proof {
                assert(v@.take(j as int + 1).drop_last() =~= v@.take(j as int));
                assert(v@.take(j as int + 1).last() == v@[j as int]);
            }
            let hit = v[j] == v[i];
            proof {
                if hit {
                    assert(mi_eq(v@.take(j as int + 1)[j as int], v@[i as int]));
                } else if !dup {
                    assert forall|t: int|
                        0 <= t < j as int + 1 implies !mi_eq(
                        #[trigger] v@.take(j as int + 1)[t],
                        v@[i as int],
                    ) by {
                        if t < j as int {
                            assert(v@.take(j as int + 1)[t] == v@.take(j as int)[t]);
                        }
                    }
                }
            }
            if hit {
                dup = true;
            }
            j += 1;
        }
        proof {
            assert(v@.take(i as int + 1).drop_last() =~= v@.take(i as int));
            assert(v@.take(i as int + 1).last() == v@[i as int]);
        }
        if !dup {
            out.push(v[i].clone());
        }
        i += 1;
    }
    proof {
        assert(v@.take(v@.len() as int) =~= v@);
    }
    out
}

/// Keep the envelopes whose action is `act`.
fn filter_by_action(v: &Vec<MetaInner>, act: FileAction) -> (r: Vec<MetaInner>)
    ensures
        r@ == filter_action(v@, act),
{
    let mut out: Vec<MetaInner> = Vec::new();
    let mut i: usize = 0;
    while i < v.len()
        invariant
            i <= v@.len(),
            out@ =~= filter_action(v@.take(i as int), act),
        decreases v@.len() - i,
    {
        proof {
            assert(v@.take(i as int + 1).drop_last() =~= v@.take(i as int));
            assert(v@.take(i as int + 1).last() == v@[i as int]);
        }
        if v[i].action == act {
            out.push(v[i].clone());
        }
        i += 1;
    }
    proof {
        assert(v@.take(v@.len() as int) =~= v@);
    }
    out
}

/// Whether the metadata table mentions `name`.
fn meta_has_name(m: &Vec<Meta>, name: &String) -> (r: bool)
    ensures
        r == name_set(m@).contains(name@),
{
    let found = crate::db::find_latest(m, name);
    proof {
        crate::db::lemma_latest_idx(m@, name@);
    }
    match found {
        Some(_) => true,
        None => false,
    }
}

/// Whether some envelope mentions `name`.
fn envs_have_name(v: &Vec<MetaInner>, name: &String) -> (r: bool)
    ensures
        r == env_names(v@).contains(name@),
{
    let mut j: usize = 0;
    let mut found = false;
    while j < v.len()
        invariant
            j <= v@.len(),
            found == env_names(v@.take(j as int)).contains(name@),
        decreases v@.len() - j,
    {
        let hit = v[j].fileinfo.name == *name;
        proof {
            if hit {
                assert(v@.take(j as int + 1)[j as int] == v@[j as int]);
            } else if !found {
                assert forall|i: int|
                    0 <= i < j as int + 1 implies (#[trigger] v@.take(j as int + 1)[i]).fileinfo.name@
                    != name@ by {
                    if i < j as int {
                        assert(v@.take(j as int + 1)[i] == v@.take(j as int)[i]);
                    }
                }
            }
        }
        if hit {
            found = true;
        }
        j += 1;
    }
    proof {
        assert(v@.take(v@.len() as int) =~= v@);
    }
    found
}

/// Keep the deletes whose name the server knows.
fn filter_valid_deletes(deletes: &Vec<MetaInner>, m: &Vec<Meta>) -> (r: Vec<MetaInner>)
    ensures
        r@ == valid_deletes(deletes@, name_set(m@)),
{
    let mut out: Vec<MetaInner> = Vec::new();
    let mut i: usize = 0;
    while i < deletes.len()
        invariant
            i <= deletes@.len(),
            out@ =~= valid_deletes(deletes@.take(i as int), name_set(m@)),
        decreases deletes@.len() - i,
    {
        proof {
            assert(deletes@.take(i as int + 1).drop_last() =~= deletes@.take(i as int));
            assert(deletes@.take(i as int + 1).last() == deletes@[i as int]);
        }
        if meta_has_name(m, &deletes[i].fileinfo.name) {
            out.push(deletes[i].clone());
        }
        i += 1;
    }
    proof {
        assert(deletes@.take(deletes@.len() as int) =~= deletes@);
    }
    out
}

/// One Upload directive per implicit envelope whose name the server lacks.
fn upload_envs_exec(implicit: &Vec<MetaInner>, m: &Vec<Meta>) -> (r: Vec<MetaInner>)
    ensures
        r@ == upload_envs(implicit@, name_set(m@)),
{
    let mut out: Vec<MetaInner> = Vec::new();
    let mut i: usize = 0;
    while i < implicit.len()
        invariant
            i <= implicit@.len(),
            out@ =~= upload_envs(implicit@.take(i as int), name_set(m@)),
        decreases implicit@.len() - i,
    {
        proof {
            assert(implicit@.take(i as int + 1).drop_last() =~= implicit@.take(i as int));
            assert(implicit@.take(i as int + 1).last() == implicit@[i as int]);
        }
        if !meta_has_name(m, &implicit[i].fileinfo.name) {
            out.push(MetaInner::from_fileinfo(FileAction::Upload, &implicit[i].fileinfo));
        }
        i += 1;
    }
    proof {
        assert(implicit@.take(implicit@.len() as int) =~= implicit@);
    }
    out
}

/// The directives of kind `act` the latest records emit, against the
/// client's implicit names.
fn server_group(m: &Vec<Meta>, implicit: &Vec<MetaInner>, act: FileAction) -> (r: Vec<MetaInner>)
    ensures
        r@ == server_envs(m@, env_names(implicit@), act),
{
    let mut out: Vec<MetaInner> = Vec::new();
    let mut k: usize = 0;
    while k < m.len()
        invariant
            k <= m@.len(),
            out@ =~= server_envs_upto(m@, k as int, env_names(implicit@), act),
        decreases m@.len() - k,
    {
        let latest = match crate::db::find_latest(m, &m[k].fname) {
            Some(i) => i == k,
            None => false,
        };
        proof {
            crate::db::lemma_latest_idx(m@, m@[k as int].fname@);
        }
        if latest {
            let in_client = envs_have_name(implicit, &m[k].fname);
            let is_delete = m[k].states == FileAction::Delete;
            let emit = match act {
                FileAction::Delete => in_client && is_delete,
                FileAction::Modify => in_client && !is_delete,
                FileAction::Download => !in_client && !is_delete,
                _ => false,
            };
            if emit {
                out.push(MetaInner::new(act, &m[k]));
            }
        }
        k += 1;
    }
    out
}

/// One Meta call: de-duplicate the client's deltas, persist the explicit
/// deletes the server knows (the call's sole mutation, reflected in the
/// classification that follows), echo the explicit uploads and modifies, and
/// classify the implicit names against the updated table. The outbound set
/// is the de-duplicated concatenation of all the groups.
pub fn server_meta(meta_request: MetaRequest, db: &mut DbManager) -> (r: MetaResponse)
    requires
        old(db).wf(),
    ensures
        final(db).wf(),
        final(db).db.meta@ == reconcile_meta(meta_request.states@, old(db).db.meta@),
        final(db).db.content@ == old(db).db.content@,
        r.metainner@ == reconcile_out(meta_request.states@, old(db).db.meta@),
{
    let ghost m0 = db.db.meta@;
    // remove duplicated items
    let dd = dedup_states(&meta_request.states);
    // the explicit deletes whose name the server knows are persisted
    let deletes = filter_by_action(&dd, FileAction::Delete);
    let mut valid_delete = filter_valid_deletes(&deletes, &db.db.meta);
    proof {
        lemma_filter_action_all(dd@, FileAction::Delete);
        lemma_valid_deletes_sub(deletes@, name_set(m0));
        assert forall|k: int|
            0 <= k < valid_delete@.len() implies ((#[trigger] valid_delete@[k]).action
            == FileAction::Delete || valid_delete@[k].action == FileAction::Modify) by {
            let j = choose|j: int| 0 <= j < deletes@.len() && valid_delete@[k] == deletes@[j];
            assert(deletes@[j].action == FileAction::Delete);
        }
    }
    let _persisted = db.update_stetes(&valid_delete);
    // the explicit uploads and modifies are echoed back unchanged
    let mut upload0 = filter_by_action(&dd, FileAction::Upload);
    let mut modify0 = filter_by_action(&dd, FileAction::Modify);
    // the implicit subset, classified against the updated table
    let implicit = filter_by_action(&dd, FileAction::Absent);
    let mut upload = upload_envs_exec(&implicit, &db.db.meta);
    let mut delete = server_group(&db.db.meta, &implicit, FileAction::Delete);
    let mut modify = server_group(&db.db.meta, &implicit, FileAction::Modify);
    let mut download = server_group(&db.db.meta, &implicit, FileAction::Download);
    let mut all: Vec<MetaInner> = Vec::new();
    all.append(&mut valid_delete);
    all.append(&mut upload);
    all.append(&mut upload0);
    all.append(&mut modify0);
    all.append(&mut delete);
    all.append(&mut modify);
    all.append(&mut download);
    let out = dedup_states(&all);
    MetaResponse { metainner: out }
}

} // verus!
