//! The laws of the reconciliation protocol, each stated over the
//! specification model and proved once and for all.

use crate::db::{
    appended_content, appended_meta, blob_idx, latest_idx, lemma_latest_idx, lemma_mark_all_delete,
    lemma_mark_all_shape, mark_all, max_id, name_set, store_wf, upload_blob, upload_meta,
    ContentBlob, Meta,
};
use crate::file_process::{
    contains_env, dedup_envs, env_names, filter_action, lemma_contains_concat,
    lemma_dedup_contains, lemma_dedup_sub, lemma_filter_action_all, lemma_filter_action_contains,
    lemma_filter_action_full, lemma_filter_action_none, lemma_server_envs_contains,
    lemma_server_envs_mem, lemma_upload_envs_contains, lemma_upload_envs_mem,
    lemma_upload_envs_shape, lemma_valid_deletes_contains, lemma_valid_deletes_sub,
    reconcile_meta, reconcile_out, server_env_cond, server_envs, upload_envs, valid_deletes,
};
use crate::protocol::{mi_eq, mi_of_meta, FileAction, FileInfo, MetaInner, Pfile};
use vstd::prelude::*;

verus! {

/// For any client and server name sets, the three classification groups —
/// names both sides hold, names only the client holds, names only the server
/// holds — are pairwise disjoint, and together they cover exactly the union
/// of the two sets.
pub proof fn lemma_name_partition(client: Set<Seq<char>>, server: Set<Seq<char>>)
    ensures
        client.intersect(server).disjoint(client.difference(server)),
        client.intersect(server).disjoint(server.difference(client)),
        client.difference(server).disjoint(server.difference(client)),
        client.intersect(server).union(client.difference(server)).union(
            server.difference(client),
        ) =~= client.union(server),
{
}

/// A Meta call whose deltas are all implicit writes nothing: the server's
/// metadata is unchanged, so re-running the call with the same request set
/// yields the same outbound directive set.
pub proof fn lemma_meta_idempotent(states: Seq<MetaInner>, m: Seq<Meta>)
    requires
        forall|i: int|
            0 <= i < states.len() ==> (#[trigger] states[i]).action == FileAction::Absent,
    ensures
        reconcile_meta(states, m) == m,
        reconcile_out(states, reconcile_meta(states, m)) == reconcile_out(states, m),
{
    let dd = dedup_envs(states);
    lemma_dedup_sub(states);
    assert forall|i: int|
        0 <= i < dd.len() implies (#[trigger] dd[i]).action == FileAction::Absent by {
        let j = choose|j: int| 0 <= j < states.len() && dd[i] == states[j];
    }
    lemma_filter_action_none(dd, FileAction::Delete);
    assert(filter_action(dd, FileAction::Delete) == Seq::<MetaInner>::empty());
    assert(valid_deletes(Seq::<MetaInner>::empty(), name_set(m)) =~= Seq::<MetaInner>::empty());
    assert(mark_all(m, Seq::<MetaInner>::empty()) == m);
}

/// The outbound set of a Meta call of implicit deltas alone is a function of
/// the request's envelope values, not of their order or multiplicity: two
/// such requests that hold the same values are answered with the same
/// values.
pub proof fn lemma_meta_order_independent(
    s1: Seq<MetaInner>,
    s2: Seq<MetaInner>,
    m: Seq<Meta>,
    x: MetaInner,
)
    requires
        forall|i: int| 0 <= i < s1.len() ==> (#[trigger] s1[i]).action == FileAction::Absent,
        forall|i: int| 0 <= i < s2.len() ==> (#[trigger] s2[i]).action == FileAction::Absent,
        forall|y: MetaInner|
            #![trigger contains_env(s1, y)]
            #![trigger contains_env(s2, y)]
            contains_env(s1, y) <==> contains_env(s2, y),
    ensures
        contains_env(reconcile_out(s1, m), x) <==> contains_env(reconcile_out(s2, m), x),
{
    let dd1 = dedup_envs(s1);
    let dd2 = dedup_envs(s2);
    lemma_dedup_sub(s1);
    lemma_dedup_sub(s2);
    assert forall|i: int|
        0 <= i < dd1.len() implies (#[trigger] dd1[i]).action == FileAction::Absent by {
        let j = choose|j: int| 0 <= j < s1.len() && dd1[i] == s1[j];
    }
    assert forall|i: int|
        0 <= i < dd2.len() implies (#[trigger] dd2[i]).action == FileAction::Absent by {
        let j = choose|j: int| 0 <= j < s2.len() && dd2[i] == s2[j];
    }
    // neither request writes anything
    lemma_filter_action_none(dd1, FileAction::Delete);
    lemma_filter_action_none(dd1, FileAction::Upload);
    lemma_filter_action_none(dd1, FileAction::Modify);
    lemma_filter_action_full(dd1, FileAction::Absent);
    lemma_filter_action_none(dd2, FileAction::Delete);
    lemma_filter_action_none(dd2, FileAction::Upload);
    lemma_filter_action_none(dd2, FileAction::Modify);
    lemma_filter_action_full(dd2, FileAction::Absent);
    let empty = Seq::<MetaInner>::empty();
    assert(filter_action(dd1, FileAction::Delete) == empty);
    assert(filter_action(dd2, FileAction::Delete) == empty);
    let vd = valid_deletes(empty, name_set(m));
    assert(vd =~= empty);
    assert(mark_all(m, vd) == m);
    let snames = name_set(m);

    // the de-duplicated requests hold the same values, so the same names
    assert forall|y: MetaInner|
        #![trigger contains_env(dd1, y)]
        #![trigger contains_env(dd2, y)]
        contains_env(dd1, y) <==> contains_env(dd2, y) by {
        lemma_dedup_contains(s1, y);
        lemma_dedup_contains(s2, y);
    }
    let c1 = env_names(dd1);
    let c2 = env_names(dd2);
    assert forall|n: Seq<char>| #[trigger] c1.contains(n) implies c2.contains(n) by {
        let i = choose|i: int| 0 <= i < dd1.len() && (#[trigger] dd1[i]).fileinfo.name@ == n;
        assert(mi_eq(dd1[i], dd1[i]));
        assert(contains_env(dd1, dd1[i]));
        let j = choose|j: int| 0 <= j < dd2.len() && mi_eq(#[trigger] dd2[j], dd1[i]);
        assert(dd2[j].fileinfo.name@ == n);
    }
    assert forall|n: Seq<char>| #[trigger] c2.contains(n) implies c1.contains(n) by {
        let i = choose|i: int| 0 <= i < dd2.len() && (#[trigger] dd2[i]).fileinfo.name@ == n;
        assert(mi_eq(dd2[i], dd2[i]));
        assert(contains_env(dd2, dd2[i]));
        let j = choose|j: int| 0 <= j < dd1.len() && mi_eq(#[trigger] dd1[j], dd2[i]);
        assert(dd1[j].fileinfo.name@ == n);
    }
    assert(c1 =~= c2);

    // the server-side groups are then the very same sequences, and the
    // Upload groups hold the same values
    let up1 = upload_envs(dd1, snames);
    let up2 = upload_envs(dd2, snames);
    assert forall|y: MetaInner| #[trigger] contains_env(up1, y) implies contains_env(up2, y) by {
        let k = choose|k: int| 0 <= k < up1.len() && mi_eq(#[trigger] up1[k], y);
        lemma_upload_envs_mem(dd1, snames, k);
        let j = choose|j: int|
            0 <= j < dd1.len() && !snames.contains((#[trigger] dd1[j]).fileinfo.name@) && up1[k]
                == (MetaInner { action: FileAction::Upload, fileinfo: dd1[j].fileinfo });
        assert(mi_eq(dd1[j], dd1[j]));
        assert(contains_env(dd1, dd1[j]));
        let j2 = choose|t: int| 0 <= t < dd2.len() && mi_eq(#[trigger] dd2[t], dd1[j]);
        assert(!snames.contains(dd2[j2].fileinfo.name@));
        lemma_upload_envs_contains(dd2, snames, j2);
        let k2 = choose|k2: int|
            0 <= k2 < up2.len() && (#[trigger] up2[k2]) == (MetaInner {
                action: FileAction::Upload,
                fileinfo: dd2[j2].fileinfo,
            });
        assert(mi_eq(up2[k2], y));
    }
    assert forall|y: MetaInner| #[trigger] contains_env(up2, y) implies contains_env(up1, y) by {
        let k = choose|k: int| 0 <= k < up2.len() && mi_eq(#[trigger] up2[k], y);
        lemma_upload_envs_mem(dd2, snames, k);
        let j = choose|j: int|
            0 <= j < dd2.len() && !snames.contains((#[trigger] dd2[j]).fileinfo.name@) && up2[k]
                == (MetaInner { action: FileAction::Upload, fileinfo: dd2[j].fileinfo });
        assert(mi_eq(dd2[j], dd2[j]));
        assert(contains_env(dd2, dd2[j]));
        let j2 = choose|t: int| 0 <= t < dd1.len() && mi_eq(#[trigger] dd1[t], dd2[j]);
        assert(!snames.contains(dd1[j2].fileinfo.name@));
        lemma_upload_envs_contains(dd1, snames, j2);
        let k2 = choose|k2: int|
            0 <= k2 < up1.len() && (#[trigger] up1[k2]) == (MetaInner {
                action: FileAction::Upload,
                fileinfo: dd1[j2].fileinfo,
            });
        assert(mi_eq(up1[k2], y));
    }

    // assemble both concatenations and compare their contents
    let del_g = server_envs(m, c1, FileAction::Delete);
    let mod_g = server_envs(m, c1, FileAction::Modify);
    let down_g = server_envs(m, c1, FileAction::Download);
    assert(server_envs(m, c2, FileAction::Delete) == del_g);
    assert(server_envs(m, c2, FileAction::Modify) == mod_g);
    assert(server_envs(m, c2, FileAction::Download) == down_g);
    let all1 = vd + up1 + empty + empty + del_g + mod_g + down_g;
    let all2 = vd + up2 + empty + empty + del_g + mod_g + down_g;
    assert(reconcile_out(s1, m) == dedup_envs(all1));
    assert(reconcile_out(s2, m) == dedup_envs(all2));
    lemma_dedup_contains(all1, x);
    lemma_dedup_contains(all2, x);
    lemma_contains_concat(vd, up1, x);
    lemma_contains_concat(vd + up1, empty, x);
    lemma_contains_concat(vd + up1 + empty, empty, x);
    lemma_contains_concat(vd + up1 + empty + empty, del_g, x);
    lemma_contains_concat(vd + up1 + empty + empty + del_g, mod_g, x);
    lemma_contains_concat(vd + up1 + empty + empty + del_g + mod_g, down_g, x);
    lemma_contains_concat(vd, up2, x);
    lemma_contains_concat(vd + up2, empty, x);
    lemma_contains_concat(vd + up2 + empty, empty, x);
    lemma_contains_concat(vd + up2 + empty + empty, del_g, x);
    lemma_contains_concat(vd + up2 + empty + empty + del_g, mod_g, x);
    lemma_contains_concat(vd + up2 + empty + empty + del_g + mod_g, down_g, x);
}

/// Two byte-identical delta envelopes in one Meta request yield the same
/// outbound set and the same store as one: the repetition is dropped.
pub proof fn lemma_duplicate_envelope(states: Seq<MetaInner>, x: MetaInner, m: Seq<Meta>)
    requires
        contains_env(states, x),
    ensures
        reconcile_out(states.push(x), m) == reconcile_out(states, m),
        reconcile_meta(states.push(x), m) == reconcile_meta(states, m),
{
    assert(states.push(x).drop_last() =~= states);
    assert(states.push(x).last() == x);
    assert(dedup_envs(states.push(x)) == dedup_envs(states));
}

/// Uploading a file and then downloading its name hands the descriptor and
/// the content back unchanged.
pub proof fn lemma_upload_download_roundtrip(m: Seq<Meta>, c: Seq<ContentBlob>, f: Pfile)
    requires
        store_wf(m, c),
        max_id(m) < i32::MAX,
    ensures
        crate::db::retrieved_file(
            appended_meta(m, seq![f]),
            appended_content(c, max_id(m), seq![f]),
            f.states.name@,
        ) == Some(f),
{
    let id = (max_id(m) + 1) as i32;
    let m2 = appended_meta(m, seq![f]);
    let c2 = appended_content(c, max_id(m), seq![f]);
    assert(m2.len() == m.len() + 1);
    assert(c2.len() == c.len() + 1);
    assert(m2.last() == upload_meta(f, id));
    assert(c2.last() == upload_blob(f, id));
    assert(latest_idx(m2, f.states.name@) == m2.len() - 1);
    assert(blob_idx(c2, id) == c2.len() - 1);
    assert(m2[m2.len() - 1].indexs == id);
    assert(f.states == (FileInfo {
        name: f.states.name,
        path: f.states.path,
        mtime: f.states.mtime,
        ctime: f.states.ctime,
    }));
    assert(f == (Pfile { states: f.states, content: f.content }));
}

/// An explicit delete for a name the server holds persists: a later Meta
/// call that lists the name among its implicit deltas alone is answered with
/// Delete for that name — never Modify, never anything else.
pub proof fn lemma_delete_persistence(
    states1: Seq<MetaInner>,
    m: Seq<Meta>,
    states2: Seq<MetaInner>,
    name: Seq<char>,
)
    requires
        name_set(m).contains(name),
        exists|i: int|
            0 <= i < states1.len() && (#[trigger] states1[i]).action == FileAction::Delete
                && states1[i].fileinfo.name@ == name,
        forall|i: int|
            0 <= i < states2.len() ==> (#[trigger] states2[i]).action == FileAction::Absent,
        env_names(states2).contains(name),
    ensures
        ({
            let out = reconcile_out(states2, reconcile_meta(states1, m));
            &&& exists|k: int|
                0 <= k < out.len() && (#[trigger] out[k]).action == FileAction::Delete
                    && out[k].fileinfo.name@ == name
            &&& forall|k: int|
                0 <= k < out.len() && (#[trigger] out[k]).fileinfo.name@ == name ==> out[k].action
                    == FileAction::Delete
        }),
{
    let dd1 = dedup_envs(states1);
    let deletes1 = filter_action(dd1, FileAction::Delete);
    let vd = valid_deletes(deletes1, name_set(m));
    let m2 = reconcile_meta(states1, m);

    // a delete envelope for `name` survives the de-duplication and both
    // filters, so the batch the call persists names `name`
    let i0 = choose|i: int|
        0 <= i < states1.len() && (#[trigger] states1[i]).action == FileAction::Delete
            && states1[i].fileinfo.name@ == name;
    let x = states1[i0];
    assert(mi_eq(x, x));
    assert(contains_env(states1, x));
    lemma_dedup_contains(states1, x);
    let j1 = choose|j: int| 0 <= j < dd1.len() && mi_eq(#[trigger] dd1[j], x);
    lemma_filter_action_contains(dd1, FileAction::Delete, j1);
    let j2 = choose|k: int| 0 <= k < deletes1.len() && (#[trigger] deletes1[k]) == dd1[j1];
    lemma_valid_deletes_contains(deletes1, name_set(m), j2);
    let j3 = choose|k: int| 0 <= k < vd.len() && (#[trigger] vd[k]) == deletes1[j2];
    assert(vd[j3].fileinfo.name@ == name);
    lemma_filter_action_all(dd1, FileAction::Delete);
    lemma_valid_deletes_sub(deletes1, name_set(m));
    assert forall|k: int|
        0 <= k < vd.len() implies (#[trigger] vd[k]).action == FileAction::Delete by {
        let t = choose|t: int| 0 <= t < deletes1.len() && vd[k] == deletes1[t];
    }

    // the latest record of `name` is now a tombstone
    lemma_mark_all_delete(m, vd, name);
    lemma_mark_all_shape(m, vd);
    let li = latest_idx(m2, name);
    lemma_latest_idx(m2, name);
    assert(m2[li].fname@ == name);
    assert(m2[li].states == FileAction::Delete);
    assert(name_set(m2).contains(name));

    // the second call carries implicit deltas alone: nothing more is marked
    let dd2 = dedup_envs(states2);
    lemma_dedup_sub(states2);
    assert forall|i: int|
        0 <= i < dd2.len() implies (#[trigger] dd2[i]).action == FileAction::Absent by {
        let j = choose|j: int| 0 <= j < states2.len() && dd2[i] == states2[j];
    }
    lemma_filter_action_none(dd2, FileAction::Delete);
    lemma_filter_action_none(dd2, FileAction::Upload);
    lemma_filter_action_none(dd2, FileAction::Modify);
    lemma_filter_action_full(dd2, FileAction::Absent);
    assert(filter_action(dd2, FileAction::Delete) == Seq::<MetaInner>::empty());
    assert(filter_action(dd2, FileAction::Upload) == Seq::<MetaInner>::empty());
    assert(filter_action(dd2, FileAction::Modify) == Seq::<MetaInner>::empty());
    assert(filter_action(dd2, FileAction::Absent) == dd2);
    let vd2 = valid_deletes(Seq::<MetaInner>::empty(), name_set(m2));
    assert(vd2 =~= Seq::<MetaInner>::empty());
    assert(mark_all(m2, vd2) == m2);

    // the client's implicit names mention `name`
    let cnames = env_names(dd2);
    let i2 = choose|i: int| 0 <= i < states2.len() && (#[trigger] states2[i]).fileinfo.name@ == name;
    let x2 = states2[i2];
    assert(mi_eq(x2, x2));
    assert(contains_env(states2, x2));
    lemma_dedup_contains(states2, x2);
    let j4 = choose|j: int| 0 <= j < dd2.len() && mi_eq(#[trigger] dd2[j], x2);
    assert(dd2[j4].fileinfo.name@ == name);
    assert(cnames.contains(name));

    // the Delete group emits the directive for `name`
    assert(latest_idx(m2, m2[li].fname@) == li);
    assert(server_env_cond(m2[li], cnames, FileAction::Delete));
    lemma_server_envs_contains(m2, cnames, FileAction::Delete, li);
    let e = mi_of_meta(FileAction::Delete, m2[li]);
    assert(e.action == FileAction::Delete);
    assert(e.fileinfo.name@ == name);

    // assemble the concatenation `reconcile_out` de-duplicates
    let upload = upload_envs(dd2, name_set(m2));
    let del_g = server_envs(m2, cnames, FileAction::Delete);
    let mod_g = server_envs(m2, cnames, FileAction::Modify);
    let down_g = server_envs(m2, cnames, FileAction::Download);
    let empty = Seq::<MetaInner>::empty();
    let all = vd2 + upload + empty + empty + del_g + mod_g + down_g;
    assert(reconcile_out(states2, m2) == dedup_envs(all));

    // the directive is in the concatenation, so a value-equal one survives
    // the final de-duplication
    let kd = choose|k: int| 0 <= k < del_g.len() && (#[trigger] del_g[k]) == e;
    assert(all[upload.len() + kd] == e);
    assert(mi_eq(all[upload.len() + kd], e));
    assert(contains_env(all, e));
    lemma_dedup_contains(all, e);
    let out = dedup_envs(all);
    let ke = choose|k: int| 0 <= k < out.len() && mi_eq(#[trigger] out[k], e);
    assert(out[ke].action == FileAction::Delete && out[ke].fileinfo.name@ == name);

    // and nothing else in the concatenation names `name`
    lemma_upload_envs_shape(dd2, name_set(m2));
    assert forall|j: int|
        0 <= j < all.len() && (#[trigger] all[j]).fileinfo.name@ == name implies all[j].action
        == FileAction::Delete by {
        if j < upload.len() {
            assert(all[j] == upload[j]);
            assert(!name_set(m2).contains(upload[j].fileinfo.name@));
        } else if j < upload.len() + del_g.len() {
            assert(all[j] == del_g[j - upload.len()]);
            lemma_server_envs_mem(m2, cnames, FileAction::Delete, j - upload.len());
            let i = choose|i: int|
                0 <= i < m2.len() && latest_idx(m2, (#[trigger] m2[i]).fname@) == i
                    && server_env_cond(m2[i], cnames, FileAction::Delete) && del_g[j
                    - upload.len()] == mi_of_meta(FileAction::Delete, m2[i]);
            assert(all[j].action == FileAction::Delete);
        } else if j < upload.len() + del_g.len() + mod_g.len() {
            let kj = j - upload.len() - del_g.len();
            assert(all[j] == mod_g[kj]);
            lemma_server_envs_mem(m2, cnames, FileAction::Modify, kj);
            let i = choose|i: int|
                0 <= i < m2.len() && latest_idx(m2, (#[trigger] m2[i]).fname@) == i
                    && server_env_cond(m2[i], cnames, FileAction::Modify) && mod_g[kj]
                    == mi_of_meta(FileAction::Modify, m2[i]);
            assert(m2[i].fname@ == name);
            assert(i == li);
            assert(false);
        } else {
            let kj = j - upload.len() - del_g.len() - mod_g.len();
            assert(all[j] == down_g[kj]);
            lemma_server_envs_mem(m2, cnames, FileAction::Download, kj);
            let i = choose|i: int|
                0 <= i < m2.len() && latest_idx(m2, (#[trigger] m2[i]).fname@) == i
                    && server_env_cond(m2[i], cnames, FileAction::Download) && down_g[kj]
                    == mi_of_meta(FileAction::Download, m2[i]);
            assert(m2[i].fname@ == name);
            assert(i == li);
            assert(false);
        }
    }
    lemma_dedup_sub(all);
    assert forall|k: int|
        0 <= k < out.len() && (#[trigger] out[k]).fileinfo.name@ == name implies out[k].action
        == FileAction::Delete by {
        let j = choose|j: int| 0 <= j < all.len() && out[k] == all[j];
    }
}

} // verus!
