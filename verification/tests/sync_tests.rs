use std::collections::HashSet;

use vault_sync::db::{ContentBlob, DbManager, Meta};
use vault_sync::error::{ApplicationError, UserError};
use vault_sync::file_process::server_meta;
use vault_sync::protocol::{
    DownloadRequest, FileAction, FileInfo, HostKeyRequest, MetaInner, MetaRequest, Pfile, Server,
    UploadRequest,
};
use vault_sync::user::{create_pass_hash, create_salt};

fn fi(name: &str, path: &str, mtime: i64, ctime: i64) -> FileInfo {
    FileInfo {
        name: name.to_string(),
        path: path.to_string(),
        mtime,
        ctime,
    }
}

fn pfile(name: &str, path: &str, mtime: i64, ctime: i64, content: &str) -> Pfile {
    Pfile {
        states: fi(name, path, mtime, ctime),
        content: content.to_string(),
    }
}

#[test]
fn defy_deplicated_metainner() {
    let mi1 = MetaInner::default();
    let mi2 = MetaInner::default();
    let v = vec![mi1, mi2];

    let mut s = HashSet::new();
    let mut s1 = HashSet::new();
    s1.insert(MetaInner::default());
    s.extend(v);
    assert_eq!(s, s1);
}

#[test]
fn meta_classifies_modify_and_upload() {
    // server holds "a.md" (action Upload); the client reports "a.md" and
    // "b.md" implicitly: "a.md" is told Modify, "b.md" Upload, nothing is
    // told Download.
    let mut db = DbManager::new();
    db.upload(UploadRequest {
        files: vec![pfile("a.md", "/a.md", 10, 5, "alpha")],
    })
    .unwrap();
    let req = MetaRequest {
        states: vec![
            MetaInner {
                action: FileAction::Absent,
                fileinfo: fi("a.md", "/a.md", 11, 5),
            },
            MetaInner {
                action: FileAction::Absent,
                fileinfo: fi("b.md", "/b.md", 12, 6),
            },
        ],
    };
    let resp = server_meta(req, &mut db);
    let expected = vec![
        MetaInner {
            action: FileAction::Upload,
            fileinfo: fi("b.md", "/b.md", 12, 6),
        },
        MetaInner {
            action: FileAction::Modify,
            fileinfo: fi("a.md", "/a.md", 10, 5),
        },
    ];
    assert_eq!(resp.metainner, expected);
    assert!(resp
        .metainner
        .iter()
        .all(|e| e.action != FileAction::Download));
}

#[test]
fn server_only_live_name_is_told_download() {
    // server holds a live "s.md" the client never mentions; the client
    // reports "other.md" the server lacks: Download for one, Upload for the
    // other.
    let mut db = DbManager::new();
    db.upload(UploadRequest {
        files: vec![pfile("s.md", "/s.md", 3, 3, "sigma")],
    })
    .unwrap();
    let resp = server_meta(
        MetaRequest {
            states: vec![MetaInner {
                action: FileAction::Absent,
                fileinfo: fi("other.md", "/other.md", 4, 4),
            }],
        },
        &mut db,
    );
    let expected = vec![
        MetaInner {
            action: FileAction::Upload,
            fileinfo: fi("other.md", "/other.md", 4, 4),
        },
        MetaInner {
            action: FileAction::Download,
            fileinfo: fi("s.md", "/s.md", 3, 3),
        },
    ];
    assert_eq!(resp.metainner, expected);
}

#[test]
fn meta_tombstone_and_empty_client_is_silent() {
    // server holds "c.md" marked Delete; the client reports nothing: the
    // outbound set is empty.
    let mut db = DbManager::new();
    db.upload(UploadRequest {
        files: vec![pfile("c.md", "/c.md", 1, 1, "gamma")],
    })
    .unwrap();
    db.update_stetes(&vec![MetaInner {
        action: FileAction::Delete,
        fileinfo: fi("c.md", "/c.md", 1, 1),
    }])
    .unwrap();
    let resp = server_meta(MetaRequest { states: vec![] }, &mut db);
    assert_eq!(resp.metainner, vec![]);
}

#[test]
fn meta_is_idempotent_for_implicit_deltas() {
    // an implicit-only request writes nothing, so running it twice yields
    // the same outbound set.
    let mut db = DbManager::new();
    db.upload(UploadRequest {
        files: vec![
            pfile("a.md", "/a.md", 1, 1, "alpha"),
            pfile("b.md", "/b.md", 2, 2, "beta"),
        ],
    })
    .unwrap();
    let states = vec![
        MetaInner {
            action: FileAction::Absent,
            fileinfo: fi("a.md", "/a.md", 3, 1),
        },
        MetaInner {
            action: FileAction::Absent,
            fileinfo: fi("x.md", "/x.md", 4, 4),
        },
    ];
    let first = server_meta(
        MetaRequest {
            states: states.clone(),
        },
        &mut db,
    );
    let second = server_meta(MetaRequest { states }, &mut db);
    assert_eq!(first.metainner, second.metainner);
    assert!(!first.metainner.is_empty());
}

#[test]
fn meta_drops_duplicate_envelopes() {
    // two byte-identical envelopes in one request yield the same outbound
    // set as one.
    let mut db = DbManager::new();
    let env = MetaInner {
        action: FileAction::Absent,
        fileinfo: fi("n.md", "/n.md", 7, 7),
    };
    let once = server_meta(
        MetaRequest {
            states: vec![env.clone()],
        },
        &mut db,
    );
    let twice = server_meta(
        MetaRequest {
            states: vec![env.clone(), env],
        },
        &mut db,
    );
    assert_eq!(once.metainner, twice.metainner);
    assert_eq!(once.metainner.len(), 1);
    assert_eq!(once.metainner[0].action, FileAction::Upload);
}

#[test]
fn upload_then_download_round_trips() {
    // Upload(F) then Download(F.name) returns F's descriptor and content
    // unchanged.
    let mut db = DbManager::new();
    let f = pfile("note.md", "/vault/note.md", 99, 42, "hello vault");
    db.upload(UploadRequest {
        files: vec![f.clone()],
    })
    .unwrap();
    let resp = db
        .download(DownloadRequest {
            filenames: vec!["note.md".to_string()],
        })
        .unwrap();
    assert_eq!(resp.files.len(), 1);
    assert_eq!(resp.files[0], f);
}

#[test]
fn reupload_appends_and_download_folds_to_latest() {
    // re-uploading a name appends a new record; a download resolves to the
    // most recent one.
    let mut db = DbManager::new();
    db.upload(UploadRequest {
        files: vec![pfile("n.md", "/n.md", 1, 1, "old")],
    })
    .unwrap();
    db.upload(UploadRequest {
        files: vec![pfile("n.md", "/n.md", 2, 1, "new")],
    })
    .unwrap();
    let records = db.get_meta().unwrap();
    assert_eq!(records.len(), 2);
    let resp = db
        .download(DownloadRequest {
            filenames: vec!["n.md".to_string()],
        })
        .unwrap();
    assert_eq!(resp.files[0].content, "new");
    assert_eq!(resp.files[0].states.mtime, 2);
}

#[test]
fn explicit_delete_persists_into_later_meta() {
    // an explicit Delete for a server-known name, then a later Meta call
    // listing the name implicitly, yields Delete — not Modify.
    let mut db = DbManager::new();
    db.upload(UploadRequest {
        files: vec![pfile("d.md", "/d.md", 1, 1, "doomed")],
    })
    .unwrap();
    let first = server_meta(
        MetaRequest {
            states: vec![MetaInner {
                action: FileAction::Delete,
                fileinfo: fi("d.md", "/d.md", 1, 1),
            }],
        },
        &mut db,
    );
    // the persisted delete is acknowledged
    assert!(first
        .metainner
        .iter()
        .any(|e| e.action == FileAction::Delete && e.fileinfo.name == "d.md"));
    let second = server_meta(
        MetaRequest {
            states: vec![MetaInner {
                action: FileAction::Absent,
                fileinfo: fi("d.md", "/d.md", 1, 1),
            }],
        },
        &mut db,
    );
    assert!(second
        .metainner
        .iter()
        .any(|e| e.action == FileAction::Delete && e.fileinfo.name == "d.md"));
    assert!(second
        .metainner
        .iter()
        .all(|e| e.fileinfo.name != "d.md" || e.action == FileAction::Delete));
}

#[test]
fn explicit_echoes_come_back() {
    // explicit Upload and Modify envelopes are echoed back unchanged.
    let mut db = DbManager::new();
    let up = MetaInner {
        action: FileAction::Upload,
        fileinfo: fi("u.md", "/u.md", 1, 1),
    };
    let md = MetaInner {
        action: FileAction::Modify,
        fileinfo: fi("m.md", "/m.md", 2, 2),
    };
    let resp = server_meta(
        MetaRequest {
            states: vec![up.clone(), md.clone()],
        },
        &mut db,
    );
    assert!(resp.metainner.contains(&up));
    assert!(resp.metainner.contains(&md));
    // no storage write happened
    assert!(db.get_meta().is_none());
}

#[test]
fn delete_for_unknown_name_is_dropped() {
    // an explicit Delete for a name the server lacks is not acknowledged.
    let mut db = DbManager::new();
    let resp = server_meta(
        MetaRequest {
            states: vec![MetaInner {
                action: FileAction::Delete,
                fileinfo: fi("ghost.md", "/ghost.md", 1, 1),
            }],
        },
        &mut db,
    );
    assert_eq!(resp.metainner, vec![]);
}

#[test]
fn outbound_is_deduplicated_across_groups() {
    // the same file reported both explicitly (Upload) and implicitly, while
    // the server lacks it: the echo and the classification would each emit
    // the same Upload envelope; only one comes back.
    let mut db = DbManager::new();
    let f = fi("n.md", "/n.md", 1, 1);
    let resp = server_meta(
        MetaRequest {
            states: vec![
                MetaInner {
                    action: FileAction::Upload,
                    fileinfo: f.clone(),
                },
                MetaInner {
                    action: FileAction::Absent,
                    fileinfo: f.clone(),
                },
            ],
        },
        &mut db,
    );
    assert_eq!(
        resp.metainner,
        vec![MetaInner {
            action: FileAction::Upload,
            fileinfo: f,
        }]
    );
}

#[test]
fn update_stetes_marks_the_latest_record_only() {
    // with two records of one name, a Modify mark lands on the most recent
    // one; the older record keeps its action.
    let mut db = DbManager::new();
    db.upload(UploadRequest {
        files: vec![pfile("m.md", "/m.md", 1, 1, "one")],
    })
    .unwrap();
    db.upload(UploadRequest {
        files: vec![pfile("m.md", "/m.md", 2, 2, "two")],
    })
    .unwrap();
    db.update_stetes(&vec![MetaInner {
        action: FileAction::Modify,
        fileinfo: fi("m.md", "/m.md", 2, 2),
    }])
    .unwrap();
    let records = db.get_meta().unwrap();
    assert_eq!(records.len(), 2);
    assert_eq!(records[0].states, FileAction::Upload);
    assert_eq!(records[1].states, FileAction::Modify);
}

#[test]
fn host_key_rejects_wrong_password_and_returns_hash_verbatim() {
    let stored = create_pass_hash("alice", "rightpass", "0123456789abcdef");
    let server =
        Server::new_from_db(vec![("alice".to_string(), stored.clone())]).unwrap();
    let wrong = server.host_key(&HostKeyRequest {
        username: "alice".to_string(),
        password: "wrongpass".to_string(),
    });
    assert!(matches!(
        wrong,
        Err(ApplicationError::UserError(UserError::Authentication(_)))
    ));
    let right = server
        .host_key(&HostKeyRequest {
            username: "alice".to_string(),
            password: "rightpass".to_string(),
        })
        .unwrap();
    assert_eq!(right.key, stored);
}

#[test]
fn host_key_rejects_unknown_user() {
    let stored = create_pass_hash("alice", "pw", "0123456789abcdef");
    let server = Server::new_from_db(vec![("alice".to_string(), stored)]).unwrap();
    let r = server.host_key(&HostKeyRequest {
        username: "bob".to_string(),
        password: "pw".to_string(),
    });
    assert!(matches!(
        r,
        Err(ApplicationError::UserError(UserError::Authentication(_)))
    ));
}

#[test]
fn server_refuses_empty_credential_table() {
    let r = Server::new_from_db(vec![]);
    assert!(matches!(
        r,
        Err(ApplicationError::UserError(UserError::MissingValues(_)))
    ));
}

#[test]
fn dispatch_refuses_unknown_session_key() {
    let stored = create_pass_hash("alice", "pw", "0123456789abcdef");
    let mut server = Server::new_from_db(vec![("alice".to_string(), stored)]).unwrap();
    let r = server.meta(
        &"not-a-key".to_string(),
        MetaRequest { states: vec![] },
    );
    assert!(matches!(r, Err(ApplicationError::InvalidHostKey(_))));
    let d = server.download(
        &"not-a-key".to_string(),
        DownloadRequest { filenames: vec![] },
    );
    assert!(matches!(d, Err(ApplicationError::InvalidHostKey(_))));
}

#[test]
fn dispatch_routes_to_the_keyed_user() {
    let ha = create_pass_hash("alice", "pa", "0123456789abcdef");
    let hb = create_pass_hash("bob", "pb", "fedcba9876543210");
    let mut server = Server::new_from_db(vec![
        ("alice".to_string(), ha.clone()),
        ("bob".to_string(), hb.clone()),
    ])
    .unwrap();
    let f = pfile("only-alice.md", "/a.md", 1, 1, "secret");
    server
        .upload(&ha, UploadRequest {
            files: vec![f.clone()],
        })
        .unwrap();
    // alice sees the file
    let got = server
        .download(&ha, DownloadRequest {
            filenames: vec!["only-alice.md".to_string()],
        })
        .unwrap();
    assert_eq!(got.files[0], f);
    // bob's store is isolated and empty
    let missing = server.download(&hb, DownloadRequest {
        filenames: vec!["only-alice.md".to_string()],
    });
    assert!(matches!(missing, Err(ApplicationError::NotFound(_))));
}

#[test]
fn download_unknown_name_reports_not_found() {
    let db = DbManager::new();
    let r = db.download(DownloadRequest {
        filenames: vec!["nope.md".to_string()],
    });
    match r {
        Err(ApplicationError::NotFound(n)) => assert_eq!(n, "nope.md"),
        other => panic!("expected NotFound, got {:?}", other.is_ok()),
    }
}

#[test]
fn upload_refuses_exhausted_id_space() {
    // a store whose newest id is already the largest representable one
    // cannot take another file.
    let mut db = DbManager::new();
    db.db.meta.push(Meta {
        id: i32::MAX,
        fname: "full.md".to_string(),
        indexs: i32::MAX,
        paths: "/full.md".to_string(),
        states: FileAction::Upload,
        ctime: 1,
        mtime: 1,
    });
    db.db.content.push(ContentBlob {
        index: i32::MAX,
        content: "x".to_string(),
    });
    let r = db.upload(UploadRequest {
        files: vec![pfile("more.md", "/more.md", 1, 1, "y")],
    });
    assert!(matches!(r, Err(ApplicationError::Storage(_))));
}

#[test]
fn salt_is_sixteen_hex_chars() {
    let s = create_salt();
    assert_eq!(s.chars().count(), 16);
    assert!(s.chars().all(|c| c.is_ascii_hexdigit() && !c.is_ascii_uppercase()));
}

#[test]
fn pass_hash_matches_known_digest() {
    // the digest of the empty input is a published constant; the stored
    // credential is the digest followed by the (here empty) salt
    let h = create_pass_hash("", "", "");
    assert_eq!(
        h,
        "e3b0c44298fc1c149afbf4c8996fb92427ae41e4649b934ca495991b7852b855"
    );
    // the salt rides along as the suffix
    let h2 = create_pass_hash("a", "b", "c");
    assert_eq!(h2.len(), 65);
    assert!(h2.ends_with('c'));
    // sha256 of the concatenation "abc" is the classic test vector
    assert_eq!(
        &h2[..64],
        "ba7816bf8f01cfea414140de5dae2223b00361a396177a9cb410ff61f20015ad"
    );
}
