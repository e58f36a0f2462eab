//! Credential handling: salted password hashing and the registered-user
//! table. The stored credential is the digest followed by the salt, the salt
//! being a fixed-length (16-character) suffix; on a successful check the
//! stored credential itself becomes the session key.

use crate::error::UserError;
use rand::RngCore;
use sha2::{Digest, Sha256};
use vstd::prelude::*;
use vstd::string::StrSliceExecFns;
use vstd::string::StringExecFns;

verus! {

/// The hex digest of the given user name, password and salt, as sha2
/// computes it. Stated by name only: the digest itself is a fixed function
/// of the three inputs.
pub uninterp spec fn digest_hex_of(
    username: Seq<char>,
    password: Seq<char>,
    salt: Seq<char>,
) -> Seq<char>;

/// The lowercase hex digit for a value below 16.
pub open spec fn hex_digit(n: int) -> char {
    if n == 0 {
        '0'
    } else if n == 1 {
        '1'
    } else if n == 2 {
        '2'
    } else if n == 3 {
        '3'
    } else if n == 4 {
        '4'
    } else if n == 5 {
        '5'
    } else if n == 6 {
        '6'
    } else if n == 7 {
        '7'
    } else if n == 8 {
        '8'
    } else if n == 9 {
        '9'
    } else if n == 10 {
        'a'
    } else if n == 11 {
        'b'
    } else if n == 12 {
        'c'
    } else if n == 13 {
        'd'
    } else if n == 14 {
        'e'
    } else {
        'f'
    }
}

/// Lowercase hex encoding: two digits per byte, in input order.
pub open spec fn hex_of(b: Seq<u8>) -> Seq<char> {
    Seq::new(
        b.len() * 2,
        |i: int|
            if i % 2 == 0 {
                hex_digit(b[i / 2] as int / 16)
            } else {
                hex_digit(b[i / 2] as int % 16)
            },
    )
}

/// Relies on rand's `OsRng` (`RngCore::fill_bytes`): fills the buffer from
/// the operating system's randomness source; nothing holds of the bytes
/// beyond their number.
#[verifier::external_body]
fn os_random_bytes_8() -> (r: Vec<u8>)
    ensures
        r@.len() == 8,
{
    let mut key = [0u8; 8];
    rand::rngs::OsRng.fill_bytes(&mut key);
    key.to_vec()
}

/// Relies on `hex::encode`: lowercase hex, exactly two digits per input
/// byte, in input order.
#[verifier::external_body]
fn hex_encode(b: &Vec<u8>) -> (r: String)
    ensures
        r@ == hex_of(b@),
{
    hex::encode(b)
}

/// Relies on sha2's `Sha256` (`Digest::update` / `finalize`): the digest
/// depends on the fed bytes alone and is 32 bytes long, printed here as 64
/// lowercase hex characters.
#[verifier::external_body]
fn sha256_hex(username: &str, password: &str, salt: &str) -> (r: String)
    ensures
        r@ == digest_hex_of(username@, password@, salt@),
        r@.len() == 64,
{
    let mut hasher = Sha256::new();
    hasher.update(username);
    hasher.update(password);
    hasher.update(salt);
    let result = hasher.finalize();
    format!("{result:x}")
}

/// A fresh random salt: 16 hex characters for 8 random bytes.
pub fn create_salt() -> (r: String)
    ensures
        r@.len() == 16,
{
    let key = os_random_bytes_8();
    hex_encode(&key)
}

/// The stored shape of a credential: digest first, then the salt as a
/// 16-character suffix.
pub fn create_pass_hash(username: &str, password: &str, salt: &str) -> (r: String)
    ensures
        r@ == digest_hex_of(username@, password@, salt@) + salt@,
        r@.len() == 64 + salt@.len(),
{
    let digest = sha256_hex(username, password, salt);
    digest.concat(salt)
}

/// The trailing 16 characters of a stored credential: its salt.
pub open spec fn salt_of(stored: Seq<char>) -> Seq<char> {
    stored.subrange(stored.len() - 16, stored.len() as int)
}

/// Whether the presented name and password derive exactly the stored
/// credential, under the salt the credential carries.
pub open spec fn credential_matches(
    username: Seq<char>,
    password: Seq<char>,
    stored: Seq<char>,
) -> bool {
    &&& stored.len() >= 16
    &&& stored == digest_hex_of(username, password, salt_of(stored)) + salt_of(stored)
}

/// Recompute the credential a presented password yields under the salt that
/// the stored credential carries (its last 16 characters).
pub fn compute_hash(username: &str, password: &str, hash: &str) -> (r: String)
    requires
        hash@.len() >= 16,
    ensures
        r@ == digest_hex_of(username@, password@, salt_of(hash@)) + salt_of(hash@),
        r@.len() == 64 + 16,
{
    let n = hash.unicode_len();
    let salt = hash.substring_char(n - 16, n);
    create_pass_hash(username, password, salt)
}

/// The registered-user table: one (name, stored credential) row per user,
/// names unique as the table's primary key demands.
pub struct AuthStore {
    pub entries: Vec<(String, String)>,
}

/// The position of the row named `name`, or -1 when there is none. With
/// unique names this is the only such row.
pub open spec fn user_idx(entries: Seq<(String, String)>, name: Seq<char>) -> int
    decreases entries.len(),
{
    if entries.len() == 0 {
        -1
    } else if entries.last().0@ == name {
        entries.len() - 1
    } else {
        user_idx(entries.drop_last(), name)
    }
}

/// Whether some row is named `name`.
pub open spec fn has_user(entries: Seq<(String, String)>, name: Seq<char>) -> bool {
    exists|i: int| 0 <= i < entries.len() && entries[i].0@ == name
}

/// Where the user index points, and that it finds a row exactly when one
/// exists.
pub proof fn lemma_user_idx(entries: Seq<(String, String)>, name: Seq<char>)
    ensures
        -1 <= user_idx(entries, name) < entries.len(),
        user_idx(entries, name) >= 0 ==> entries[user_idx(entries, name)].0@ == name,
        (user_idx(entries, name) >= 0) <==> has_user(entries, name),
    decreases entries.len(),
{
    if entries.len() > 0 && entries.last().0@ != name {
        lemma_user_idx(entries.drop_last(), name);
        if user_idx(entries, name) >= 0 {
            assert(entries.drop_last()[user_idx(entries, name)] == entries[user_idx(
                entries,
                name,
            )]);
        }
        if has_user(entries, name) {
            let i = choose|i: int| 0 <= i < entries.len() && entries[i].0@ == name;
            assert(i < entries.len() - 1);
            assert(entries.drop_last()[i] == entries[i]);
        }
    }
}

/// Find the row named `name`.
fn find_user(entries: &Vec<(String, String)>, name: &String) -> (r: Option<usize>)
    ensures
        match r {
            Some(i) => user_idx(entries@, name@) == i,
            None => user_idx(entries@, name@) == -1,
        },
{
    let mut found: Option<usize> = None;
    let mut j: usize = 0;
    while j < entries.len()
        invariant
            j <= entries@.len(),
            match found {
                Some(i) => user_idx(entries@.take(j as int), name@) == i,
                None => user_idx(entries@.take(j as int), name@) == -1,
            },
        decreases entries@.len() - j,
    {
        proof {
            assert(entries@.take(j as int + 1).drop_last() =~= entries@.take(j as int));
            assert(entries@.take(j as int + 1).last() == entries@[j as int]);
        }
        if entries[j].0 == *name {
            found = Some(j);
        }
        j += 1;
    }
    proof {
        assert(entries@.take(entries@.len() as int) =~= entries@);
    }
    found
}

impl AuthStore {
    /// Names are unique: the table's primary key.
    pub open spec fn wf(self) -> bool {
        forall|i: int, j: int|
            0 <= i < j < self.entries@.len() ==> (#[trigger] self.entries@[i]).0@ != (
            #[trigger] self.entries@[j]).0@
    }

    /// An empty table.
    pub fn new() -> (r: Self)
        ensures
            r.entries@ =~= Seq::<(String, String)>::empty(),
            r.wf(),
    {
        AuthStore { entries: Vec::new() }
    }
}

/// Whether a user of that name is registered.
pub fn user_exists(username: &str, store: &AuthStore) -> (r: bool)
    ensures
        r == has_user(store.entries@, username@),
{
    let name = username.to_owned();
    let found = find_user(&store.entries, &name);
    proof {
        lemma_user_idx(store.entries@, username@);
    }
    match found {
        Some(_) => true,
        None => false,
    }
}

/// Every registered name, in table order; nothing when the table is empty.
pub fn user_list(store: &AuthStore) -> (r: Option<Vec<String>>)
    ensures
        match r {
            None => store.entries@.len() == 0,
            Some(v) => v@.len() == store.entries@.len() && v@.len() > 0 && (forall|i: int|
                0 <= i < v@.len() ==> v@[i] == (#[trigger] store.entries@[i]).0),
        },
{
    if store.entries.len() == 0 {
        return None;
    }
    let mut v: Vec<String> = Vec::new();
    let mut i: usize = 0;
    while i < store.entries.len()
        invariant
            i <= store.entries@.len(),
            v@.len() == i,
            forall|j: int| 0 <= j < i ==> v@[j] == (#[trigger] store.entries@[j]).0,
        decreases store.entries@.len() - i,
    {
        v.push(store.entries[i].0.clone());
        i += 1;
    }
    Some(v)
}

/// Register a new user: `args` carries the name and the password. A fresh
/// salt is drawn, the credential derived and the row appended; a name
/// already present is refused, as the table's primary key would be.
pub fn add_user(args: &Vec<String>, store: &mut AuthStore) -> (r: Result<(), UserError>)
    requires
        args@.len() >= 2,
        old(store).wf(),
    ensures
        final(store).wf(),
        (r is Ok) <==> !has_user(old(store).entries@, args@[0]@),
        r is Ok ==> {
            &&& final(store).entries@.len() == old(store).entries@.len() + 1
            &&& forall|i: int|
                0 <= i < old(store).entries@.len() ==> final(store).entries@[i] == old(
                    store,
                ).entries@[i]
            &&& final(store).entries@.last().0 == args@[0]
            &&& exists|s: Seq<char>|
                s.len() == 16 && final(store).entries@.last().1@ == digest_hex_of(
                    args@[0]@,
                    args@[1]@,
                    s,
                ) + s
        },
        !(r is Ok) ==> *final(store) == *old(store),
{
    let username = &args[0];
    let password = &args[1];
    if user_exists(username.as_str(), store) {
        return Err(UserError::Duplicate(username.clone()));
    }
    let salt = create_salt();
    let pass_hash = create_pass_hash(username.as_str(), password.as_str(), salt.as_str());
    let ghost s = salt@;
    store.entries.push((username.clone(), pass_hash));
    proof {
        assert(final(store).entries@.last().1@ == digest_hex_of(args@[0]@, args@[1]@, s) + s);
    }
    Ok(())
}

/// Change a registered user's password: `args` carries the name and the new
/// password. A fresh salt is drawn and the row's credential replaced; an
/// unknown name changes nothing, silently.
pub fn passwd(args: &Vec<String>, store: &mut AuthStore) -> (r: Result<(), UserError>)
    requires
        args@.len() >= 2,
        old(store).wf(),
    ensures
        final(store).wf(),
        r is Ok,
        !has_user(old(store).entries@, args@[0]@) ==> *final(store) == *old(store),
        has_user(old(store).entries@, args@[0]@) ==> {
            let i = user_idx(old(store).entries@, args@[0]@);
            &&& final(store).entries@.len() == old(store).entries@.len()
            &&& forall|j: int|
                0 <= j < old(store).entries@.len() && j != i ==> final(store).entries@[j] == old(
                    store,
                ).entries@[j]
            &&& final(store).entries@[i].0 == old(store).entries@[i].0
            &&& exists|s: Seq<char>|
                s.len() == 16 && final(store).entries@[i].1@ == digest_hex_of(
                    args@[0]@,
                    args@[1]@,
                    s,
                ) + s
        },
{
    let username = &args[0];
    let password = &args[1];
    let found = find_user(&store.entries, username);
    proof {
        lemma_user_idx(store.entries@, username@);
    }
    match found {
        Some(i) => {
            let salt = create_salt();
            let pass_hash = create_pass_hash(
                username.as_str(),
                password.as_str(),
                salt.as_str(),
            );
            let ghost s = salt@;
            let name_kept = store.entries[i].0.clone();
            store.entries[i] = (name_kept, pass_hash);
            proof {
                assert(final(store).entries@[i as int].1@ == digest_hex_of(
                    args@[0]@,
                    args@[1]@,
                    s,
                ) + s);
            }
        },
        None => {},
    }
    Ok(())
}

/// Remove the row of that name, if any.
pub fn del_user(username: &str, store: &mut AuthStore) -> (r: Result<(), UserError>)
    requires
        old(store).wf(),
    ensures
        final(store).wf(),
        r is Ok,
        !has_user(old(store).entries@, username@) ==> *final(store) == *old(store),
        has_user(old(store).entries@, username@) ==> final(store).entries@ == old(
            store,
        ).entries@.remove(user_idx(old(store).entries@, username@)),
{
    let name = username.to_owned();
    let found = find_user(&store.entries, &name);
    proof {
        lemma_user_idx(store.entries@, username@);
    }
    match found {
        Some(i) => {
            store.entries.remove(i);
        },
        None => {},
    }
    Ok(())
}

} // verus!
