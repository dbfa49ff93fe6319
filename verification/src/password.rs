//! Passwords: one master password, and one password for each session that
//! is to be protected. Only Argon2 hashes of them are kept.

use vstd::prelude::*;
use argon2::{PasswordHasher, PasswordVerifier};
use crate::buckets::{keys_view, same_key};
use crate::scan::lowercase_text;
use crate::text::{same_text, trim, trimmed};

verus! {

/// The hash that is kept for the password of one session.
#[derive(Debug, PartialEq, Eq)]
pub struct SessionPassword {
    pub session: String,
    pub hash: String,
}

/// What is kept of the passwords.
#[derive(Debug, PartialEq, Eq)]
pub struct PasswordData {
    /// The hash of the master password, in PHC string format.
    pub hashed_password: String,
    /// The salt of the master password.
    pub salt: String,
    /// The hashes of the session passwords, each session once.
    pub session_passwords: Vec<SessionPassword>,
}

/// The passwords, and the name of the file in which they are kept.
#[derive(Debug, PartialEq, Eq)]
pub struct PasswordManager {
    pub password_file: String,
    pub password_data: Option<PasswordData>,
}

/// Why a password could not be set or checked.
#[derive(Clone, Copy, Debug, PartialEq, Eq, Structural)]
pub enum PasswordError {
    /// The password and its confirmation are not the same.
    Mismatch,
    /// The password could not be hashed with the given salt.
    Hashing,
    /// The hash that is kept is no hash in PHC string format.
    BadHash,
}

/// The Argon2 hash of a password with a salt, in PHC string format; `None`
/// where there is no such hash.
pub uninterp spec fn argon2_hash_text(password: Seq<char>, salt: Seq<char>) -> Option<Seq<char>>;

/// Whether Argon2 accepts a password for a hash in PHC string format;
/// `None` where the hash is not in that format.
pub uninterp spec fn argon2_accepts(password: Seq<char>, hash: Seq<char>) -> Option<bool>;

/// Hashes a password with `Argon2::default().hash_password` of the crate
/// `argon2`, with the salt read by `SaltString::from_b64`. `None` if the
/// salt is not accepted or the hashing fails. The result is a function of
/// the password and the salt alone; which function, this library takes from
/// that crate.
#[verifier::external_body]
fn argon2_hash(password: &str, salt: &str) -> (r: Option<String>)
    ensures
        match r {
            Some(h) => argon2_hash_text(password@, salt@) == Some(h@),
            None => argon2_hash_text(password@, salt@) is None,
        },
{
    let salt = argon2::password_hash::SaltString::from_b64(salt).ok()?;
    let hash = argon2::Argon2::default().hash_password(password.as_bytes(), &salt).ok()?;
    Some(hash.to_string())
}

/// Checks a password against a hash with `PasswordHash::new` and
/// `Argon2::default().verify_password` of the crate `argon2`. `None` if the
/// hash cannot be read. The result is a function of the password and the
/// hash alone; which function, this library takes from that crate.
#[verifier::external_body]
fn argon2_verify(password: &str, hash: &str) -> (r: Option<bool>)
    ensures
        r == argon2_accepts(password@, hash@),
{
    let parsed = argon2::PasswordHash::new(hash).ok()?;
    Some(argon2::Argon2::default().verify_password(password.as_bytes(), &parsed).is_ok())
}

/// Makes a fresh random salt with `SaltString::generate` of the crate
/// `argon2`, from `rand::thread_rng`. Nothing is promised of it.
#[verifier::external_body]
fn fresh_salt() -> (r: String) {
    argon2::password_hash::SaltString::generate(&mut rand::thread_rng()).to_string()
}

/// Some session of `s` has the name `n`.
pub open spec fn has_session(s: Seq<SessionPassword>, n: Seq<char>) -> bool {
    exists|i: int| 0 <= i < s.len() && (#[trigger] s[i]).session@ == n
}

/// No session stands twice.
pub open spec fn sessions_distinct(s: Seq<SessionPassword>) -> bool {
    forall|i: int, j: int|
        0 <= i < s.len() && 0 <= j < s.len() && i != j ==> (#[trigger] s[i]).session@ != (
        #[trigger] s[j]).session@
}

/// The map from each protected session to the hash of its password.
pub open spec fn sessions_view(s: Seq<SessionPassword>) -> Map<Seq<char>, Seq<char>> {
    Map::new(
        |n: Seq<char>| has_session(s, n),
        |n: Seq<char>| s[choose|i: int| 0 <= i < s.len() && (#[trigger] s[i]).session@ == n].hash@,
    )
}

/// The model of what is kept of the passwords.
pub struct PasswordModel {
    pub hashed_password: Seq<char>,
    pub salt: Seq<char>,
    pub sessions: Map<Seq<char>, Seq<char>>,
}

impl View for PasswordData {
    type V = PasswordModel;

    open spec fn view(&self) -> PasswordModel {
        PasswordModel {
            hashed_password: self.hashed_password@,
            salt: self.salt@,
            sessions: sessions_view(self.session_passwords@),
        }
    }
}

impl View for PasswordManager {
    type V = Option<PasswordModel>;

    open spec fn view(&self) -> Option<PasswordModel> {
        match self.password_data {
            Some(data) => Some(data@),
            None => None,
        }
    }
}

proof fn lemma_session_lookup(s: Seq<SessionPassword>, i: int)
    requires
        sessions_distinct(s),
        0 <= i < s.len(),
    ensures
        sessions_view(s).dom().contains(s[i].session@),
        sessions_view(s)[s[i].session@] == s[i].hash@,
{
    assert(has_session(s, s[i].session@));
}

proof fn lemma_session_update(s: Seq<SessionPassword>, p: int, x: SessionPassword)
    requires
        sessions_distinct(s),
        0 <= p < s.len(),
        s[p].session@ == x.session@,
    ensures
        sessions_distinct(s.update(p, x)),
        sessions_view(s.update(p, x)) == sessions_view(s).insert(x.session@, x.hash@),
{
    let t = s.update(p, x);
    assert forall|i: int, j: int| 0 <= i < t.len() && 0 <= j < t.len() && i != j implies (
    #[trigger] t[i]).session@ != (#[trigger] t[j]).session@ by {
        assert(t[i].session@ == s[i].session@ && t[j].session@ == s[j].session@);
    }
    let a = sessions_view(t);
    let b = sessions_view(s).insert(x.session@, x.hash@);
    assert forall|n: Seq<char>| a.dom().contains(n) <==> b.dom().contains(n) by {
        if has_session(t, n) {
            let i = choose|i: int| 0 <= i < t.len() && (#[trigger] t[i]).session@ == n;
            assert(s[i].session@ == n);
        }
        if b.dom().contains(n) {
            if n == x.session@ {
                assert(t[p].session@ == n);
            } else {
                let i = choose|i: int| 0 <= i < s.len() && (#[trigger] s[i]).session@ == n;
                assert(t[i].session@ == n);
            }
        }
    }
    assert forall|n: Seq<char>| a.dom().contains(n) implies a[n] == b[n] by {
        let i = choose|i: int| 0 <= i < t.len() && (#[trigger] t[i]).session@ == n;
        lemma_session_lookup(t, i);
        if i != p {
            lemma_session_lookup(s, i);
            assert(s[i].session@ != s[p].session@);
        }
    }
    assert(a =~= b);
}

proof fn lemma_session_push(s: Seq<SessionPassword>, x: SessionPassword)
    requires
        sessions_distinct(s),
        !has_session(s, x.session@),
    ensures
        sessions_distinct(s.push(x)),
        sessions_view(s.push(x)) == sessions_view(s).insert(x.session@, x.hash@),
{
    let t = s.push(x);
    assert forall|i: int, j: int| 0 <= i < t.len() && 0 <= j < t.len() && i != j implies (
    #[trigger] t[i]).session@ != (#[trigger] t[j]).session@ by {
        if i < s.len() {
            assert(t[i] == s[i]);
        }
        if j < s.len() {
            assert(t[j] == s[j]);
        }
    }
    let a = sessions_view(t);
    let b = sessions_view(s).insert(x.session@, x.hash@);
    assert forall|n: Seq<char>| a.dom().contains(n) <==> b.dom().contains(n) by {
        if has_session(t, n) {
            let i = choose|i: int| 0 <= i < t.len() && (#[trigger] t[i]).session@ == n;
            if i < s.len() {
                assert(s[i].session@ == n);
            }
        }
        if b.dom().contains(n) {
            if n == x.session@ {
                assert(t[s.len() as int].session@ == n);
            } else {
                let i = choose|i: int| 0 <= i < s.len() && (#[trigger] s[i]).session@ == n;
                assert(t[i].session@ == n);
            }
        }
    }
    assert forall|n: Seq<char>| a.dom().contains(n) implies a[n] == b[n] by {
        let i = choose|i: int| 0 <= i < t.len() && (#[trigger] t[i]).session@ == n;
        lemma_session_lookup(t, i);
        if i < s.len() {
            assert(t[i] == s[i]);
            lemma_session_lookup(s, i);
        }
    }
    assert(a =~= b);
}

proof fn lemma_session_remove(s: Seq<SessionPassword>, p: int)
    requires
        sessions_distinct(s),
        0 <= p < s.len(),
    ensures
        sessions_distinct(s.remove(p)),
        sessions_view(s.remove(p)) == sessions_view(s).remove(s[p].session@),
{
    let t = s.remove(p);
    assert forall|i: int| 0 <= i < t.len() implies (#[trigger] t[i]) == s[if i < p {
        i
    } else {
        i + 1
    }] by {}
    assert forall|i: int, j: int| 0 <= i < t.len() && 0 <= j < t.len() && i != j implies (
    #[trigger] t[i]).session@ != (#[trigger] t[j]).session@ by {
        let a = if i < p {
            i
        } else {
            i + 1
        };
        let b = if j < p {
            j
        } else {
            j + 1
        };
        assert(s[a].session@ != s[b].session@);
    }
    let x = sessions_view(t);
    let y = sessions_view(s).remove(s[p].session@);
    assert forall|n: Seq<char>| x.dom().contains(n) <==> y.dom().contains(n) by {
        if has_session(t, n) {
            let i = choose|i: int| 0 <= i < t.len() && (#[trigger] t[i]).session@ == n;
            let a = if i < p {
                i
            } else {
                i + 1
            };
            assert(s[a].session@ == n);
            assert(s[a].session@ != s[p].session@);
        }
        if y.dom().contains(n) {
            let i = choose|i: int| 0 <= i < s.len() && (#[trigger] s[i]).session@ == n;
            if i < p {
                assert(t[i].session@ == n);
            } else {
                assert(t[i - 1].session@ == n);
            }
        }
    }
    assert forall|n: Seq<char>| x.dom().contains(n) implies x[n] == y[n] by {
        let i = choose|i: int| 0 <= i < t.len() && (#[trigger] t[i]).session@ == n;
        lemma_session_lookup(t, i);
        let a = if i < p {
            i
        } else {
            i + 1
        };
        lemma_session_lookup(s, a);
    }
    assert(x =~= y);
}

/// What is kept after the master password was set with a salt: `None` if
/// the password cannot be hashed with the salt.
pub open spec fn master_set(password: Seq<char>, salt: Seq<char>) -> Option<PasswordModel> {
    match argon2_hash_text(trimmed(password), salt) {
        Some(hash) => Some(PasswordModel { hashed_password: hash, salt, sessions: Map::empty() }),
        None => None,
    }
}

impl PasswordManager {
    /// No session stands twice.
    pub open spec fn wf(self) -> bool {
        self.password_data matches Some(data) ==> sessions_distinct(data.session_passwords@)
    }

    /// The passwords as they were found in the password file; `None` if
    /// there is no such file or it cannot be read.
    pub fn new(found: Option<PasswordData>) -> (r: PasswordManager)
        ensures
            r.password_data == found,
            r.password_file@ == "passwords.json"@,
    {
        PasswordManager { password_file: "passwords.json".to_owned(), password_data: found }
    }

    /// Whether a master password is set.
    pub fn is_master_password_set(&self) -> (r: bool)
        ensures
            r == self@ is Some,
    {
        self.password_data.is_some()
    }

    /// Sets the master password, hashed with the given salt. White space
    /// around the password and around its confirmation does not count. All
    /// session passwords are forgotten. Nothing changes if the two differ or
    /// the password cannot be hashed.
    pub fn set_master_password_with_salt(&mut self, password: &str, confirm: &str, salt: &str) -> (r:
        Result<(), PasswordError>)
        requires
            old(self).wf(),
        ensures
            final(self).wf(),
            final(self).password_file == old(self).password_file,
            match r {
                Ok(()) => trimmed(password@) == trimmed(confirm@) && final(self)@ == master_set(
                    password@,
                    salt@,
                ) && final(self)@ is Some,
                Err(e) => final(self).password_data == old(self).password_data && e == if trimmed(
                    password@,
                ) != trimmed(confirm@) {
                    PasswordError::Mismatch
                } else {
                    PasswordError::Hashing
                } && (e == PasswordError::Hashing ==> master_set(password@, salt@) is None),
            },
    {
        let password = trim(password);
        if !same_text(password, trim(confirm)) {
            return Err(PasswordError::Mismatch);
        }
        match argon2_hash(password, salt) {
            Some(hash) => {
                let sessions: Vec<SessionPassword> = Vec::new();
                assert(sessions_view(sessions@) =~= Map::<Seq<char>, Seq<char>>::empty());
                self.password_data = Some(
                    PasswordData {
                        hashed_password: hash,
                        salt: salt.to_owned(),
                        session_passwords: sessions,
                    },
                );
                Ok(())
            },
            None => Err(PasswordError::Hashing),
        }
    }

    /// Sets the master password, hashed with a fresh random salt. White
    /// space around the password and around its confirmation does not
    /// count. All session passwords are forgotten. Nothing changes if the
    /// two differ or the password cannot be hashed.
    pub fn set_master_password(&mut self, password: &str, confirm: &str) -> (r: Result<
        (),
        PasswordError,
    >)
        requires
            old(self).wf(),
        ensures
            final(self).wf(),
            final(self).password_file == old(self).password_file,
            trimmed(password@) != trimmed(confirm@) ==> r == Err::<(), PasswordError>(
                PasswordError::Mismatch,
            ),
            match r {
                Ok(()) => trimmed(password@) == trimmed(confirm@) && exists|salt: Seq<char>|
                    final(self)@ == #[trigger] master_set(password@, salt) && final(self)@ is Some,
                Err(e) => final(self).password_data == old(self).password_data,
            },
    {
        let salt = fresh_salt();
        self.set_master_password_with_salt(password, confirm, salt.as_str())
    }

    /// Whether a password is the master password. White space around the
    /// password does not count. Every password passes if no master password
    /// is set.
    pub fn verify_master_password(&self, password: &str) -> (r: Result<bool, PasswordError>)
        ensures
            r == match self@ {
                Some(data) => match argon2_accepts(trimmed(password@), data.hashed_password) {
                    Some(accepted) => Ok(accepted),
                    None => Err(PasswordError::BadHash),
                },
                None => Ok(true),
            },
    {
        match &self.password_data {
            Some(data) => match argon2_verify(trim(password), data.hashed_password.as_str()) {
                Some(accepted) => Ok(accepted),
                None => Err(PasswordError::BadHash),
            },
            None => Ok(true),
        }
    }

    /// The position of a session among the protected ones.
    fn session_position(&self, session_name: &str) -> (r: Option<usize>)
        requires
            self.wf(),
            self.password_data is Some,
        ensures
            match r {
                Some(i) => i < self.password_data->0.session_passwords@.len()
                    && self.password_data->0.session_passwords@[i as int].session@ == session_name@
                    && self@->0.sessions.dom().contains(session_name@) && self@->0.sessions[session_name@]
                    == self.password_data->0.session_passwords@[i as int].hash@,
                None => !self@->0.sessions.dom().contains(session_name@),
            },
    {
        match &self.password_data {
            Some(data) => {
                let mut i: usize = 0;
                while i < data.session_passwords.len()
                    invariant
                        i <= data.session_passwords.len(),
                        self.password_data == Some(*data),
                        sessions_distinct(data.session_passwords@),
                        forall|j: int|
                            0 <= j < i ==> (#[trigger] data.session_passwords@[j]).session@
                                != session_name@,
                    decreases data.session_passwords.len() - i,
                {
                    if same_key(data.session_passwords[i].session.as_str(), session_name) {
                        proof {
                            lemma_session_lookup(data.session_passwords@, i as int);
                        }
                        return Some(i);
                    }
                    i += 1;
                }
                None
            },
            None => None,
        }
    }

    /// Sets the password of a session, hashed with the given salt, in place
    /// of the one that was set. White space around the password and around
    /// its confirmation does not count. Nothing happens if no master
    /// password is set. Returns whether a password was set.
    pub fn set_session_password_with_salt(
        &mut self,
        session_name: &str,
        password: &str,
        confirm: &str,
        salt: &str,
    ) -> (r: Result<bool, PasswordError>)
        requires
            old(self).wf(),
        ensures
            final(self).wf(),
            final(self).password_file == old(self).password_file,
            match old(self)@ {
                None => r == Ok::<bool, PasswordError>(false) && final(self).password_data == old(self).password_data,
                Some(before) => if trimmed(password@) != trimmed(confirm@) {
                    r == Err::<bool, PasswordError>(PasswordError::Mismatch) && final(self).password_data == old(self).password_data
                } else {
                    match argon2_hash_text(trimmed(password@), salt@) {
                        Some(hash) => r == Ok::<bool, PasswordError>(true) && final(self)@ == Some(
                            PasswordModel {
                                sessions: before.sessions.insert(session_name@, hash),
                                ..before
                            },
                        ),
                        None => r == Err::<bool, PasswordError>(PasswordError::Hashing) && final(self).password_data == old(self).password_data,
                    }
                },
            },
    {
        if self.password_data.is_none() {
            return Ok(false);
        }
        let password = trim(password);
        if !same_text(password, trim(confirm)) {
            return Err(PasswordError::Mismatch);
        }
        let hash = match argon2_hash(password, salt) {
            Some(hash) => hash,
            None => {
                return Err(PasswordError::Hashing);
            },
        };
        let position = self.session_position(session_name);
        let entry = SessionPassword { session: session_name.to_owned(), hash };
        let mut data = self.password_data.take().unwrap();
        match position {
            Some(i) => {
                proof {
                    lemma_session_update(data.session_passwords@, i as int, entry);
                }
                data.session_passwords.set(i, entry);
            },
            None => {
                proof {
                    lemma_session_push(data.session_passwords@, entry);
                }
                data.session_passwords.push(entry);
            },
        }
        self.password_data = Some(data);
        Ok(true)
    }

    /// Sets the password of a session, hashed with a fresh random salt.
    /// White space around the password and around its confirmation does not
    /// count. Nothing happens if no master password is set. Returns whether
    /// a password was set.
    pub fn set_session_password(&mut self, session_name: &str, password: &str, confirm: &str) -> (r:
        Result<bool, PasswordError>)
        requires
            old(self).wf(),
        ensures
            final(self).wf(),
            final(self).password_file == old(self).password_file,
            match old(self)@ {
                None => r == Ok::<bool, PasswordError>(false) && final(self).password_data == old(self).password_data,
                Some(before) => if trimmed(password@) != trimmed(confirm@) {
                    r == Err::<bool, PasswordError>(PasswordError::Mismatch) && final(self).password_data == old(self).password_data
                } else {
                    match r {
                        Ok(set) => set && exists|salt: Seq<char>|
                            (#[trigger] argon2_hash_text(trimmed(password@), salt)) matches Some(
                                hash,
                            ) && final(self)@ == Some(
                                PasswordModel {
                                    sessions: before.sessions.insert(session_name@, hash),
                                    ..before
                                },
                            ),
                        Err(e) => e == PasswordError::Hashing && final(self).password_data == old(self).password_data,
                    }
                },
            },
    {
        let salt = fresh_salt();
        self.set_session_password_with_salt(session_name, password, confirm, salt.as_str())
    }

    /// Whether a password is the password of a session. White space around
    /// the password does not count. Every password passes if no master
    /// password is set or the session is not protected.
    pub fn verify_session_password(&self, session_name: &str, password: &str) -> (r: Result<
        bool,
        PasswordError,
    >)
        requires
            self.wf(),
        ensures
            r == match self@ {
                Some(data) => if data.sessions.dom().contains(session_name@) {
                    match argon2_accepts(trimmed(password@), data.sessions[session_name@]) {
                        Some(accepted) => Ok(accepted),
                        None => Err(PasswordError::BadHash),
                    }
                } else {
                    Ok(true)
                },
                None => Ok(true),
            },
    {
        if self.password_data.is_none() {
            return Ok(true);
        }
        match self.session_position(session_name) {
            Some(i) => {
                let data = self.password_data.as_ref().unwrap();
                match argon2_verify(trim(password), data.session_passwords[i].hash.as_str()) {
                    Some(accepted) => Ok(accepted),
                    None => Err(PasswordError::BadHash),
                }
            },
            None => Ok(true),
        }
    }

    /// Forgets the password of a session. Returns whether the session was
    /// protected.
    pub fn remove_session_password(&mut self, session_name: &str) -> (removed: bool)
        requires
            old(self).wf(),
        ensures
            final(self).wf(),
            final(self).password_file == old(self).password_file,
            match old(self)@ {
                None => !removed && final(self).password_data == old(self).password_data,
                Some(before) => removed == before.sessions.dom().contains(session_name@) && final(self)@ == Some(
                    PasswordModel { sessions: before.sessions.remove(session_name@), ..before },
                ),
            },
    {
        if self.password_data.is_none() {
            return false;
        }
        let position = self.session_position(session_name);
        match position {
            Some(i) => {
                let mut data = self.password_data.take().unwrap();
                proof {
                    lemma_session_remove(data.session_passwords@, i as int);
                }
                data.session_passwords.remove(i);
                self.password_data = Some(data);
                true
            },
            None => {
                proof {
                    let before = self@->0;
                    assert(before.sessions.remove(session_name@) =~= before.sessions);
                }
                false
            },
        }
    }

    /// The sessions that are protected, each once, in the order in which
    /// they were first protected.
    pub fn list_protected_sessions(&self) -> (r: Vec<String>)
        requires
            self.wf(),
        ensures
            keys_view(r@).no_duplicates(),
            forall|n: Seq<char>|
                keys_view(r@).contains(n) <==> (self@ matches Some(data) && data.sessions.dom().contains(
                    n,
                )),
            match self.password_data {
                Some(data) => r@.len() == data.session_passwords@.len() && forall|i: int|
                    0 <= i < r@.len() ==> (#[trigger] r@[i])@ == data.session_passwords@[i].session@,
                None => r@.len() == 0,
            },
    {
        let mut out: Vec<String> = Vec::new();
        match &self.password_data {
            Some(data) => {
                let mut i: usize = 0;
                while i < data.session_passwords.len()
                    invariant
                        i <= data.session_passwords.len(),
                        out@.len() == i,
                        forall|j: int|
                            0 <= j < i ==> (#[trigger] out@[j])@
                                == data.session_passwords@[j].session@,
                    decreases data.session_passwords.len() - i,
                {
                    out.push(data.session_passwords[i].session.clone());
                    i += 1;
                }
                proof {
                    let names = keys_view(out@);
                    let s = data.session_passwords@;
                    assert forall|n: Seq<char>| names.contains(n) <==> has_session(s, n) by {
                        if names.contains(n) {
                            let j = choose|j: int| 0 <= j < names.len() && names[j] == n;
                            assert(s[j].session@ == n);
                        }
                        if has_session(s, n) {
                            let j = choose|j: int|
                                0 <= j < s.len() && (#[trigger] s[j]).session@ == n;
                            assert(names[j] == n);
                        }
                    }
                    assert forall|a: int, b: int| 0 <= a < names.len() && 0 <= b < names.len() && a
                        != b implies names[a] != names[b] by {
                        assert(s[a].session@ != s[b].session@);
                    }
                }
            },
            None => {},
        }
        out
    }

    /// Sets a new master password, with the given salt, if `current` is the
    /// master password now. Returns whether it is.
    pub fn change_master_password_with_salt(
        &mut self,
        current: &str,
        password: &str,
        confirm: &str,
        salt: &str,
    ) -> (r: Result<bool, PasswordError>)
        requires
            old(self).wf(),
        ensures
            final(self).wf(),
            final(self).password_file == old(self).password_file,
            match old(self).verify_spec(current@) {
                Err(e) => r == Err::<bool, PasswordError>(e) && final(self).password_data == old(self).password_data,
                Ok(false) => r == Ok::<bool, PasswordError>(false) && final(self).password_data
                    == old(self).password_data,
                Ok(true) => match r {
                    Ok(changed) => changed && trimmed(password@) == trimmed(confirm@) && final(self)@ == master_set(password@, salt@) && final(self)@ is Some,
                    Err(e) => final(self).password_data == old(self).password_data && e
                        != PasswordError::BadHash,
                },
            },
    {
        match self.verify_master_password(current) {
            Err(e) => Err(e),
            Ok(false) => Ok(false),
            Ok(true) => match self.set_master_password_with_salt(password, confirm, salt) {
                Ok(()) => Ok(true),
                Err(e) => Err(e),
            },
        }
    }

    /// What a check of `password` against the master password gives.
    pub open spec fn verify_spec(self, password: Seq<char>) -> Result<bool, PasswordError> {
        match self@ {
            Some(data) => match argon2_accepts(trimmed(password), data.hashed_password) {
                Some(accepted) => Ok(accepted),
                None => Err(PasswordError::BadHash),
            },
            None => Ok(true),
        }
    }

    /// Sets a new master password, with a fresh random salt, if `current`
    /// is the master password now. Returns whether it is.
    pub fn change_master_password(&mut self, current: &str, password: &str, confirm: &str) -> (r:
        Result<bool, PasswordError>)
        requires
            old(self).wf(),
        ensures
            final(self).wf(),
            final(self).password_file == old(self).password_file,
            match old(self).verify_spec(current@) {
                Err(e) => r == Err::<bool, PasswordError>(e) && final(self).password_data == old(self).password_data,
                Ok(false) => r == Ok::<bool, PasswordError>(false) && final(self).password_data
                    == old(self).password_data,
                Ok(true) => match r {
                    Ok(changed) => changed && trimmed(password@) == trimmed(confirm@) && final(self)@ is Some,
                    Err(e) => final(self).password_data == old(self).password_data && e
                        != PasswordError::BadHash,
                },
            },
    {
        let salt = fresh_salt();
        self.change_master_password_with_salt(current, password, confirm, salt.as_str())
    }

    /// Forgets every password if the answer, without the white space around
    /// it and in lower case, is `yes`. Returns whether it is.
    pub fn reset_all_passwords(&mut self, answer: &str) -> (reset: bool)
        ensures
            final(self).password_file == old(self).password_file,
            reset == (lowercase_text(trimmed(answer@)) == "yes"@),
            final(self).password_data == if reset {
                None::<PasswordData>
            } else {
                old(self).password_data
            },
    {
        if crate::scan::lowercase_is(trim(answer), "yes") {
            self.password_data = None;
            true
        } else {
            false
        }
    }
}

} // verus!
