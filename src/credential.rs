//! The credential store: user records holding a salted Argon2i hash of the
//! password, never the password itself.

use vstd::prelude::*;
use vstd::utf8::{encode_utf8, is_ascii_chars};

verus! {

/// Why a credential operation failed.
#[derive(Debug, Clone, Copy, PartialEq, Eq, Structural)]
pub enum AuthError {
    UsernameTaken,
    NotFound,
    InvalidInput,
    StorageFailure,
}

/// A stored user: name, contact address, salt and password hash.
pub struct UserRecord {
    pub username: String,
    pub email: String,
    pub salt: String,
    pub password_hash: Vec<u8>,
}

/// Number of random bytes in a salt; the salt is stored as their hex digits.
pub const SALT_BYTES: usize = 16;

/// Fewest bytes a salt given to `create_user_with_salt` may have.
pub const MIN_SALT_BYTES: usize = 16;

/// Largest input, in bytes, that the key-derivation function accepts.
pub const MAX_KDF_INPUT: usize = 0xffff_ffff;

/// What Argon2i with argon2rs's default parameters makes of a password and a salt.
pub uninterp spec fn argon2i_of(password: Seq<char>, salt: Seq<char>) -> Seq<u8>;

/// Relies on `argon2rs::argon2i_simple`: the 32-byte Argon2i hash of the
/// password's and the salt's UTF-8 bytes, with the crate's default parameters.
/// It asserts a salt of 8 to 2^32-1 bytes and a password under 2^32 bytes.
#[verifier::external_body]
fn argon2i_hash(password: &str, salt: &str) -> (r: Vec<u8>)
    requires
        kdf_input_ok(password@),
        salt_ok(salt@),
    ensures
        r@ == argon2i_of(password@, salt@),
        r@.len() == 32,
{
    argon2rs::argon2i_simple(password, salt).to_vec()
}

/// Relies on `argon2rs::verifier::constant_eq`: equality of two byte strings,
/// in time that does not depend on where they differ.
#[verifier::external_body]
fn constant_eq(xs: &Vec<u8>, ys: &Vec<u8>) -> (r: bool)
    ensures
        r == (xs@ == ys@),
{
    argon2rs::verifier::constant_eq(xs.as_slice(), ys.as_slice())
}

/// Relies on `rand_pcg::Mcg128Xsl64::new` and its `RngCore::fill_bytes`:
/// `n` pseudo-random bytes from the generator seeded with `seed`.
#[verifier::external_body]
fn pcg_bytes(seed: u128, n: usize) -> (r: Vec<u8>)
    ensures
        r@.len() == n,
{
    let mut out = vec![0u8; n];
    rand_pcg::rand_core::RngCore::fill_bytes(&mut rand_pcg::Mcg128Xsl64::new(seed), &mut out);
    out
}

/// A password that the key-derivation function accepts: under 2^32 bytes.
pub open spec fn kdf_input_ok(password: Seq<char>) -> bool {
    encode_utf8(password).len() <= MAX_KDF_INPUT
}

/// A salt that the key-derivation function accepts: 8 to 2^32-1 bytes.
pub open spec fn salt_ok(salt: Seq<char>) -> bool {
    8 <= encode_utf8(salt).len() <= MAX_KDF_INPUT
}

/// A salt that the store accepts for a new user: at least 16 bytes, and no
/// more than the key-derivation function takes.
pub open spec fn salt_accepted(salt: Seq<char>) -> bool {
    MIN_SALT_BYTES <= encode_utf8(salt).len() <= MAX_KDF_INPUT
}

/// Whether `candidate` is the password that `rec` was made with.
pub open spec fn password_ok(rec: UserRecord, candidate: Seq<char>) -> bool {
    &&& kdf_input_ok(candidate)
    &&& salt_ok(rec.salt@)
    &&& argon2i_of(candidate, rec.salt@) == rec.password_hash@
}

/// The inputs that `create_user` rejects outright.
pub open spec fn invalid_signup(username: Seq<char>, password: Seq<char>) -> bool {
    username.len() == 0 || password.len() == 0 || !kdf_input_ok(password)
}

/// Whether some record in `users` has the name `name`.
pub open spec fn has_user(users: Seq<UserRecord>, name: Seq<char>) -> bool {
    exists|i: int| 0 <= i < users.len() && (#[trigger] users[i]).username@ == name
}

/// No two records share a name.
pub open spec fn names_unique(users: Seq<UserRecord>) -> bool {
    forall|i: int, j: int|
        0 <= i < users.len() && 0 <= j < users.len() && i != j ==> (#[trigger] users[i]).username@
            != (#[trigger] users[j]).username@
}

/// Two records with the same contents.
pub open spec fn same_record(a: UserRecord, b: UserRecord) -> bool {
    &&& a.username@ == b.username@
    &&& a.email@ == b.email@
    &&& a.salt@ == b.salt@
    &&& a.password_hash@ == b.password_hash@
}

/// `rec` is what `users` holds for `name`.
pub open spec fn loaded(users: Seq<UserRecord>, name: Seq<char>, rec: UserRecord) -> bool {
    exists|i: int|
        0 <= i < users.len() && (#[trigger] users[i]).username@ == name && same_record(
            users[i],
            rec,
        )
}

/// What signing up `username` does to the records `before`, giving `after` and `r`:
/// invalid input and a taken name leave the records alone; otherwise one
/// record is appended whose hash was made from `password`.
pub open spec fn signup_post(
    before: Seq<UserRecord>,
    after: Seq<UserRecord>,
    username: Seq<char>,
    email: Seq<char>,
    password: Seq<char>,
    r: Result<(), AuthError>,
) -> bool {
    if invalid_signup(username, password) {
        r == Err::<(), AuthError>(AuthError::InvalidInput) && after == before
    } else if has_user(before, username) {
        r == Err::<(), AuthError>(AuthError::UsernameTaken) && after == before
    } else {
        &&& r == Ok::<(), AuthError>(())
        &&& after.len() == before.len() + 1
        &&& after.subrange(0, before.len() as int) == before
        &&& after.last().username@ == username
        &&& after.last().email@ == email
        &&& after.last().password_hash@.len() == 32
        &&& password_ok(after.last(), password)
    }
}

/// The salt characters: the lower-case hex digits.
pub open spec fn hex_digits() -> Seq<char> {
    seq!['0', '1', '2', '3', '4', '5', '6', '7', '8', '9', 'a', 'b', 'c', 'd', 'e', 'f']
}

/// The hex digits of `b`, two per byte, high nibble first.
pub open spec fn hex_of(b: Seq<u8>) -> Seq<char>
    decreases b.len(),
{
    if b.len() == 0 {
        Seq::empty()
    } else {
        hex_of(b.drop_last()).push(hex_digits()[(b.last() / 16) as int]).push(
            hex_digits()[(b.last() % 16) as int],
        )
    }
}

fn hex_digit(n: u8) -> (c: char)
    requires
        n < 16,
    ensures
        c == hex_digits()[n as int],
{
    let digits: [char; 16] = ['0', '1', '2', '3', '4', '5', '6', '7', '8', '9', 'a', 'b', 'c', 'd', 'e', 'f'];
    assert(digits@ =~= hex_digits());
    digits[n as usize]
}

/// The lower-case hex encoding of `b`.
pub fn to_hex(b: &Vec<u8>) -> (r: String)
    ensures
        r@ == hex_of(b@),
        r@.len() == 2 * b@.len(),
        is_ascii_chars(r@),
{
    let mut out: Vec<char> = Vec::new();
    let mut i: usize = 0;
    while i < b.len()
        invariant
            0 <= i <= b@.len(),
            out@ == hex_of(b@.subrange(0, i as int)),
            out@.len() == 2 * i,
            is_ascii_chars(out@),
        decreases b@.len() - i,
    {
        let x = b[i];
        out.push(hex_digit(x / 16));
        out.push(hex_digit(x % 16));
        assert(b@.subrange(0, i + 1).drop_last() =~= b@.subrange(0, i as int));
        i = i + 1;
    }
    assert(b@.subrange(0, b@.len() as int) =~= b@);
    crate::text::string_of(&out)
}

/// Whether `candidate` is the password that `rec` was created with. A record
/// whose salt the key-derivation function refuses never matches.
pub fn verify_password(rec: &UserRecord, candidate: &str) -> (r: bool)
    ensures
        r == password_ok(*rec, candidate@),
        rec.password_hash@.len() != 32 ==> !r,
{
    if candidate.as_bytes().len() > MAX_KDF_INPUT {
        return false;
    }
    let salt = rec.salt.as_str();
    let n = salt.as_bytes().len();
    if n < 8 || n > MAX_KDF_INPUT {
        return false;
    }
    let h = argon2i_hash(candidate, salt);
    constant_eq(&h, &rec.password_hash)
}

/// The users known to the service, each with a salted password hash.
pub struct CredentialStore {
    users: Vec<UserRecord>,
}

impl CredentialStore {
    /// The records held, in order of creation.
    pub closed spec fn records(&self) -> Seq<UserRecord> {
        self.users@
    }

    /// No two records share a name.
    pub open spec fn wf(&self) -> bool {
        names_unique(self.records())
    }

    /// A store with no users.
    pub fn new() -> (r: CredentialStore)
        ensures
            r.wf(),
            r.records().len() == 0,
    {
        CredentialStore { users: Vec::new() }
    }

    /// Creates the user `username` with the given salt: `InvalidInput` for an
    /// empty name or password, a password too long to hash, or a salt of
    /// fewer than 16 bytes or too long to hash; `UsernameTaken` if the name is in use.
    pub fn create_user_with_salt(
        &mut self,
        username: String,
        email: String,
        password: &str,
        salt: String,
    ) -> (r: Result<(), AuthError>)
        requires
            old(self).wf(),
        ensures
            final(self).wf(),
            salt_accepted(salt@) ==> signup_post(
                old(self).records(),
                final(self).records(),
                username@,
                email@,
                password@,
                r,
            ),
            !salt_accepted(salt@) ==> r == Err::<(), AuthError>(AuthError::InvalidInput)
                && final(self).records() == old(self).records(),
            r is Ok ==> final(self).records().last().salt@ == salt@,
    {
        let plen = password.as_bytes().len();
        let slen = salt.as_str().as_bytes().len();
        if username.as_str().is_empty() || plen == 0 || plen > MAX_KDF_INPUT || slen < MIN_SALT_BYTES || slen
            > MAX_KDF_INPUT {
            return Err(AuthError::InvalidInput);
        }
        if self.find(username.as_str()).is_some() {
            return Err(AuthError::UsernameTaken);
        }
        let password_hash = argon2i_hash(password, salt.as_str());
        let ghost old_users = self.users@;
        let rec = UserRecord { username, email, salt, password_hash };
        self.users.push(rec);
        assert(self.users@.subrange(0, old_users.len() as int) =~= old_users);
        assert forall|i: int, j: int|
            0 <= i < self.users@.len() && 0 <= j < self.users@.len() && i != j implies (
            #[trigger] self.users@[i]).username@ != (#[trigger] self.users@[j]).username@ by {
            if i < old_users.len() && j < old_users.len() {
                assert(old_users[i] == self.users@[i] && old_users[j] == self.users@[j]);
            } else if i < old_users.len() {
                assert(old_users[i] == self.users@[i]);
            } else if j < old_users.len() {
                assert(old_users[j] == self.users@[j]);
            }
        }
        Ok(())
    }

    /// Puts back a record read from storage: `UsernameTaken` if its name is
    /// already in use, otherwise the record is appended unchanged.
    pub fn restore_user(&mut self, rec: UserRecord) -> (r: Result<(), AuthError>)
        requires
            old(self).wf(),
        ensures
            final(self).wf(),
            r is Err <==> has_user(old(self).records(), rec.username@),
            r is Err ==> r == Err::<(), AuthError>(AuthError::UsernameTaken)
                && final(self).records() == old(self).records(),
            r is Ok ==> final(self).records() == old(self).records().push(rec),
    {
        if self.find(rec.username.as_str()).is_some() {
            return Err(AuthError::UsernameTaken);
        }
        let ghost old_users = self.users@;
        self.users.push(rec);
        assert forall|i: int, j: int|
            0 <= i < self.users@.len() && 0 <= j < self.users@.len() && i != j implies (
            #[trigger] self.users@[i]).username@ != (#[trigger] self.users@[j]).username@ by {
            if i < old_users.len() && j < old_users.len() {
                assert(old_users[i] == self.users@[i] && old_users[j] == self.users@[j]);
            } else if i < old_users.len() {
                assert(old_users[i] == self.users@[i]);
            } else if j < old_users.len() {
                assert(old_users[j] == self.users@[j]);
            }
        }
        Ok(())
    }

    /// Creates the user `username` with a fresh pseudo-random salt, seeded from
    /// `clock_nanos`, the wall clock in nanoseconds; fails as
    /// `create_user_with_salt` does.
    pub fn create_user(
        &mut self,
        username: String,
        email: String,
        password: &str,
        clock_nanos: u64,
    ) -> (r: Result<(), AuthError>)
        requires
            old(self).wf(),
        ensures
            final(self).wf(),
            signup_post(old(self).records(), final(self).records(), username@, email@, password@, r),
            r is Ok ==> final(self).records().last().salt@.len() == 2 * SALT_BYTES,
    {
        let seed: u128 = 0x1337f00dd15ea5e5u128 + clock_nanos as u128;
        let bytes = pcg_bytes(seed, SALT_BYTES);
        let salt = to_hex(&bytes);
        proof {
            vstd::utf8::is_ascii_chars_encode_utf8(salt@);
        }
        self.create_user_with_salt(username, email, password, salt)
    }

    /// The record of `username`, or `NotFound`.
    pub fn load_user(&self, username: &str) -> (r: Result<UserRecord, AuthError>)
        requires
            self.wf(),
        ensures
            r is Ok <==> has_user(self.records(), username@),
            r matches Ok(rec) ==> loaded(self.records(), username@, rec),
            r is Err ==> r == Err::<UserRecord, AuthError>(AuthError::NotFound),
    {
        match self.find(username) {
            None => Err(AuthError::NotFound),
            Some(i) => {
                let u = &self.users[i];
                let rec = UserRecord {
                    username: u.username.clone(),
                    email: u.email.clone(),
                    salt: u.salt.clone(),
                    password_hash: copy_bytes(&u.password_hash),
                };
                assert(same_record(self.users@[i as int], rec));
                Ok(rec)
            },
        }
    }

    /// The position of the record named `name`, if any.
    fn find(&self, name: &str) -> (r: Option<usize>)
        requires
            self.wf(),
        ensures
            r is None <==> !has_user(self.records(), name@),
            r matches Some(i) ==> i < self.records().len() && self.records()[i as int].username@
                == name@,
    {
        let key = name.to_owned();
        let mut i: usize = 0;
        while i < self.users.len()
            invariant
                0 <= i <= self.users@.len(),
                key@ == name@,
                forall|k: int| 0 <= k < i ==> (#[trigger] self.users@[k]).username@ != name@,
            decreases self.users@.len() - i,
        {
            if self.users[i].username == key {
                return Some(i);
            }
            i = i + 1;
        }
        None
    }
}

fn copy_bytes(b: &Vec<u8>) -> (r: Vec<u8>)
    ensures
        r@ == b@,
{
    let mut r: Vec<u8> = Vec::new();
    let mut i: usize = 0;
    while i < b.len()
        invariant
            0 <= i <= b@.len(),
            r@ == b@.subrange(0, i as int),
        decreases b@.len() - i,
    {
        r.push(b[i]);
        i = i + 1;
        assert(r@ =~= b@.subrange(0, i as int));
    }
    assert(b@.subrange(0, b@.len() as int) =~= b@);
    r
}

/// A user created with a password is then verified by that same password:
/// the record that loading the after name returns matches the password.
pub proof fn lemma_signup_then_verify(
    before: Seq<UserRecord>,
    after: Seq<UserRecord>,
    username: Seq<char>,
    email: Seq<char>,
    password: Seq<char>,
    rec: UserRecord,
)
    requires
        names_unique(after),
        signup_post(before, after, username, email, password, Ok(())),
        loaded(after, username, rec),
    ensures
        password_ok(rec, password),
{
    let i = choose|i: int|
        0 <= i < after.len() && (#[trigger] after[i]).username@ == username && same_record(after[i], rec);
    let last = after.len() - 1;
    assert(after[last] == after.last());
    assert(i == last);
}

/// Signing up a name a second time fails with `UsernameTaken` and leaves the
/// records, and with them the first user's hash, unchanged.
pub proof fn lemma_second_signup_refused(
    s0: Seq<UserRecord>,
    s1: Seq<UserRecord>,
    s2: Seq<UserRecord>,
    username: Seq<char>,
    email1: Seq<char>,
    password1: Seq<char>,
    email2: Seq<char>,
    password2: Seq<char>,
    r2: Result<(), AuthError>,
)
    requires
        signup_post(s0, s1, username, email1, password1, Ok(())),
        signup_post(s1, s2, username, email2, password2, r2),
        !invalid_signup(username, password2),
    ensures
        r2 == Err::<(), AuthError>(AuthError::UsernameTaken),
        s2 == s1,
{
    let last = s1.len() - 1;
    assert(s1[last] == s1.last());
    assert(has_user(s1, username));
}

} // verus!
