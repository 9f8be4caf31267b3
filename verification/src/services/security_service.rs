//! The security stub: users with permissions, and a keyed scrambling of
//! bytes that is its own inverse.

use crate::digest::{blake3_bytes, blake3_hash};
use crate::manifest::strings_view;
use crate::repository::contains_text;
use crate::text::{bytes_eq, str_eq, utf8};
use vstd::prelude::*;

verus! {

/// The permissions of a role.
#[derive(Debug, Clone)]
pub struct RoleConfig {
    pub permissions: Vec<String>,
}

/// The switches of the security stub.
#[derive(Debug, Clone)]
pub struct SecuritySettings {
    pub encryption_enabled: bool,
    pub require_auth: bool,
    pub session_timeout_minutes: u64,
}

impl Default for SecuritySettings {
    /// Encryption on, no login, sessions of an hour.
    fn default() -> (settings: SecuritySettings)
        ensures
            settings.encryption_enabled,
            !settings.require_auth,
            settings.session_timeout_minutes == 60,
    {
        SecuritySettings { encryption_enabled: true, require_auth: false, session_timeout_minutes: 60 }
    }
}

/// A user: a role, permissions of its own, and when it was made and last
/// seen, in milliseconds since the Unix epoch.
#[derive(Debug, Clone)]
pub struct UserConfig {
    pub role: String,
    pub permissions: Vec<String>,
    pub created_at: i64,
    pub last_login: Option<i64>,
}

/// The users and the roles, each under its name, and the switches.
#[derive(Debug, Clone)]
pub struct SecurityConfig {
    pub users: Vec<(String, UserConfig)>,
    pub roles: Vec<(String, RoleConfig)>,
    pub settings: SecuritySettings,
}

/// The keys of a user.
#[derive(Debug, Clone)]
pub struct UserKeyPair {
    pub username: String,
    pub public_key: Vec<u8>,
    pub private_key: Vec<u8>,
    pub created_at: i64,
}

/// The index of the first user `name`, or the number of users.
pub open spec fn user_index(users: Seq<(String, UserConfig)>, name: Seq<char>) -> int
    decreases users.len(),
{
    if users.len() == 0 || users[0].0@ == name {
        0
    } else {
        1 + user_index(users.skip(1), name)
    }
}

/// No user and no role stands twice in the configuration under its name.
pub open spec fn names_once(config: SecurityConfig) -> bool {
    &&& forall|i: int, j: int|
        0 <= i < j < config.users.len() ==> (#[trigger] config.users@[i]).0@ != (
        #[trigger] config.users@[j]).0@
    &&& forall|i: int, j: int|
        0 <= i < j < config.roles.len() ==> (#[trigger] config.roles@[i]).0@ != (
        #[trigger] config.roles@[j]).0@
}

/// The index of a user is a place of the list or its length; no user before
/// it has the name, and the user at it has.
pub proof fn lemma_user_index(users: Seq<(String, UserConfig)>, name: Seq<char>)
    ensures
        0 <= user_index(users, name) <= users.len(),
        forall|i: int| 0 <= i < user_index(users, name) ==> (#[trigger] users[i]).0@ != name,
        user_index(users, name) < users.len() ==> users[user_index(users, name)].0@ == name,
    decreases users.len(),
{
    if users.len() > 0 && users[0].0@ != name {
        let rest = users.skip(1);
        lemma_user_index(rest, name);
        assert forall|i: int| 0 <= i < user_index(users, name) implies (#[trigger] users[i]).0@
            != name by {
            if i > 0 {
                assert(users[i] == rest[i - 1]);
            }
        }
        if user_index(users, name) < users.len() {
            assert(users[user_index(users, name)] == rest[user_index(rest, name)]);
        }
    }
}

/// Whether `name` may do `operation`: whether there is such a user and the
/// operation is among its permissions.
pub open spec fn permitted(users: Seq<(String, UserConfig)>, name: Seq<char>, operation: Seq<char>) -> bool {
    user_index(users, name) < users.len() && strings_view(
        users[user_index(users, name)].1.permissions@,
    ).contains(operation)
}

/// What is mixed into a public key to make the key of the scrambling.
pub open spec fn key_mark() -> Seq<u8> {
    seq![
        0x66u8, 0x61u8, 0x69u8, 0x2du8, 0x65u8, 0x6eu8, 0x63u8, 0x72u8, 0x79u8, 0x70u8, 0x74u8,
        0x69u8, 0x6fu8, 0x6eu8, 0x2du8, 0x6bu8, 0x65u8, 0x79u8,
    ]
}

/// The key of the scrambling for a public key: the hash of the public key
/// followed by the text `fai-encryption-key`.
pub open spec fn scramble_key(public_key: Seq<u8>) -> Seq<u8> {
    blake3_hash(public_key + key_mark())
}

/// Each byte of `data` combined by exclusive or with the byte of the key at
/// its place, the key going round.
pub open spec fn scrambled(data: Seq<u8>, key: Seq<u8>) -> Seq<u8> {
    Seq::new(data.len(), |i: int| data[i] ^ key[i % (key.len() as int)])
}

/// The signature that a user gives to a message: the hash of the message
/// followed by the private key.
pub open spec fn signature_of(message: Seq<u8>, private_key: Seq<u8>) -> Seq<u8> {
    blake3_hash(message + private_key)
}

/// Scrambling twice with the same key gives the bytes back.
pub proof fn lemma_scramble_twice(data: Seq<u8>, key: Seq<u8>)
    requires
        key.len() > 0,
    ensures
        scrambled(scrambled(data, key), key) == data,
{
    assert forall|i: int| 0 <= i < data.len() implies scrambled(scrambled(data, key), key)[i]
        == data[i] by {
        let d = data[i];
        let k = key[i % (key.len() as int)];
        assert((d ^ k) ^ k == d) by (bit_vector);
    }
    assert(scrambled(scrambled(data, key), key) =~= data);
}

/// The configuration of a new repository: no users; the role `admin`, which
/// may read, write, delete and administer, and the role `user`, which may
/// read and write; encryption on, no login, sessions of an hour.
pub open spec fn is_default_config(config: SecurityConfig) -> bool {
    &&& config.users.len() == 0
    &&& config.roles.len() == 2
    &&& config.roles@[0].0@ == "admin"@
    &&& strings_view(config.roles@[0].1.permissions@) == seq![
        "read"@,
        "write"@,
        "delete"@,
        "admin"@,
    ]
    &&& config.roles@[1].0@ == "user"@
    &&& strings_view(config.roles@[1].1.permissions@) == seq!["read"@, "write"@]
    &&& config.settings.encryption_enabled
    &&& !config.settings.require_auth
    &&& config.settings.session_timeout_minutes == 60
}

/// In the configuration of a new repository no name stands twice.
pub proof fn lemma_default_names_once(config: SecurityConfig)
    requires
        is_default_config(config),
    ensures
        names_once(config),
{
    reveal_strlit("admin");
    reveal_strlit("user");
    assert("admin"@.len() != "user"@.len());
}

/// The configuration of a new repository.
pub fn default_config() -> (config: SecurityConfig)
    ensures
        is_default_config(config),
{
    let admin = RoleConfig {
        permissions: vec!["read".to_owned(), "write".to_owned(), "delete".to_owned(), "admin".to_owned()],
    };
    let user = RoleConfig { permissions: vec!["read".to_owned(), "write".to_owned()] };
    assert(strings_view(admin.permissions@) =~= seq!["read"@, "write"@, "delete"@, "admin"@]);
    assert(strings_view(user.permissions@) =~= seq!["read"@, "write"@]);
    SecurityConfig {
        users: Vec::new(),
        roles: vec![("admin".to_owned(), admin), ("user".to_owned(), user)],
        settings: SecuritySettings {
            encryption_enabled: true,
            require_auth: false,
            session_timeout_minutes: 60,
        },
    }
}

impl Default for SecurityConfig {
    /// No users, and the default roles.
    fn default() -> (config: SecurityConfig)
        ensures
            is_default_config(config),
    {
        default_config()
    }
}

/// The security stub of a repository.
pub struct SecurityService {
    config_path: String,
}

impl SecurityService {
    /// Where the configuration is kept.
    pub closed spec fn path(&self) -> Seq<char> {
        self.config_path@
    }

    /// The stub for the configuration kept at `config_path`.
    pub fn new(config_path: &str) -> (service: SecurityService)
        ensures
            service.path() == config_path@,
    {
        SecurityService { config_path: config_path.to_owned() }
    }

    /// Where the configuration is kept.
    pub fn config_path(&self) -> (path: &str)
        ensures
            path@ == self.path(),
    {
        self.config_path.as_str()
    }

    /// The key of the scrambling for a public key.
    pub fn derive_encryption_key(&self, public_key: &[u8]) -> (key: [u8; 32])
        ensures
            key@ == scramble_key(public_key@),
    {
        let mark: [u8; 18] = [
            0x66, 0x61, 0x69, 0x2d, 0x65, 0x6e, 0x63, 0x72, 0x79, 0x70, 0x74, 0x69, 0x6f, 0x6e,
            0x2d, 0x6b, 0x65, 0x79,
        ];
        assert(mark@ =~= key_mark());
        let mut input = vstd::slice::slice_to_vec(public_key);
        input.extend_from_slice(mark.as_slice());
        assert(input@ =~= public_key@ + key_mark());
        blake3_bytes(input.as_slice())
    }

    /// Scrambles `data` with `key`.
    pub fn simple_encrypt(&self, data: &[u8], key: &[u8; 32]) -> (out: Vec<u8>)
        ensures
            out@ == scrambled(data@, key@),
    {
        let mut out: Vec<u8> = Vec::new();
        let mut i: usize = 0;
        while i < data.len()
            invariant
                i <= data.len(),
                out@.len() == i,
                forall|k: int| 0 <= k < i ==> #[trigger] out@[k] == data@[k] ^ key@[k % 32],
            decreases data.len() - i,
        {
            out.push(data[i] ^ key[i % 32]);
            i += 1;
        }
        assert(out@ =~= scrambled(data@, key@));
        out
    }

    /// Undoes the scrambling of `encrypted_data` with `key`.
    pub fn simple_decrypt(&self, encrypted_data: &[u8], key: &[u8; 32]) -> (out: Vec<u8>)
        ensures
            out@ == scrambled(encrypted_data@, key@),
    {
        self.simple_encrypt(encrypted_data, key)
    }

    /// Scrambles `data` for the user of `keypair`.
    pub fn encrypt_for_user(&self, keypair: &UserKeyPair, data: &[u8]) -> (out: Vec<u8>)
        ensures
            out@ == scrambled(data@, scramble_key(keypair.public_key@)),
    {
        let key = self.derive_encryption_key(keypair.public_key.as_slice());
        self.simple_encrypt(data, &key)
    }

    /// Gives back what was scrambled for the user of `keypair`.
    pub fn decrypt_for_user(&self, keypair: &UserKeyPair, encrypted_data: &[u8]) -> (out: Vec<u8>)
        ensures
            out@ == scrambled(encrypted_data@, scramble_key(keypair.public_key@)),
    {
        let key = self.derive_encryption_key(keypair.public_key.as_slice());
        self.simple_decrypt(encrypted_data, &key)
    }

    /// Whether `signature` is the signature of the user of `keypair` under
    /// `message`.
    pub fn authenticate_user(&self, keypair: &UserKeyPair, signature: &[u8], message: &[u8]) -> (r:
        bool)
        ensures
            r == (signature@ == signature_of(message@, keypair.private_key@)),
    {
        let mut input = vstd::slice::slice_to_vec(message);
        input.extend_from_slice(keypair.private_key.as_slice());
        assert(input@ =~= message@ + keypair.private_key@);
        let expected = blake3_bytes(input.as_slice());
        bytes_eq(signature, expected.as_slice())
    }

    /// Whether the user `username` may do `operation`.
    pub fn check_permission(
        &self,
        config: &SecurityConfig,
        username: &str,
        operation: &str,
        _resource: &str,
    ) -> (r: bool)
        ensures
            r == permitted(config.users@, username@, operation@),
    {
        let ghost users = config.users@;
        let mut i: usize = 0;
        assert(users.skip(0) =~= users);
        while i < config.users.len()
            invariant
                i <= config.users.len(),
                users == config.users@,
                user_index(users, username@) == i + user_index(users.skip(i as int), username@),
            decreases config.users.len() - i,
        {
            assert(users.skip(i as int)[0] == users[i as int]);
            if str_eq(config.users[i].0.as_str(), username) {
                let permissions = &config.users[i].1.permissions;
                assert(strings_view(permissions@).take(permissions.len() as int) =~= strings_view(
                    permissions@,
                ));
                return contains_text(permissions, permissions.len(), operation);
            }
            assert(users.skip(i as int).skip(1) =~= users.skip(i + 1));
            i += 1;
        }
        false
    }

    /// Puts the user `username` into the configuration, made at the time
    /// `now`: in place of the user of that name where there is one, else at
    /// the end. All other users stay as they are.
    pub fn create_user(
        &self,
        config: &mut SecurityConfig,
        username: &str,
        role: &str,
        permissions: Vec<String>,
        now: i64,
    )
        ensures
            final(config).roles == old(config).roles,
            final(config).settings == old(config).settings,
            names_once(*old(config)) ==> names_once(*final(config)),
            ({
                let before = old(config).users@;
                let after = final(config).users@;
                let k = user_index(before, username@);
                &&& after.len() == (if k < before.len() {
                    before.len()
                } else {
                    before.len() + 1
                })
                &&& after[k].0@ == username@
                &&& after[k].1.role@ == role@
                &&& after[k].1.permissions == permissions
                &&& after[k].1.created_at == now
                &&& after[k].1.last_login is None
                &&& forall|j: int| 0 <= j < before.len() && j != k ==> after[j] == before[j]
            }),
    {
        let ghost users = config.users@;
        let mut found: Option<usize> = None;
        let mut i: usize = 0;
        assert(users.skip(0) =~= users);
        while i < config.users.len() && found.is_none()
            invariant
                i <= config.users.len(),
                users == config.users@,
                *config == *old(config),
                match found {
                    Some(k) => k == user_index(users, username@) && k < users.len(),
                    None => user_index(users, username@) == i + user_index(
                        users.skip(i as int),
                        username@,
                    ),
                },
            decreases config.users.len() - i + (if found is None {
                1int
            } else {
                0int
            }),
        {
            assert(users.skip(i as int)[0] == users[i as int]);
            if str_eq(config.users[i].0.as_str(), username) {
                found = Some(i);
            } else {
                assert(users.skip(i as int).skip(1) =~= users.skip(i + 1));
                i += 1;
            }
        }
        let entry = (
            username.to_owned(),
            UserConfig { role: role.to_owned(), permissions, created_at: now, last_login: None },
        );
        proof {
            lemma_user_index(users, username@);
        }
        match found {
            Some(k) => {
                config.users.remove(k);
                config.users.insert(k, entry);
                assert(config.users@ =~= users.update(k as int, entry));
            },
            None => {
                config.users.push(entry);
            },
        }
        proof {
            if names_once(*old(config)) {
                let after = config.users@;
                assert forall|i: int, j: int| 0 <= i < j < after.len() implies (
                #[trigger] after[i]).0@ != (#[trigger] after[j]).0@ by {
                    if found is Some {
                        assert(after[i].0@ == users[i].0@ && after[j].0@ == users[j].0@);
                    } else if j < users.len() {
                        assert(after[i] == users[i] && after[j] == users[j]);
                    } else {
                        assert(after[i] == users[i]);
                    }
                }
            }
        }
    }

    /// The keys of a new user `username`, made at the time `now` from fresh
    /// random bytes.
    pub fn generate_user_keypair(&self, username: &str, now: i64) -> (keypair: UserKeyPair)
        ensures
            keypair.username@ == username@,
            keypair.public_key@.len() == 32,
            keypair.private_key@.len() == 32,
            keypair.created_at == now,
    {
        let private_key = fresh_key();
        let public_key = fresh_key();
        UserKeyPair { username: username.to_owned(), public_key, private_key, created_at: now }
    }
}

/// Fills 32 bytes with `rand::Rng::fill` from `rand::thread_rng`. Nothing is
/// said of the bytes but their number.
#[verifier::external_body]
fn fresh_key() -> (key: Vec<u8>)
    ensures
        key@.len() == 32,
{
    let mut key = [0u8; 32];
    rand::Rng::fill(&mut rand::thread_rng(), &mut key);
    key.to_vec()
}

} // verus!
