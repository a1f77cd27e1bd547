//! Credential records, the credential store, and the authentication gate.
//!
//! A credential is stored as a salted one-way hash of the secret that was
//! handed to the client once at issuance; the raw secret is never persisted.
//! Because each hash carries its own random salt, no index can map a raw
//! secret to its record: verification scans every stored credential and
//! compares against each in turn.  The permission tier of a credential gates
//! write operations.

use vstd::prelude::*;
use vstd::string::StringExecFns;

use argon2::{PasswordHasher, PasswordVerifier};

verus! {

/// Permission tier of an issued credential.
#[derive(Clone, Copy, Debug, PartialEq, Eq, Structural)]
pub enum Permission {
    Read,
    ReadWrite,
}

/// A stored credential: the salted hash of the issued secret together with
/// its owner, tier and bookkeeping times.  Times are seconds since the
/// epoch; `last_used_at` is refreshed on each successful verification.
#[derive(Debug)]
pub struct ApiKey {
    pub key_hash: String,
    pub client_name: String,
    pub permissions: Permission,
    pub created_at: i64,
    pub last_used_at: Option<i64>,
}

/// Mathematical image of an [`ApiKey`].
pub ghost struct ApiKeyV {
    pub key_hash: Seq<char>,
    pub client_name: Seq<char>,
    pub permissions: Permission,
    pub created_at: int,
    pub last_used_at: Option<int>,
}

impl View for ApiKey {
    type V = ApiKeyV;

    open spec fn view(&self) -> ApiKeyV {
        ApiKeyV {
            key_hash: self.key_hash@,
            client_name: self.client_name@,
            permissions: self.permissions,
            created_at: self.created_at as int,
            last_used_at: match self.last_used_at {
                Some(t) => Some(t as int),
                None => None,
            },
        }
    }
}

impl ApiKey {
    /// A field-for-field copy whose mathematical value equals the original's.
    pub fn duplicate(&self) -> (r: ApiKey)
        ensures
            r@ == self@,
    {
        ApiKey {
            key_hash: self.key_hash.clone(),
            client_name: self.client_name.clone(),
            permissions: self.permissions,
            created_at: self.created_at,
            last_used_at: self.last_used_at,
        }
    }
}

/// Errors surfaced to a caller of the service, mirroring the failure
/// taxonomy of the protocol: a missing or unknown credential, a credential
/// without the required tier, a backend fault whose detail is never leaked,
/// and the signal of a declared but unrealized operation.
#[derive(Clone, Copy, Debug, PartialEq, Eq, Structural)]
pub enum AuthError {
    Unauthenticated,
    PermissionDenied,
    Internal,
    NotImplemented,
}

/// Why issuing or loading a credential was refused: the owner already holds
/// one, or the one-way hash could not be produced (at issuance) or parsed
/// (when loading an externally stored record).
#[derive(Clone, Copy, Debug, PartialEq, Eq, Structural)]
pub enum IssueError {
    DuplicateOwner,
    HashFailure,
}

/// Whether a stored credential string is a well-formed hash record.  Names
/// the outcome of `phc::PasswordHash::new`, which depends on the string
/// alone.
pub uninterp spec fn hash_parses(hash: Seq<char>) -> bool;

/// Whether a raw secret verifies against a stored hash record.  Names the
/// outcome of argon2's `verify_password` on the parsed record, which
/// depends on the secret and the record alone (the salt and parameters are
/// carried inside the record).
pub uninterp spec fn key_matches_hash(secret: Seq<u8>, hash: Seq<char>) -> bool;

/// Relies on argon2's `PasswordHasher::hash_password` for `Argon2` and on
/// the PHC-string `Display` of `phc::PasswordHash`: hashing draws a fresh
/// random salt, and whatever record comes back parses as a PHC string and
/// verifies against the hashed secret.
#[verifier::external_body]
fn hash_secret(secret: &[u8]) -> (r: Result<String, IssueError>)
    ensures
        match r {
            Ok(h) => hash_parses(h@) && key_matches_hash(secret@, h@),
            Err(e) => e == IssueError::HashFailure,
        },
{
    let argon = argon2::Argon2::default();
    match argon.hash_password(secret) {
        Ok(ph) => Ok(ph.to_string()),
        Err(_) => Err(IssueError::HashFailure),
    }
}

/// Relies on `phc::PasswordHash::new` and argon2's
/// `PasswordVerifier::verify_password`: parsing depends on the stored
/// string alone, and verification of a parsed record depends on the secret
/// and the string alone, so the comparison is a pure function of the two.
#[verifier::external_body]
fn check_secret(secret: &[u8], hash: &str) -> (r: Result<bool, AuthError>)
    ensures
        match r {
            Ok(b) => hash_parses(hash@) && b == key_matches_hash(secret@, hash@),
            Err(e) => !hash_parses(hash@) && e == AuthError::Internal,
        },
{
    match argon2::PasswordHash::new(hash) {
        Ok(parsed) => {
            let argon = argon2::Argon2::default();
            Ok(argon.verify_password(secret, &parsed).is_ok())
        },
        Err(_) => Err(AuthError::Internal),
    }
}

/// Relies on `phc::PasswordHash::new`: reports whether a stored string is a
/// well-formed hash record, without verifying anything against it.
#[verifier::external_body]
fn probe_hash(hash: &str) -> (b: bool)
    ensures
        b == hash_parses(hash@),
{
    argon2::PasswordHash::new(hash).is_ok()
}

/// Relies on `uuid::Uuid::new_v4` and its simple-format `Display`: a fresh
/// random identifier rendered as 32 hexadecimal characters.
#[verifier::external_body]
fn fresh_key_suffix() -> (r: String)
    ensures
        r@.len() == 32,
{
    uuid::Uuid::new_v4().simple().to_string()
}

/// Outcome of scanning the stored credentials for one that a raw secret
/// verifies against: the index of the first match, no match anywhere, or a
/// stored record that could not even be parsed before any match was found.
pub ghost enum ScanOutcome {
    Found(int),
    Missed,
    Fault,
}

/// The scan the store performs on verification: stored credentials are
/// tried in order; an unparsable record aborts the scan, a verifying one
/// ends it successfully.
pub open spec fn scan_spec(keys: Seq<ApiKeyV>, secret: Seq<u8>) -> ScanOutcome
    decreases keys.len(),
{
    if keys.len() == 0 {
        ScanOutcome::Missed
    } else if !hash_parses(keys[0].key_hash) {
        ScanOutcome::Fault
    } else if key_matches_hash(secret, keys[0].key_hash) {
        ScanOutcome::Found(0)
    } else {
        match scan_spec(keys.drop_first(), secret) {
            ScanOutcome::Found(i) => ScanOutcome::Found(i + 1),
            o => o,
        }
    }
}

/// Some stored credential already belongs to this owner.
pub open spec fn owner_taken(keys: Seq<ApiKeyV>, name: Seq<char>) -> bool {
    exists|i: int| 0 <= i < keys.len() && #[trigger] keys[i].client_name == name
}

/// Owner names identify credentials uniquely.
pub open spec fn owners_unique(keys: Seq<ApiKeyV>) -> bool {
    forall|i: int, j: int|
        0 <= i < j < keys.len() ==> #[trigger] keys[i].client_name != #[trigger] keys[j].client_name
}

/// Every stored hash record is well formed, as every record written by
/// issuance is.
pub open spec fn all_hashes_parse(keys: Seq<ApiKeyV>) -> bool {
    forall|i: int| 0 <= i < keys.len() ==> hash_parses(#[trigger] keys[i].key_hash)
}

/// The credential refreshed by a successful verification at `now`.
pub open spec fn touched(k: ApiKeyV, now: int) -> ApiKeyV {
    ApiKeyV { last_used_at: Some(now), ..k }
}

/// The credential store.  It owns every issued credential; owner uniqueness
/// is enforced here, at the storage layer, not by callers.
pub struct AuthService {
    keys: Vec<ApiKey>,
}

impl View for AuthService {
    type V = Seq<ApiKeyV>;

    closed spec fn view(&self) -> Seq<ApiKeyV> {
        self.keys@.map_values(|k: ApiKey| k@)
    }
}

impl AuthService {
    /// An empty store.
    pub fn new() -> (s: Self)
        ensures
            s@ =~= Seq::<ApiKeyV>::empty(),
    {
        AuthService { keys: Vec::new() }
    }

    /// How many credentials are stored.
    pub fn len(&self) -> (n: usize)
        ensures
            n == self@.len(),
    {
        self.keys.len()
    }

    /// The stored credential at an index.
    pub fn get(&self, i: usize) -> (k: &ApiKey)
        requires
            i < self@.len(),
        ensures
            k@ == self@[i as int],
    {
        &self.keys[i]
    }

    /// Every stored credential, for administrative listing.
    pub fn list(&self) -> (keys: &Vec<ApiKey>)
        ensures
            keys@.map_values(|k: ApiKey| k@) == self@,
    {
        &self.keys
    }

    /// Issues a credential: generates a high-entropy secret, stores only its
    /// salted hash beside the owner, tier and creation time, and returns the
    /// raw secret — the one time it is ever visible.  Fails with
    /// `DuplicateOwner` if the owner already holds a credential, and with
    /// `HashFailure` if the hash could not be produced; either way the store
    /// is unchanged.
    pub fn generate_api_key(&mut self, client_name: &str, permissions: Permission, now: i64) -> (r:
        Result<String, IssueError>)
        ensures
            match r {
                Ok(raw) => {
                    &&& !owner_taken(old(self)@, client_name@)
                    &&& final(self)@.len() == old(self)@.len() + 1
                    &&& final(self)@.drop_last() =~= old(self)@
                    &&& final(self)@.last().client_name == client_name@
                    &&& final(self)@.last().permissions == permissions
                    &&& final(self)@.last().created_at == now as int
                    &&& final(self)@.last().last_used_at is None
                    &&& hash_parses(final(self)@.last().key_hash)
                    &&& key_matches_hash(vstd::utf8::encode_utf8(raw@), final(self)@.last().key_hash)
                    &&& raw@.len() == 36
                },
                Err(IssueError::DuplicateOwner) => owner_taken(old(self)@, client_name@) && final(self)@ =~= old(self)@,
                Err(IssueError::HashFailure) => !owner_taken(old(self)@, client_name@) && final(self)@ =~= old(self)@,
            },
            owners_unique(old(self)@) ==> owners_unique(final(self)@),
            all_hashes_parse(old(self)@) ==> all_hashes_parse(final(self)@),
    {
        let name: String = client_name.to_owned();
        let mut i: usize = 0;
        while i < self.keys.len()
            invariant
                0 <= i <= self@.len(),
                name@ == client_name@,
                forall|j: int| 0 <= j < i ==> #[trigger] self@[j].client_name != client_name@,
            decreases self@.len() - i,
        {
            if self.keys[i].client_name == name {
                proof {
                    assert(owner_taken(self@, client_name@)) by {
                        assert(self@[i as int].client_name == client_name@);
                    }
                }
                return Err(IssueError::DuplicateOwner);
            }
            i = i + 1;
        }
        let suffix = fresh_key_suffix();
        let raw: String = "ADM_".to_owned().concat(suffix.as_str());
        proof {
            reveal_strlit("ADM_");
        }
        let hash = match hash_secret(raw.as_str().as_bytes()) {
            Ok(h) => h,
            Err(e) => {
                return Err(e);
            },
        };
        let key = ApiKey {
            key_hash: hash,
            client_name: name,
            permissions,
            created_at: now,
            last_used_at: None,
        };
        let ghost kv = key@;
        let ghost pre = self@;
        self.keys.push(key);
        proof {
            assert(self@ =~= pre.push(kv));
            assert(self@.drop_last() =~= pre);
            if owners_unique(pre) {
                assert forall|a: int, b: int|
                    0 <= a < b < self@.len() implies self@[a].client_name
                    != self@[b].client_name by {
                    if b == pre.len() as int {
                        assert(pre[a].client_name != client_name@);
                    }
                }
            }
            if all_hashes_parse(pre) {
                assert forall|j: int| 0 <= j < self@.len() implies hash_parses(
                    self@[j].key_hash,
                ) by {
                    if j < pre.len() {
                        assert(hash_parses(pre[j].key_hash));
                    }
                }
            }
        }
        Ok(raw)
    }

    /// Adds a credential record obtained from external storage.  The record
    /// is refused if its owner already holds a credential or if its stored
    /// hash is not a well-formed record; either way the store is unchanged.
    pub fn load_key(&mut self, key: ApiKey) -> (r: Result<(), IssueError>)
        ensures
            match r {
                Ok(()) => {
                    &&& !owner_taken(old(self)@, key@.client_name)
                    &&& hash_parses(key@.key_hash)
                    &&& final(self)@ =~= old(self)@.push(key@)
                },
                Err(IssueError::DuplicateOwner) => owner_taken(old(self)@, key@.client_name)
                    && final(self)@ =~= old(self)@,
                Err(IssueError::HashFailure) => !hash_parses(key@.key_hash) && final(self)@ =~= old(self)@,
            },
            owners_unique(old(self)@) && r is Ok ==> owners_unique(final(self)@),
            all_hashes_parse(old(self)@) && r is Ok ==> all_hashes_parse(final(self)@),
    {
        let mut i: usize = 0;
        while i < self.keys.len()
            invariant
                0 <= i <= self@.len(),
                forall|j: int| 0 <= j < i ==> #[trigger] self@[j].client_name != key@.client_name,
            decreases self@.len() - i,
        {
            if self.keys[i].client_name == key.client_name {
                proof {
                    assert(owner_taken(self@, key@.client_name)) by {
                        assert(self@[i as int].client_name == key@.client_name);
                    }
                }
                return Err(IssueError::DuplicateOwner);
            }
            i = i + 1;
        }
        if !probe_hash(key.key_hash.as_str()) {
            return Err(IssueError::HashFailure);
        }
        let ghost kv = key@;
        let ghost pre = self@;
        self.keys.push(key);
        proof {
            assert(self@ =~= pre.push(kv));
            if owners_unique(pre) {
                assert forall|a: int, b: int|
                    0 <= a < b < self@.len() implies self@[a].client_name
                    != self@[b].client_name by {
                    if b == pre.len() as int {
                        assert(pre[a].client_name != kv.client_name);
                    }
                }
            }
            if all_hashes_parse(pre) {
                assert forall|j: int| 0 <= j < self@.len() implies hash_parses(
                    self@[j].key_hash,
                ) by {
                    if j < pre.len() {
                        assert(hash_parses(pre[j].key_hash));
                    }
                }
            }
        }
        Ok(())
    }

    /// Verifies a raw secret by scanning every stored credential: returns
    /// the first one the secret verifies against, after refreshing its
    /// last-use time, or `None` when the scan exhausts the store.  A stored
    /// record that cannot be parsed surfaces as an internal fault and the
    /// store is left unchanged.
    pub fn verify_api_key(&mut self, raw_key: &Vec<u8>, now: i64) -> (r: Result<
        Option<ApiKey>,
        AuthError,
    >)
        ensures
            match scan_spec(old(self)@, raw_key@) {
                ScanOutcome::Found(i) => {
                    &&& r matches Ok(Some(k)) && k@ == old(self)@[i]
                    &&& final(self)@ =~= old(self)@.update(i, touched(old(self)@[i], now as int))
                },
                ScanOutcome::Missed => r matches Ok(None) && final(self)@ =~= old(self)@,
                ScanOutcome::Fault => r == Err::<Option<ApiKey>, AuthError>(AuthError::Internal)
                    && final(self)@ =~= old(self)@,
            },
    {
        let ghost keys0 = self@;
        proof {
            assert(keys0.skip(0) =~= keys0);
        }
        let mut i: usize = 0;
        while i < self.keys.len()
            invariant
                0 <= i <= self@.len(),
                keys0 == old(self)@,
                self@ =~= keys0,
                forall|j: int|
                    0 <= j < i ==> hash_parses(#[trigger] keys0[j].key_hash) && !key_matches_hash(
                        raw_key@,
                        keys0[j].key_hash,
                    ),
                scan_spec(keys0, raw_key@) == scan_spec(keys0.skip(i as int), raw_key@).shift(
                    i as int,
                ),
            decreases self@.len() - i,
        {
            match check_secret(raw_key.as_slice(), self.keys[i].key_hash.as_str()) {
                Err(e) => {
                    proof {
                        lemma_scan_skip_step(keys0, raw_key@, i as int);
                    }
                    return Err(e);
                },
                Ok(true) => {
                    proof {
                        lemma_scan_skip_step(keys0, raw_key@, i as int);
                    }
                    let result = self.keys[i].duplicate();
                    let mut refreshed = self.keys.remove(i);
                    refreshed.last_used_at = Some(now);
                    self.keys.insert(i, refreshed);
                    proof {
                        let goal = keys0.update(i as int, touched(keys0[i as int], now as int));
                        assert forall|j: int| 0 <= j < self@.len() implies self@[j] == goal[j] by {
                            if j < i as int {
                            } else if j == i as int {
                                assert(self@[j] == refreshed@);
                            } else {
                            }
                        }
                        assert(self@ =~= goal);
                    }
                    return Ok(Some(result));
                },
                Ok(false) => {
                    proof {
                        lemma_scan_skip_step(keys0, raw_key@, i as int);
                        assert(keys0.skip(i as int).drop_first() =~= keys0.skip(i + 1));
                    }
                    i = i + 1;
                },
            }
        }
        Ok(None)
    }

    /// Removes the credential of an owner; reports whether one existed.
    /// Removal of a missing owner leaves the store unchanged.
    pub fn revoke(&mut self, client_name: &str) -> (removed: bool)
        ensures
            owners_unique(old(self)@) ==> owners_unique(final(self)@),
            if owner_taken(old(self)@, client_name@) {
                removed && exists|i: int|
                    0 <= i < old(self)@.len() && #[trigger] old(self)@[i].client_name
                        == client_name@ && final(self)@ =~= old(self)@.remove(i)
            } else {
                !removed && final(self)@ =~= old(self)@
            },
    {
        let name: String = client_name.to_owned();
        let mut i: usize = 0;
        while i < self.keys.len()
            invariant
                0 <= i <= self@.len(),
                name@ == client_name@,
                self@ =~= old(self)@,
                forall|j: int| 0 <= j < i ==> #[trigger] self@[j].client_name != client_name@,
            decreases self@.len() - i,
        {
            if self.keys[i].client_name == name {
                let ghost pre = self@;
                proof {
                    assert(pre[i as int].client_name == client_name@);
                }
                self.keys.remove(i);
                proof {
                    assert(self@ =~= pre.remove(i as int));
                    if owners_unique(pre) {
                        assert forall|a: int, b: int|
                            0 <= a < b < self@.len() implies self@[a].client_name
                            != self@[b].client_name by {
                            let a0 = if a < i as int {
                                a
                            } else {
                                a + 1
                            };
                            let b0 = if b < i as int {
                                b
                            } else {
                                b + 1
                            };
                            assert(self@[a] == pre[a0]);
                            assert(self@[b] == pre[b0]);
                            assert(pre[a0].client_name != pre[b0].client_name);
                        }
                    }
                }
                return true;
            }
            i = i + 1;
        }
        false
    }

    /// The index of an owner's credential, if one is stored.
    pub fn find_index(&self, client_name: &str) -> (r: Option<usize>)
        ensures
            match r {
                Some(i) => i < self@.len() && self@[i as int].client_name == client_name@
                    && forall|j: int|
                    0 <= j < i ==> #[trigger] self@[j].client_name != client_name@,
                None => !owner_taken(self@, client_name@),
            },
    {
        let name: String = client_name.to_owned();
        let mut i: usize = 0;
        while i < self.keys.len()
            invariant
                0 <= i <= self@.len(),
                name@ == client_name@,
                forall|j: int| 0 <= j < i ==> #[trigger] self@[j].client_name != client_name@,
            decreases self@.len() - i,
        {
            if self.keys[i].client_name == name {
                return Some(i);
            }
            i = i + 1;
        }
        None
    }
}

impl ScanOutcome {
    /// The same outcome with a found index moved up by an offset, used to
    /// relate the scan of a suffix to the scan of the whole store.
    pub open spec fn shift(self, offset: int) -> ScanOutcome {
        match self {
            ScanOutcome::Found(i) => ScanOutcome::Found(i + offset),
            o => o,
        }
    }
}

/// Unfolds one step of the scan: when the scan of the whole store is the
/// scan of the suffix from `i` shifted by `i`, the credential at `i`
/// decides the outcome, or defers to the suffix from `i + 1`.
proof fn lemma_scan_skip_step(keys: Seq<ApiKeyV>, secret: Seq<u8>, i: int)
    requires
        0 <= i < keys.len(),
        scan_spec(keys, secret) == scan_spec(keys.skip(i), secret).shift(i),
    ensures
        !hash_parses(keys[i].key_hash) ==> scan_spec(keys, secret) == ScanOutcome::Fault,
        hash_parses(keys[i].key_hash) && key_matches_hash(secret, keys[i].key_hash) ==> scan_spec(
            keys,
            secret,
        ) == ScanOutcome::Found(i),
        hash_parses(keys[i].key_hash) && !key_matches_hash(secret, keys[i].key_hash) ==> scan_spec(
            keys,
            secret,
        ) == scan_spec(keys.skip(i + 1), secret).shift(i + 1),
{
    assert(keys.skip(i).len() == keys.len() - i);
    assert(keys.skip(i)[0] == keys[i]);
    assert(keys.skip(i).drop_first() =~= keys.skip(i + 1));
}

/// Reads the designated transport metadata field carrying the raw secret.
/// An absent field, or one whose bytes are not all visible ASCII, is
/// rejected as unauthenticated — never as an internal fault.
pub fn extract_api_key(meta: Option<&Vec<u8>>) -> (r: Result<Vec<u8>, AuthError>)
    ensures
        match meta {
            None => r == Err::<Vec<u8>, AuthError>(AuthError::Unauthenticated),
            Some(bytes) => {
                if meta_valid(bytes@) {
                    r matches Ok(v) && v@ =~= bytes@
                } else {
                    r == Err::<Vec<u8>, AuthError>(AuthError::Unauthenticated)
                }
            },
        },
{
    match meta {
        None => Err(AuthError::Unauthenticated),
        Some(bytes) => {
            let mut out: Vec<u8> = Vec::new();
            let mut i: usize = 0;
            while i < bytes.len()
                invariant
                    meta == Some(bytes),
                    0 <= i <= bytes@.len(),
                    forall|j: int| 0 <= j < i ==> 32 <= #[trigger] bytes@[j] < 127,
                    out@ =~= bytes@.take(i as int),
                decreases bytes@.len() - i,
            {
                let b = bytes[i];
                if b < 32 || b >= 127 {
                    proof {
                        assert(!meta_valid(bytes@)) by {
                            assert(!(32 <= bytes@[i as int] < 127));
                        }
                    }
                    return Err(AuthError::Unauthenticated);
                }
                out.push(b);
                i = i + 1;
            }
            Ok(out)
        },
    }
}

/// A metadata value is usable as an API key only if every byte is visible
/// ASCII (space through tilde); anything else is not representable as text.
pub open spec fn meta_valid(bytes: Seq<u8>) -> bool {
    forall|i: int| 0 <= i < bytes.len() ==> 32 <= #[trigger] bytes[i] < 127
}

/// The metadata field an inbound call carries, as a mathematical value.
pub open spec fn meta_view(meta: Option<&Vec<u8>>) -> Option<Seq<u8>> {
    match meta {
        Some(bytes) => Some(bytes@),
        None => None,
    }
}

/// The verdict authentication reaches on one inbound call: the index of the
/// verified credential, or the error surfaced to the caller.
pub ghost enum AuthDecision {
    Granted(int),
    Refused(AuthError),
}

/// What authenticating a call decides, from the stored credentials and the
/// metadata field alone: a missing, malformed or unknown credential is
/// refused as unauthenticated, a scan fault is refused as internal, and a
/// verified credential grants the call under that credential.
pub open spec fn auth_decision(keys: Seq<ApiKeyV>, meta: Option<Seq<u8>>) -> AuthDecision {
    match meta {
        None => AuthDecision::Refused(AuthError::Unauthenticated),
        Some(bytes) => {
            if meta_valid(bytes) {
                match scan_spec(keys, bytes) {
                    ScanOutcome::Found(i) => AuthDecision::Granted(i),
                    ScanOutcome::Missed => AuthDecision::Refused(AuthError::Unauthenticated),
                    ScanOutcome::Fault => AuthDecision::Refused(AuthError::Internal),
                }
            } else {
                AuthDecision::Refused(AuthError::Unauthenticated)
            }
        },
    }
}

/// Authenticates one inbound call: extracts the raw secret from the
/// designated metadata field, verifies it against the store, and maps the
/// outcomes onto the caller-visible taxonomy — a missing, malformed or
/// unknown credential is `Unauthenticated`, a storage fault is `Internal`
/// with no detail leaked, and a verified credential is returned.
pub fn authenticate_request(meta: Option<&Vec<u8>>, auth: &mut AuthService, now: i64) -> (r: Result<
    ApiKey,
    AuthError,
>)
    ensures
        match auth_decision(old(auth)@, meta_view(meta)) {
            AuthDecision::Granted(i) => {
                &&& r matches Ok(k) && k@ == old(auth)@[i]
                &&& final(auth)@ =~= old(auth)@.update(i, touched(old(auth)@[i], now as int))
            },
            AuthDecision::Refused(e) => r == Err::<ApiKey, AuthError>(e) && final(auth)@
                =~= old(auth)@,
        },
        all_hashes_parse(old(auth)@) ==> r != Err::<ApiKey, AuthError>(AuthError::Internal),
{
    proof {
        if all_hashes_parse(old(auth)@) {
            lemma_scan_no_fault(old(auth)@);
        }
    }
    let raw = match extract_api_key(meta) {
        Ok(v) => v,
        Err(e) => {
            return Err(e);
        },
    };
    match auth.verify_api_key(&raw, now) {
        Ok(Some(key)) => Ok(key),
        Ok(None) => Err(AuthError::Unauthenticated),
        Err(_) => Err(AuthError::Internal),
    }
}

/// When every stored hash record parses, no scan can abort on a fault,
/// whatever secret is presented.
proof fn lemma_scan_no_fault(keys: Seq<ApiKeyV>)
    requires
        all_hashes_parse(keys),
    ensures
        forall|secret: Seq<u8>| scan_spec(keys, secret) != ScanOutcome::Fault,
    decreases keys.len(),
{
    if keys.len() > 0 {
        assert(all_hashes_parse(keys.drop_first())) by {
            assert(forall|i: int|
                0 <= i < keys.drop_first().len() ==> #[trigger] keys.drop_first()[i] == keys[i
                    + 1]);
        }
        lemma_scan_no_fault(keys.drop_first());
        assert forall|secret: Seq<u8>| scan_spec(keys, secret) != ScanOutcome::Fault by {
            assert(hash_parses(keys[0].key_hash));
            assert(scan_spec(keys.drop_first(), secret) != ScanOutcome::Fault);
        }
    }
}

/// Side-effect-free write gate: only a read-write credential may invoke a
/// mutating operation.
pub fn require_write_permission(api_key: &ApiKey) -> (r: Result<(), AuthError>)
    ensures
        r == if api_key@.permissions == Permission::ReadWrite {
            Ok::<(), AuthError>(())
        } else {
            Err::<(), AuthError>(AuthError::PermissionDenied)
        },
{
    if api_key.permissions == Permission::ReadWrite {
        Ok(())
    } else {
        Err(AuthError::PermissionDenied)
    }
}

} // verus!
