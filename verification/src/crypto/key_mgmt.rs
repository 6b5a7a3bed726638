//! Key management: key derivation, rotation, deactivation and an audit log.
use vstd::prelude::*;
use vstd::utf8::encode_utf8;
use vstd::string::StringExecFns;
use crate::hash::{spec_blake3, blake3_hash, short_digest, short_digest_exec};
use crate::text::{str_eq, string_of, decimal, decimal_exec};
use crate::types::error::{AdatError, AdatResult};
use crate::types::now_micros;

verus! {

/// A managed encryption key, as the manager sees it.
pub struct KeyView {
    pub name: Seq<char>,
    pub key_hash: Seq<char>,
    pub created_at: u64,
    pub rotated_at: Option<u64>,
    pub version: u32,
    pub active: bool,
}

/// A managed encryption key.
#[derive(Debug)]
struct KeyEntry {
    name: String,
    key_hash: String,
    created_at: u64,
    rotated_at: Option<u64>,
    version: u32,
    active: bool,
}

impl KeyEntry {
    spec fn kview(&self) -> KeyView {
        KeyView {
            name: self.name@,
            key_hash: self.key_hash@,
            created_at: self.created_at,
            rotated_at: self.rotated_at,
            version: self.version,
            active: self.active,
        }
    }
}

/// Audit log entry for key operations.
#[derive(Debug)]
pub struct KeyAuditEntry {
    pub operation: String,
    pub key_name: String,
    pub timestamp: u64,
    pub details: String,
}

/// An audit entry as plain text.
pub struct AuditView {
    pub operation: Seq<char>,
    pub key_name: Seq<char>,
    pub timestamp: u64,
    pub details: Seq<char>,
}

/// View of an audit entry.
pub open spec fn audit_view(e: KeyAuditEntry) -> AuditView {
    AuditView {
        operation: e.operation@,
        key_name: e.key_name@,
        timestamp: e.timestamp,
        details: e.details@,
    }
}

/// An audit entry of the given parts.
pub open spec fn audit_entry(
    operation: Seq<char>,
    key_name: Seq<char>,
    timestamp: u64,
    details: Seq<char>,
) -> AuditView {
    AuditView { operation, key_name, timestamp, details }
}

/// Position of the key named `name`.
pub open spec fn key_index(s: Seq<KeyView>, name: Seq<char>) -> Option<int> {
    if exists|i: int| 0 <= i < s.len() && s[i].name == name {
        Some(choose|i: int| 0 <= i < s.len() && s[i].name == name)
    } else {
        None
    }
}

/// No name occurs twice.
pub open spec fn names_unique(s: Seq<KeyView>) -> bool {
    forall|i: int, j: int| 0 <= i < j < s.len() ==> s[i].name != s[j].name
}

/// Storing an entry under its name: a key of that name is replaced in place, a new
/// name goes at the end.
pub open spec fn upsert_key(s: Seq<KeyView>, e: KeyView) -> Seq<KeyView> {
    match key_index(s, e.name) {
        Some(i) => s.update(i, e),
        None => s.push(e),
    }
}

/// The first 16 hex digits of the BLAKE3 digest of a key.
pub open spec fn key_fingerprint(key: Seq<u8>) -> Seq<char> {
    short_digest(key)
}

/// The message of a lookup of a missing key: `Key '<name>' not found`.
pub open spec fn key_not_found(name: Seq<char>) -> Seq<char> {
    "Key '"@ + name + "' not found"@
}

/// Key manager for field-level encryption keys.
pub struct KeyManager {
    /// Managed keys, each name once, in the order in which they were first created.
    keys: Vec<KeyEntry>,
    /// Audit log of key operations.
    audit: Vec<KeyAuditEntry>,
    /// The calls made so far, in order.
    calls: Ghost<Seq<KeyCall>>,
}

impl KeyManager {
    /// The managed keys.
    pub closed spec fn keys(&self) -> Seq<KeyView> {
        self.keys@.map_values(|e: KeyEntry| e.kview())
    }

    /// The audit log.
    pub closed spec fn audit(&self) -> Seq<AuditView> {
        self.audit@.map_values(|e: KeyAuditEntry| audit_view(e))
    }

    /// The calls made on the manager so far, in order, each with the fingerprint and
    /// times it used.
    pub closed spec fn calls(&self) -> Seq<KeyCall> {
        self.calls@
    }

    #[verifier::type_invariant]
    closed spec fn inv(self) -> bool {
        &&& names_unique(self.keys())
        &&& key_run(self.calls@) == (self.keys(), self.audit())
    }

    /// An empty manager.
    pub fn new() -> (r: KeyManager)
        ensures
            r.keys() == Seq::<KeyView>::empty(),
            r.audit() == Seq::<AuditView>::empty(),
            names_unique(r.keys()),
            r.calls() == Seq::<KeyCall>::empty(),
    {
        let keys: Vec<KeyEntry> = Vec::new();
        let audit: Vec<KeyAuditEntry> = Vec::new();
        assert(keys@.map_values(|e: KeyEntry| e.kview()) =~= Seq::<KeyView>::empty());
        assert(audit@.map_values(|e: KeyAuditEntry| audit_view(e)) =~= Seq::<AuditView>::empty());
        let r = KeyManager { keys, audit, calls: Ghost(Seq::empty()) };
        r
    }

    fn find(&self, name: &str) -> (r: Option<usize>)
        ensures
            match r {
                Some(i) => key_index(self.keys(), name@) == Some(i as int) && i < self.keys@.len(),
                None => key_index(self.keys(), name@) is None,
            },
    {
        proof {
            use_type_invariant(self);
        }
        Self::find_in(&self.keys, name)
    }

    fn push_audit(audit: &mut Vec<KeyAuditEntry>, operation: &str, name: &str, details: String) -> (t: u64)
        ensures
            final(audit)@.map_values(|e: KeyAuditEntry| audit_view(e)) == old(audit)@.map_values(
                |e: KeyAuditEntry| audit_view(e),
            ).push(audit_entry(operation@, name@, t, details@)),
    {
        let e = KeyAuditEntry {
            operation: operation.to_owned(),
            key_name: name.to_owned(),
            timestamp: now_micros(),
            details,
        };
        let t = e.timestamp;
        let ghost a0 = audit@.map_values(|e: KeyAuditEntry| audit_view(e));
        audit.push(e);
        assert(audit@.map_values(|e: KeyAuditEntry| audit_view(e)) =~= a0.push(
            audit_entry(operation@, name@, t, details@),
        ));
        t
    }

    /// Generate and store a new key from a passphrase: the key is the BLAKE3 digest of
    /// the passphrase, stored (replacing any key of that name) at version 1, active.
    pub fn create_key(&mut self, name: &str, passphrase: &str) -> (r: [u8; 32])
        ensures
            r@ == spec_blake3(encode_utf8(passphrase@)),
            exists|t: u64|
                final(self).keys() == upsert_key(
                    old(self).keys(),
                    KeyView {
                        name: name@,
                        key_hash: key_fingerprint(r@),
                        created_at: t,
                        rotated_at: None,
                        version: 1,
                        active: true,
                    },
                ),
            exists|t: u64|
                final(self).audit() == old(self).audit().push(
                    AuditView {
                        operation: "create"@,
                        key_name: name@,
                        timestamp: t,
                        details: "Key created, hash="@ + key_fingerprint(r@),
                    },
                ),
            names_unique(final(self).keys()),
            exists|t: u64, lt: u64|
                final(self).calls() == #[trigger] old(self).calls().push(
                    KeyCall::Create(name@, key_fingerprint(r@), t, lt),
                ),
            key_index(final(self).keys(), name@) matches Some(i) && final(self).keys()[i].active
                && final(self).keys()[i].version == 1,
    {
        proof {
            use_type_invariant(&*self);
        }
        let key = blake3_hash(passphrase.as_bytes());
        let hash_chars = short_digest_exec(&key);
        let key_hash = string_of(&hash_chars);
        let entry = KeyEntry {
            name: name.to_owned(),
            key_hash: key_hash.clone(),
            created_at: now_micros(),
            rotated_at: None,
            version: 1,
            active: true,
        };
        let ghost ev = entry.kview();
        let ghost k0 = self.keys();
        let ghost a0 = self.audit();
        let mut whole = KeyManager::new();
        std::mem::swap(&mut whole, self);
        let KeyManager { keys, audit, calls } = whole;
        let mut keys = keys;
        let mut audit = audit;
        let ghost c0 = calls@;
        match Self::find_in(&keys, name) {
            Some(i) => {
                keys.set(i, entry);
                assert(keys@.map_values(|e: KeyEntry| e.kview()) =~= k0.update(i as int, ev));
            },
            None => {
                keys.push(entry);
                assert(keys@.map_values(|e: KeyEntry| e.kview()) =~= k0.push(ev));
            },
        }
        proof {
            lemma_upsert_unique(k0, ev);
        }
        let mut details = "Key created, hash=".to_owned();
        details.append(key_hash.as_str());
        assert(details@ == "Key created, hash="@ + key_fingerprint(key@));
        let t = Self::push_audit(&mut audit, "create", name, details);
        let ghost c1 = c0.push(KeyCall::Create(name@, key_fingerprint(key@), ev.created_at, t));
        assert(c1.drop_last() =~= c0);
        *self = KeyManager { keys, audit, calls: Ghost(c1) };
        proof {
            use_type_invariant(&*self);
        }
        assert(self.calls() == old(self).calls().push(KeyCall::Create(name@, key_fingerprint(key@), ev.created_at, t)));
        proof {
            lemma_created_key_found(k0, ev);
        }
        key
    }

    fn find_in(keys: &Vec<KeyEntry>, name: &str) -> (r: Option<usize>)
        requires
            names_unique(keys@.map_values(|e: KeyEntry| e.kview())),
        ensures
            match r {
                Some(i) => key_index(keys@.map_values(|e: KeyEntry| e.kview()), name@) == Some(
                    i as int,
                ) && i < keys@.len(),
                None => key_index(keys@.map_values(|e: KeyEntry| e.kview()), name@) is None,
            },
    {
        let ghost s = keys@.map_values(|e: KeyEntry| e.kview());
        let mut i: usize = 0;
        while i < keys.len()
            invariant
                i <= keys@.len(),
                s == keys@.map_values(|e: KeyEntry| e.kview()),
                names_unique(s),
                forall|k: int| 0 <= k < i ==> s[k].name != name@,
            decreases keys.len() - i,
        {
            if str_eq(keys[i].name.as_str(), name) {
                assert(s[i as int].name == name@);
                return Some(i);
            }
            i = i + 1;
        }
        None
    }
}

/// A key after rotation to a new key with fingerprint `hash` at time `t`.
pub open spec fn rotated(e: KeyView, hash: Seq<char>, t: u64) -> KeyView {
    KeyView {
        name: e.name,
        key_hash: hash,
        created_at: e.created_at,
        rotated_at: Some(t),
        version: (e.version + 1) as u32,
        active: e.active,
    }
}

/// The keys and audit log after rotating the key `name` to the key `k`: the key's
/// entry is rotated, at some time, and a `rotate` entry is logged.
pub open spec fn rotation_done(
    old_keys: Seq<KeyView>,
    new_keys: Seq<KeyView>,
    old_audit: Seq<AuditView>,
    new_audit: Seq<AuditView>,
    name: Seq<char>,
    k: Seq<u8>,
) -> bool {
    match key_index(old_keys, name) {
        Some(i) => {
            &&& exists|t: u64|
                new_keys == old_keys.update(i, #[trigger] rotated(old_keys[i], key_fingerprint(k), t))
            &&& exists|t: u64|
                new_audit == old_audit.push(
                    #[trigger] audit_entry(
                        "rotate"@,
                        name,
                        t,
                        "Rotated to v"@ + decimal((old_keys[i].version + 1) as nat) + ", hash="@
                            + key_fingerprint(k),
                    ),
                )
        },
        None => false,
    }
}

/// A key after deactivation.
pub open spec fn deactivated(e: KeyView) -> KeyView {
    KeyView {
        name: e.name,
        key_hash: e.key_hash,
        created_at: e.created_at,
        rotated_at: e.rotated_at,
        version: e.version,
        active: false,
    }
}

impl KeyManager {
    /// Rotate a key: derive a new key from the new passphrase, store its fingerprint,
    /// record the time and increment the version.
    pub fn rotate_key(&mut self, name: &str, new_passphrase: &str) -> (r: AdatResult<[u8; 32]>)
        requires
            key_index(old(self).keys(), name@) matches Some(i) ==> old(self).keys()[i].version
                < u32::MAX,
        ensures
            match r {
                Ok(k) => {
                    &&& k@ == spec_blake3(encode_utf8(new_passphrase@))
                    &&& rotation_done(
                        old(self).keys(),
                        final(self).keys(),
                        old(self).audit(),
                        final(self).audit(),
                        name@,
                        k@,
                    )
                },
                Err(AdatError::Encryption(m)) => {
                    &&& key_index(old(self).keys(), name@) is None
                    &&& m@ == key_not_found(name@)
                    &&& final(self).keys() == old(self).keys()
                    &&& final(self).audit() == old(self).audit()
                },
                Err(_) => false,
            },
            names_unique(final(self).keys()),
            match r {
                Ok(k) => exists|t: u64, lt: u64|
                    final(self).calls() == #[trigger] old(self).calls().push(
                        KeyCall::Rotate(name@, key_fingerprint(k@), t, lt),
                    ),
                Err(_) => final(self).calls() == old(self).calls().push(
                    KeyCall::Rotate(name@, Seq::empty(), 0, 0),
                ),
            },
            key_index(final(self).keys(), name@) == key_index(old(self).keys(), name@),
    {
        proof {
            use_type_invariant(&*self);
        }
        let i = match self.find(name) {
            Some(i) => i,
            None => {
                let ghost c1 = self.calls@.push(KeyCall::Rotate(name@, Seq::empty(), 0, 0));
                assert(c1.drop_last() =~= self.calls@);
                self.calls = Ghost(c1);
                return Err(AdatError::Encryption(not_found_message(name)));
            },
        };
        let new_key = blake3_hash(new_passphrase.as_bytes());
        let new_hash = string_of(&short_digest_exec(&new_key));
        let ghost k0 = self.keys();
        let ghost a0 = self.audit();
        let mut whole = KeyManager::new();
        std::mem::swap(&mut whole, self);
        let KeyManager { keys, audit, calls } = whole;
        let mut keys = keys;
        let mut audit = audit;
        let ghost c0 = calls@;
        let version = keys[i].version + 1;
        let now = now_micros();
        let e = KeyEntry {
            name: keys[i].name.clone(),
            key_hash: new_hash.clone(),
            created_at: keys[i].created_at,
            rotated_at: Some(now),
            version,
            active: keys[i].active,
        };
        let ghost ev = e.kview();
        keys.set(i, e);
        assert(keys@.map_values(|e: KeyEntry| e.kview()) =~= k0.update(i as int, ev));
        let mut details = "Rotated to v".to_owned();
        details.append(string_of(&decimal_exec(version as u128)).as_str());
        details.append(", hash=");
        details.append(new_hash.as_str());
        let ghost dv = details@;
        let t = Self::push_audit(&mut audit, "rotate", name, details);
        assert(ev == rotated(k0[i as int], key_fingerprint(new_key@), now));
        assert(dv == "Rotated to v"@ + decimal((k0[i as int].version + 1) as nat) + ", hash="@
            + key_fingerprint(new_key@));
        assert(key_index(k0, name@) == Some(i as int));
        let ghost c1 = c0.push(KeyCall::Rotate(name@, key_fingerprint(new_key@), now, t));
        assert(c1.drop_last() =~= c0);
        proof {
            lemma_updated_key_found(k0, name@, key_fingerprint(new_key@), now);
            let u = k0.update(i as int, ev);
            assert forall|x: int, y: int| 0 <= x < y < u.len() implies u[x].name != u[y].name by {
                assert(u[x].name == k0[x].name);
                assert(u[y].name == k0[y].name);
            }
        }
        *self = KeyManager { keys, audit, calls: Ghost(c1) };
        proof {
            use_type_invariant(&*self);
        }
        assert(self.keys() == k0.update(i as int, rotated(k0[i as int], key_fingerprint(new_key@), now)));
        assert(dv == "Rotated to v"@ + decimal((k0[i as int].version + 1) as nat) + ", hash="@
            + key_fingerprint(new_key@));
        assert(key_index(k0, name@) == Some(i as int));
        assert(self.audit() == old(self).audit().push(audit_entry("rotate"@, name@, t, dv)));
        assert(rotation_done(k0, self.keys(), old(self).audit(), self.audit(), name@, new_key@));
        assert(self.calls() == old(self).calls().push(KeyCall::Rotate(name@, key_fingerprint(new_key@), now, t)));
        Ok(new_key)
    }

    /// Deactivate a key.
    pub fn deactivate_key(&mut self, name: &str) -> (r: AdatResult<()>)
        ensures
            match r {
                Ok(_) => {
                    &&& key_index(old(self).keys(), name@) matches Some(i)
                        && final(self).keys() == old(self).keys().update(
                        i,
                        deactivated(old(self).keys()[i]),
                    )
                    &&& exists|t: u64|
                        final(self).audit() == old(self).audit().push(
                            AuditView {
                                operation: "deactivate"@,
                                key_name: name@,
                                timestamp: t,
                                details: "Key deactivated"@,
                            },
                        )
                },
                Err(AdatError::Encryption(m)) => {
                    &&& key_index(old(self).keys(), name@) is None
                    &&& m@ == key_not_found(name@)
                    &&& final(self).keys() == old(self).keys()
                    &&& final(self).audit() == old(self).audit()
                },
                Err(_) => false,
            },
            names_unique(final(self).keys()),
            match r {
                Ok(_) => exists|lt: u64|
                    final(self).calls() == #[trigger] old(self).calls().push(KeyCall::Deactivate(name@, lt)),
                Err(_) => final(self).calls() == old(self).calls().push(KeyCall::Deactivate(name@, 0)),
            },
            key_index(final(self).keys(), name@) == key_index(old(self).keys(), name@),
    {
        proof {
            use_type_invariant(&*self);
        }
        let i = match self.find(name) {
            Some(i) => i,
            None => {
                let ghost c1 = self.calls@.push(KeyCall::Deactivate(name@, 0));
                assert(c1.drop_last() =~= self.calls@);
                self.calls = Ghost(c1);
                return Err(AdatError::Encryption(not_found_message(name)));
            },
        };
        let ghost k0 = self.keys();
        let ghost a0 = self.audit();
        let mut whole = KeyManager::new();
        std::mem::swap(&mut whole, self);
        let KeyManager { keys, audit, calls } = whole;
        let mut keys = keys;
        let mut audit = audit;
        let ghost c0 = calls@;
        let e = KeyEntry {
            name: keys[i].name.clone(),
            key_hash: keys[i].key_hash.clone(),
            created_at: keys[i].created_at,
            rotated_at: keys[i].rotated_at,
            version: keys[i].version,
            active: false,
        };
        let ghost ev = e.kview();
        keys.set(i, e);
        assert(keys@.map_values(|e: KeyEntry| e.kview()) =~= k0.update(i as int, ev));
        let t = Self::push_audit(&mut audit, "deactivate", name, "Key deactivated".to_owned());
        assert(key_index(k0, name@) == Some(i as int));
        let ghost c1 = c0.push(KeyCall::Deactivate(name@, t));
        assert(c1.drop_last() =~= c0);
        proof {
            let u = k0.update(i as int, ev);
            assert forall|x: int, y: int| 0 <= x < y < u.len() implies u[x].name != u[y].name by {
                assert(u[x].name == k0[x].name);
                assert(u[y].name == k0[y].name);
            }
        }
        *self = KeyManager { keys, audit, calls: Ghost(c1) };
        proof {
            use_type_invariant(&*self);
        }
        assert(self.calls() == old(self).calls().push(KeyCall::Deactivate(name@, t)));
        proof {
            lemma_updated_key_found(k0, name@, Seq::empty(), 0);
        }
        Ok(())
    }

    /// Whether a key of that name exists and is active: it was created, and not
    /// deactivated since it was last created.
    pub fn is_active(&self, name: &str) -> (r: bool)
        ensures
            r == (key_index(self.keys(), name@) matches Some(i) && self.keys()[i].active),
            r == active_after(self.calls(), name@),
    {
        proof {
            use_type_invariant(self);
            lemma_key_lifecycle(self.calls(), name@);
        }
        match self.find(name) {
            Some(i) => self.keys[i].active,
            None => false,
        }
    }

    /// Name, activity and version of every key.
    pub fn list_keys(&self) -> (r: Vec<(&str, bool, u32)>)
        ensures
            r@.len() == self.keys().len(),
            forall|i: int|
                0 <= i < r@.len() ==> (#[trigger] r@[i]).0@ == self.keys()[i].name && r@[i].1
                    == self.keys()[i].active && r@[i].2 == self.keys()[i].version,
    {
        let mut out: Vec<(&str, bool, u32)> = Vec::new();
        let mut i: usize = 0;
        while i < self.keys.len()
            invariant
                i <= self.keys@.len(),
                out@.len() == i,
                forall|k: int|
                    0 <= k < i ==> (#[trigger] out@[k]).0@ == self.keys()[k].name && out@[k].1
                        == self.keys()[k].active && out@[k].2 == self.keys()[k].version,
            decreases self.keys.len() - i,
        {
            let e = &self.keys[i];
            out.push((e.name.as_str(), e.active, e.version));
            i = i + 1;
        }
        out
    }

    /// The audit log.
    pub fn audit_log(&self) -> (r: &[KeyAuditEntry])
        ensures
            r@.map_values(|e: KeyAuditEntry| audit_view(e)) == self.audit(),
            r@.len() == self.audit().len(),
            r@.len() == logged_calls(self.calls()),
    {
        proof {
            use_type_invariant(self);
            lemma_key_lifecycle(self.calls(), Seq::empty());
        }
        self.audit.as_slice()
    }

    /// Number of managed keys.
    pub fn key_count(&self) -> (r: usize)
        ensures
            r == self.keys().len(),
    {
        self.keys.len()
    }
}

impl Default for KeyManager {
    fn default() -> (r: KeyManager)
        ensures
            r.keys() == Seq::<KeyView>::empty(),
            r.audit() == Seq::<AuditView>::empty(),
            names_unique(r.keys()),
            r.calls() == Seq::<KeyCall>::empty(),
    {
        KeyManager::new()
    }
}

/// `Key '<name>' not found`.
fn not_found_message(name: &str) -> (r: String)
    ensures
        r@ == key_not_found(name@),
{
    let mut m = "Key '".to_owned();
    m.append(name);
    m.append("' not found");
    m
}

proof fn lemma_key_index_unique(s: Seq<KeyView>, i: int)
    requires
        names_unique(s),
        0 <= i < s.len(),
    ensures
        key_index(s, s[i].name) == Some(i),
{
}

proof fn lemma_upsert_unique(s: Seq<KeyView>, e: KeyView)
    requires
        names_unique(s),
    ensures
        names_unique(upsert_key(s, e)),
{
}

/// A created key is found under its name, as created, and the count of keys grows by
/// one exactly when the name was new.
pub proof fn lemma_created_key_found(s: Seq<KeyView>, e: KeyView)
    requires
        names_unique(s),
    ensures
        key_index(upsert_key(s, e), e.name) matches Some(i) && upsert_key(s, e)[i] == e,
        upsert_key(s, e).len() == s.len() + (if key_index(s, e.name) is None {
            1int
        } else {
            0int
        }),
{
    let u = upsert_key(s, e);
    match key_index(s, e.name) {
        Some(i) => {
            assert(u[i] == e);
            lemma_key_index_unique(u, i);
        },
        None => {
            assert(u[s.len() as int] == e);
            lemma_key_index_unique(u, s.len() as int);
        },
    }
}

/// A rotated or deactivated key stays under its name; rotation keeps whether it is
/// active and raises its version by one, deactivation leaves it inactive.
pub proof fn lemma_updated_key_found(s: Seq<KeyView>, name: Seq<char>, hash: Seq<char>, t: u64)
    requires
        names_unique(s),
        key_index(s, name) is Some,
    ensures
        ({
            let i = key_index(s, name)->0;
            &&& key_index(s.update(i, rotated(s[i], hash, t)), name) == Some(i)
            &&& s.update(i, rotated(s[i], hash, t))[i].active == s[i].active
            &&& s.update(i, rotated(s[i], hash, t))[i].version == (s[i].version + 1) as u32
            &&& key_index(s.update(i, deactivated(s[i])), name) == Some(i)
            &&& !s.update(i, deactivated(s[i]))[i].active
        }),
{
    let i = key_index(s, name)->0;
    lemma_key_index_unique(s.update(i, rotated(s[i], hash, t)), i);
    lemma_key_index_unique(s.update(i, deactivated(s[i])), i);
}

proof fn lemma_key_index_other(s: Seq<KeyView>, i: int, e: KeyView, n: Seq<char>)
    requires
        names_unique(s),
        0 <= i <= s.len(),
        e.name != n,
        i < s.len() ==> s[i].name != n,
        i < s.len() ==> e.name == s[i].name,
        i == s.len() ==> key_index(s, e.name) is None,
    ensures
        i < s.len() ==> key_index(s.update(i, e), n) == key_index(s, n),
        i == s.len() ==> key_index(s.push(e), n) == key_index(s, n),
{
    let u = if i < s.len() { s.update(i, e) } else { s.push(e) };
    assert(names_unique(u)) by {
        assert forall|x: int, y: int| 0 <= x < y < u.len() implies u[x].name != u[y].name by {
            if x != i && y != i {
                assert(u[x] == s[x] && u[y] == s[y]);
            } else if x == i {
                assert(i < s.len());
                assert(u[y] == s[y]);
                assert(s[i].name != s[y].name);
            } else {
                assert(u[x] == s[x]);
                if i < s.len() {
                    assert(s[x].name != s[i].name);
                } else {
                    assert(s[x].name != e.name);
                }
            }
        }
    }
    match key_index(s, n) {
        Some(j) => {
            assert(j != i);
            assert(u[j] == s[j]);
            lemma_key_index_unique(u, j);
        },
        None => {
            if exists|j: int| 0 <= j < u.len() && u[j].name == n {
                let j = choose|j: int| 0 <= j < u.len() && u[j].name == n;
                assert(j != i);
                assert(u[j] == s[j]);
            }
        },
    }
}

/// A call on a key manager, with what it used that is not an argument: a creation
/// with the new key's fingerprint, its creation time and the time it was logged; a
/// rotation with the new fingerprint, the rotation time and the log time; a
/// deactivation with its log time.
pub enum KeyCall {
    Create(Seq<char>, Seq<char>, u64, u64),
    Rotate(Seq<char>, Seq<char>, u64, u64),
    Deactivate(Seq<char>, u64),
}

/// The key a call names.
pub open spec fn call_key(c: KeyCall) -> Seq<char> {
    match c {
        KeyCall::Create(n, _, _, _) => n,
        KeyCall::Rotate(n, _, _, _) => n,
        KeyCall::Deactivate(n, _) => n,
    }
}

/// The operation that a call logs.
pub open spec fn call_operation(c: KeyCall) -> Seq<char> {
    match c {
        KeyCall::Create(..) => "create"@,
        KeyCall::Rotate(..) => "rotate"@,
        KeyCall::Deactivate(..) => "deactivate"@,
    }
}

/// The keys and audit log after one call, as the methods' contracts give them: a
/// creation always succeeds; a rotation or deactivation succeeds when the key exists,
/// and otherwise changes nothing.
pub open spec fn key_step(st: (Seq<KeyView>, Seq<AuditView>), c: KeyCall) -> (Seq<KeyView>, Seq<AuditView>) {
    let (keys, audit) = st;
    match c {
        KeyCall::Create(n, h, t, lt) => (
            upsert_key(
                keys,
                KeyView { name: n, key_hash: h, created_at: t, rotated_at: None, version: 1, active: true },
            ),
            audit.push(audit_entry("create"@, n, lt, "Key created, hash="@ + h)),
        ),
        KeyCall::Rotate(n, h, t, lt) => match key_index(keys, n) {
            Some(i) => (
                keys.update(i, rotated(keys[i], h, t)),
                audit.push(
                    audit_entry(
                        "rotate"@,
                        n,
                        lt,
                        "Rotated to v"@ + decimal((keys[i].version + 1) as nat) + ", hash="@ + h,
                    ),
                ),
            ),
            None => (keys, audit),
        },
        KeyCall::Deactivate(n, lt) => match key_index(keys, n) {
            Some(i) => (
                keys.update(i, deactivated(keys[i])),
                audit.push(audit_entry("deactivate"@, n, lt, "Key deactivated"@)),
            ),
            None => (keys, audit),
        },
    }
}

/// The keys and audit log after the calls, on a new manager.
pub open spec fn key_run(calls: Seq<KeyCall>) -> (Seq<KeyView>, Seq<AuditView>)
    decreases calls.len(),
{
    if calls.len() == 0 {
        (Seq::empty(), Seq::empty())
    } else {
        key_step(key_run(calls.drop_last()), calls.last())
    }
}

/// Whether a key of that name exists and is active.
pub open spec fn key_active(keys: Seq<KeyView>, n: Seq<char>) -> bool {
    key_index(keys, n) matches Some(i) && keys[i].active
}

/// Whether the calls leave the key `n` active: it was created, and not deactivated
/// since its last creation.
pub open spec fn active_after(calls: Seq<KeyCall>, n: Seq<char>) -> bool
    decreases calls.len(),
{
    if calls.len() == 0 {
        false
    } else {
        match calls.last() {
            KeyCall::Create(m, _, _, _) => m == n || active_after(calls.drop_last(), n),
            KeyCall::Rotate(..) => active_after(calls.drop_last(), n),
            KeyCall::Deactivate(m, _) => m != n && active_after(calls.drop_last(), n),
        }
    }
}

/// The number of calls that succeed and are logged.
pub open spec fn logged_calls(calls: Seq<KeyCall>) -> nat
    decreases calls.len(),
{
    if calls.len() == 0 {
        0
    } else {
        logged_calls(calls.drop_last()) + match calls.last() {
            KeyCall::Create(..) => 1nat,
            _ => if key_index(key_run(calls.drop_last()).0, call_key(calls.last())) is Some {
                1nat
            } else {
                0nat
            },
        }
    }
}

/// Over any calls on a new manager: each name occurs once; a key is active exactly
/// when it was created and not deactivated since its last creation (rotation leaves
/// that unchanged, and unknown names are never active); the audit log holds one entry
/// per successful call and only grows, each call keeping the entries before it; and
/// the entry a call adds names the call's operation and key.
pub proof fn lemma_key_lifecycle(calls: Seq<KeyCall>, n: Seq<char>)
    ensures
        names_unique(key_run(calls).0),
        key_active(key_run(calls).0, n) == active_after(calls, n),
        key_run(calls).1.len() == logged_calls(calls),
        calls.len() > 0 ==> key_run(calls).1.subrange(0, key_run(calls.drop_last()).1.len() as int)
            == key_run(calls.drop_last()).1,
        calls.len() > 0 && key_run(calls).1.len() > key_run(calls.drop_last()).1.len() ==> key_run(
            calls,
        ).1.last().operation == call_operation(calls.last()) && key_run(calls).1.last().key_name
            == call_key(calls.last()),
    decreases calls.len(),
{
    if calls.len() > 0 {
        let pre = calls.drop_last();
        lemma_key_lifecycle(pre, n);
        let (keys, audit) = key_run(pre);
        match calls.last() {
            KeyCall::Create(m, h, t, lt) => {
                let e = KeyView { name: m, key_hash: h, created_at: t, rotated_at: None, version: 1, active: true };
                lemma_upsert_unique(keys, e);
                if m == n {
                    lemma_created_key_found(keys, e);
                } else {
                    match key_index(keys, m) {
                        Some(i) => lemma_key_index_other(keys, i, e, n),
                        None => lemma_key_index_other(keys, keys.len() as int, e, n),
                    }
                }
            },
            KeyCall::Rotate(m, h, t, lt) => {
                match key_index(keys, m) {
                    Some(i) => {
                        lemma_updated_key_found(keys, m, h, t);
                        let u = keys.update(i, rotated(keys[i], h, t));
                        lemma_key_index_unique(keys, i);
                        if m != n {
                            lemma_key_index_other(keys, i, rotated(keys[i], h, t), n);
                        }
                        assert(names_unique(u)) by {
                            assert forall|x: int, y: int| 0 <= x < y < u.len() implies u[x].name != u[y].name by {
                                assert(u[x].name == keys[x].name);
                                assert(u[y].name == keys[y].name);
                            }
                        }
                    },
                    None => {},
                }
            },
            KeyCall::Deactivate(m, lt) => {
                match key_index(keys, m) {
                    Some(i) => {
                        lemma_updated_key_found(keys, m, Seq::empty(), 0);
                        let u = keys.update(i, deactivated(keys[i]));
                        if m != n {
                            lemma_key_index_other(keys, i, deactivated(keys[i]), n);
                        }
                        assert(names_unique(u)) by {
                            assert forall|x: int, y: int| 0 <= x < y < u.len() implies u[x].name != u[y].name by {
                                assert(u[x].name == keys[x].name);
                                assert(u[y].name == keys[y].name);
                            }
                        }
                    },
                    None => {},
                }
            },
        }
        assert(key_run(calls).1.subrange(0, audit.len() as int) =~= audit);
    }
}

} // verus!
