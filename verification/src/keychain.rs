//! Key and value derivation for mirroring records into the OS-level
//! secret store. One entry is kept per distinct scope-set fingerprint,
//! keyed by the decimal form of the fingerprint hash, scoped by a
//! constant service name and the current OS user. Entries are
//! write-once: an existing entry is never replaced.
use vstd::prelude::*;
use crate::ScopeHash;
use crate::codec::u64_to_dec;
use crate::codec::dec_seq;
use crate::codec::ser_record;
use crate::codec::record_ok;
use crate::codec::emit_record;
use crate::index::JSONToken;

verus! {

/// Relies on whoami::username: the current OS user's name. The result
/// depends on the environment, so nothing is stated of it.
#[verifier::external_body]
fn os_username() -> String {
    whoami::username()
}

fn service_name() -> (r: String)
    ensures
        r@ == "remote_conf_sync"@,
{
    "remote_conf_sync".to_owned()
}

/// The identity under which records are mirrored to the secret store:
/// a constant service name, scoped by the current OS user.
#[derive(Clone)]
pub struct Keychain {
    pub user: String,
    pub service: String,
}

impl Keychain {
    /// A keychain handle for the current OS user.
    pub fn new() -> (r: Keychain)
        ensures
            r.service@ == "remote_conf_sync"@,
    {
        Keychain { user: os_username(), service: service_name() }
    }

    /// The secret-store key for a fingerprint hash: its decimal string.
    pub fn entry_key(&self, hash: ScopeHash) -> (r: String)
        ensures
            r@ == dec_seq(hash.0 as nat),
    {
        u64_to_dec(hash.0)
    }

    /// The secret value mirrored for one record: its scopes and payload
    /// in the same shape as a file record.
    pub fn entry_value(rec: &JSONToken) -> (r: String)
        ensures
            r@ == ser_record(rec@.scopes, rec@.token),
            record_ok(rec@.scopes, rec@.token),
    {
        let mut out = String::new();
        emit_record(&mut out, &rec.scopes, &rec.token);
        proof {
            assert(out@ =~= ser_record(rec@.scopes, rec@.token));
        }
        out
    }

    /// Write-once policy: a record is written to the secret store only
    /// where no entry exists under its key; an existing entry is left
    /// untouched, never updated.
    pub fn should_write(entry_exists: bool) -> (r: bool)
        ensures
            r == !entry_exists,
    {
        !entry_exists
    }
}

} // verus!
