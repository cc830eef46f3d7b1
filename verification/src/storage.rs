//! The token cache orchestrator: it owns the in-memory index and
//! prepares everything the surrounding process needs for the two
//! persistence backends. File and secret-store I/O, and the
//! exclusive-access guard serializing concurrent callers, live outside
//! this library; every decision — what the index becomes, what bytes go
//! to the file, which key and value go to the secret store — is made
//! and proved here.
use vstd::prelude::*;
use crate::StorageError;
use crate::codec::ser_index;
use crate::codec::entries_ok;
use crate::codec::raw_views;
use crate::codec::emit_u64;
use crate::codec::emit_record;
use crate::codec::parse_index_str;
use crate::codec::lemma_ser_records_push;
use crate::codec::dec_seq;
use crate::codec::ser_record;
use crate::fingerprint::ScopeSet;
use crate::fingerprint::scope_views;
use crate::index::JSONTokens;
use crate::index::JSONTokenView;
use crate::index::TokenInfo;
use crate::index::TokenInfoView;
use crate::index::token_wf;
use crate::index::spec_set;
use crate::index::spec_match_exists;
use crate::keychain::Keychain;

verus! {

/// What the index persists: for each record, its scopes and payload.
/// The fingerprint is left out; it is derived again on load.
pub open spec fn entries_of(rs: Seq<JSONTokenView>) -> Seq<(Seq<Seq<char>>, TokenInfoView)> {
    Seq::new(rs.len(), |i: int| (rs[i].scopes, rs[i].token))
}

/// The index after merging a run of loaded records, each through the
/// same overwrite-on-equal-fingerprint logic as a live store.
pub open spec fn spec_merge(
    rs: Seq<JSONTokenView>,
    es: Seq<(Seq<Seq<char>>, TokenInfoView)>,
) -> Seq<JSONTokenView>
    decreases es.len(),
{
    if es.len() == 0 {
        rs
    } else {
        spec_merge(spec_set(rs, es[0].0, es[0].1), es.drop_first())
    }
}

/// Serialize the whole index: the canonical encoding of its records in
/// their stored order.
pub fn serialize_index(tokens: &JSONTokens) -> (r: String)
    ensures
        r@ == ser_index(entries_of(tokens@)),
        entries_ok(entries_of(tokens@)),
{
    let ghost es = entries_of(tokens@);
    let mut out = String::new();
    let n = tokens.len();
    emit_u64(&mut out, n as u64);
    for i in 0..n
        invariant
            n == tokens@.len(),
            es == entries_of(tokens@),
            out@ == crate::codec::ser_u64(es.len()) + crate::codec::ser_records(
                es.take(i as int),
            ),
            forall|k: int|
                0 <= k < i ==> crate::codec::record_ok((#[trigger] es[k]).0, es[k].1),
    {
        let rec = tokens.record_at(i);
        emit_record(&mut out, &rec.scopes, &rec.token);
        proof {
            assert(es.take(i + 1) =~= es.take(i as int).push(es[i as int]));
            lemma_ser_records_push(es.take(i as int), es[i as int]);
            assert(es[i as int].0 == scope_views(rec.scopes@) && es[i as int].1 == rec.token@);
            assert(out@ =~= crate::codec::ser_u64(es.len()) + crate::codec::ser_records(
                es.take(i + 1),
            ));
        }
    }
    proof {
        crate::codec::lemma_pow16_values();
        assert(es.take(n as int) =~= es);
    }
    out
}

/// Merging the persisted entries of a well-formed index into an empty
/// one rebuilds it exactly: nothing is lost or reordered by a save
/// followed by a load.
pub proof fn lemma_saved_index_rebuilds(rs: Seq<JSONTokenView>)
    requires
        forall|i: int| 0 <= i < rs.len() ==> token_wf(#[trigger] rs[i]),
        forall|i: int, j: int| 0 <= i < j < rs.len() ==> rs[i].hash != rs[j].hash,
    ensures
        spec_merge(Seq::<JSONTokenView>::empty(), entries_of(rs)) == rs,
{
    lemma_rebuild_from(rs, 0);
    assert(rs.take(0) =~= Seq::<JSONTokenView>::empty());
    assert(entries_of(rs).skip(0) =~= entries_of(rs));
}

proof fn lemma_rebuild_from(rs: Seq<JSONTokenView>, i: int)
    requires
        0 <= i <= rs.len(),
        forall|k: int| 0 <= k < rs.len() ==> token_wf(#[trigger] rs[k]),
        forall|k: int, j: int| 0 <= k < j < rs.len() ==> rs[k].hash != rs[j].hash,
    ensures
        spec_merge(rs.take(i), entries_of(rs).skip(i)) == rs,
    decreases rs.len() - i,
{
    let es = entries_of(rs);
    if i == rs.len() {
        assert(es.skip(i) =~= Seq::<(Seq<Seq<char>>, TokenInfoView)>::empty());
        assert(rs.take(i) =~= rs);
    } else {
        assert(es.skip(i)[0] == es[i]);
        assert(es.skip(i).drop_first() =~= es.skip(i + 1));
        let acc = rs.take(i);
        let h = crate::fingerprint::scopes_hash(rs[i].scopes);
        assert(h == rs[i].hash);
        assert forall|j: int| 0 <= j < acc.len() implies (#[trigger] acc[j]).hash != h by {
            assert(acc[j] == rs[j]);
        }
        let pushed = JSONTokenView {
            scopes: rs[i].scopes,
            token: rs[i].token,
            hash: h,
            filter: crate::fingerprint::scopes_filter(rs[i].scopes),
        };
        assert(pushed == rs[i]);
        assert(spec_set(acc, rs[i].scopes, rs[i].token) == acc.push(rs[i]));
        assert(acc.push(rs[i]) =~= rs.take(i + 1));
        lemma_rebuild_from(rs, i + 1);
    }
}

/// Storing under a scope list keeps the index well formed, and leaves
/// a record carrying the stored token under the scopes' fingerprint
/// hash.
pub proof fn lemma_spec_set_wf(rs: Seq<JSONTokenView>, scopes: Seq<Seq<char>>, token: TokenInfoView)
    requires
        forall|i: int| 0 <= i < rs.len() ==> token_wf(#[trigger] rs[i]),
        forall|i: int, j: int| 0 <= i < j < rs.len() ==> rs[i].hash != rs[j].hash,
    ensures
        ({
            let after = spec_set(rs, scopes, token);
            &&& forall|i: int| 0 <= i < after.len() ==> token_wf(#[trigger] after[i])
            &&& forall|i: int, j: int| 0 <= i < j < after.len() ==> after[i].hash != after[j].hash
            &&& exists|i: int|
                0 <= i < after.len() && (#[trigger] after[i]).hash == crate::fingerprint::scopes_hash(
                    scopes,
                ) && after[i].token == token
        }),
{
    let h = crate::fingerprint::scopes_hash(scopes);
    let after = spec_set(rs, scopes, token);
    if exists|i: int| 0 <= i < rs.len() && rs[i].hash == h {
        let i = choose|i: int| 0 <= i < rs.len() && rs[i].hash == h;
        assert(after[i].hash == h && after[i].token == token);
        assert(forall|k: int|
            0 <= k < after.len() && k != i ==> after[k] == rs[k] && token_wf(#[trigger] after[k]));
        assert(token_wf(after[i]));
    } else {
        assert(after[rs.len() as int].hash == h && after[rs.len() as int].token == token);
        assert(forall|k: int|
            0 <= k < rs.len() ==> after[k] == rs[k] && token_wf(#[trigger] after[k]));
        assert(token_wf(after[rs.len() as int]));
    }
}

/// Exact round trip: a token stored under some scope list survives a
/// save and a load unchanged, and a lookup for the same scopes in any
/// order must answer — the fingerprint is order-independent, the index
/// rebuilt from its persisted entries is the index that was saved, and
/// a record carrying the stored token stands under the requested hash.
pub proof fn lemma_exact_round_trip(
    rs: Seq<JSONTokenView>,
    stored: Seq<Seq<char>>,
    requested: Seq<Seq<char>>,
    token: TokenInfoView,
)
    requires
        forall|i: int| 0 <= i < rs.len() ==> token_wf(#[trigger] rs[i]),
        forall|i: int, j: int| 0 <= i < j < rs.len() ==> rs[i].hash != rs[j].hash,
        stored.to_multiset() == requested.to_multiset(),
    ensures
        ({
            let after = spec_set(rs, stored, token);
            &&& spec_merge(Seq::<JSONTokenView>::empty(), entries_of(after)) == after
            &&& spec_match_exists(after, crate::fingerprint::scopes_hash(requested), requested)
            &&& exists|i: int|
                0 <= i < after.len() && (#[trigger] after[i]).hash
                    == crate::fingerprint::scopes_hash(requested) && after[i].token == token
        }),
{
    let after = spec_set(rs, stored, token);
    lemma_spec_set_wf(rs, stored, token);
    lemma_saved_index_rebuilds(after);
    crate::fingerprint::lemma_fingerprint_order_independent(stored, requested);
    let i = choose|i: int|
        0 <= i < after.len() && (#[trigger] after[i]).hash == crate::fingerprint::scopes_hash(
            stored,
        ) && after[i].token == token;
    assert(after[i].hash == crate::fingerprint::scopes_hash(requested));
    assert(spec_match_exists(after, crate::fingerprint::scopes_hash(requested), requested));
}

/// An unhydrated cache answers no lookup: no record of an empty index
/// can match, exactly or by subset.
pub proof fn lemma_empty_cache_lookup(req_hash: u64, req_scopes: Seq<Seq<char>>)
    ensures
        !spec_match_exists(Seq::<JSONTokenView>::empty(), req_hash, req_scopes),
{
}

/// The scope-indexed credential cache: the in-memory index, the
/// identity for the secret store, and the optional path of the
/// persistence file. The process around it holds this behind an
/// exclusive-access guard and performs the file and secret-store I/O
/// with the values these methods hand out.
pub struct KeychainStorage {
    tokens: JSONTokens,
    keychain: Keychain,
    filename: Option<String>,
}

impl KeychainStorage {
    /// The records currently held, as mathematical values.
    pub closed spec fn view_records(self) -> Seq<JSONTokenView> {
        self.tokens@
    }

    /// The index invariant: unique fingerprint hashes, each derived
    /// from its record's own scopes.
    pub closed spec fn wf(self) -> bool {
        self.tokens.wf()
    }

    pub closed spec fn spec_filename(self) -> Option<Seq<char>> {
        crate::index::opt_str_view(self.filename)
    }

    /// A fresh cache: an empty index, no hydration performed.
    pub fn new(filename: Option<String>) -> (r: Self)
        ensures
            r.wf(),
            r.view_records() =~= Seq::<JSONTokenView>::empty(),
            r.spec_filename() == crate::index::opt_str_view(filename),
    {
        KeychainStorage { tokens: JSONTokens::new(), keychain: Keychain::new(), filename }
    }

    /// The path of the persistence file, where one is configured.
    pub fn filename(&self) -> (r: &Option<String>)
        ensures
            crate::index::opt_str_view(*r) == self.spec_filename(),
    {
        &self.filename
    }

    /// Look up a token for the requested scopes: an exact fingerprint
    /// match first, then any record stored for a superset of the
    /// request. Absence is a normal outcome, never an error.
    pub fn get(&self, scopes: &[String]) -> (r: Option<TokenInfo>)
        requires
            self.wf(),
        ensures
            r is Some <==> spec_match_exists(
                self.view_records(),
                crate::fingerprint::scopes_hash(scope_views(scopes@)),
                scope_views(scopes@),
            ),
            r matches Some(t) ==> exists|i: int|
                0 <= i < self.view_records().len() && t@ == self.view_records()[i].token && (
                self.view_records()[i].hash == crate::fingerprint::scopes_hash(
                    scope_views(scopes@),
                ) || crate::fingerprint::scope_subset(
                    scope_views(scopes@),
                    self.view_records()[i].scopes,
                )),
    {
        let req = ScopeSet::from(scopes);
        self.tokens.get(req)
    }

    /// Store a token for a scope list: the in-memory index is updated
    /// at once (visible to every later lookup), and the serialized
    /// snapshot to be written to the persistence file is handed back —
    /// writing it, after the access guard is released, is the caller's
    /// step, so a failed or late write never touches the in-memory
    /// state. Without a configured file there is nothing to write.
    pub fn set(&mut self, scopes: &[String], token: TokenInfo) -> (r: Result<
        Option<String>,
        StorageError,
    >)
        requires
            old(self).wf(),
        ensures
            final(self).wf(),
            final(self).view_records() == spec_set(
                old(self).view_records(),
                scope_views(scopes@),
                token@,
            ),
            final(self).spec_filename() == old(self).spec_filename(),
            r is Ok,
            (r matches Ok(o) && o is Some) <==> old(self).spec_filename() is Some,
            r matches Ok(Some(snapshot)) ==> snapshot@ == ser_index(
                entries_of(final(self).view_records()),
            ),
    {
        let req = ScopeSet::from(scopes);
        let res = self.tokens.set(req, token);
        match res {
            Ok(()) => {},
            Err(e) => {
                return Err(e);
            },
        }
        match &self.filename {
            Some(_) => {
                let snapshot = serialize_index(&self.tokens);
                Ok(Some(snapshot))
            },
            None => Ok(None),
        }
    }

    /// Merge loaded file content into the index: each record is
    /// re-fingerprinted from its scopes and stored through the same
    /// overwrite-on-equal-fingerprint logic as a live store. A missing
    /// file is not an error: nothing is merged. Malformed content is a
    /// fatal serialization error and leaves the index unchanged.
    pub fn hydrate_content(&mut self, content: Option<&str>) -> (r: Result<(), StorageError>)
        requires
            old(self).wf(),
        ensures
            final(self).wf(),
            final(self).spec_filename() == old(self).spec_filename(),
            content is None ==> r is Ok && final(self).view_records() == old(
                self,
            ).view_records(),
            r is Err ==> r == Result::<(), StorageError>::Err(StorageError::Serialization)
                && final(self).view_records() == old(self).view_records(),
            forall|es: Seq<(Seq<Seq<char>>, TokenInfoView)>|
                content matches Some(s) && entries_ok(es) && s@ == ser_index(es) ==> (r is Ok
                    && final(self).view_records() == spec_merge(old(self).view_records(), es)),
    {
        let s = match content {
            None => {
                return Ok(());
            },
            Some(s) => s,
        };
        let parsed = parse_index_str(s);
        let entries = match parsed {
            None => {
                return Err(StorageError::Serialization);
            },
            Some(v) => v,
        };
        let ghost es = raw_views(entries@);
        let ghost rs0 = self.tokens@;
        proof {
            assert(es.skip(0) =~= es);
        }
        let n = entries.len();
        for i in 0..n
            invariant
                n == entries@.len(),
                es == raw_views(entries@),
                self.wf(),
                self.spec_filename() == old(self).spec_filename(),
                spec_merge(rs0, es) == spec_merge(self.tokens@, es.skip(i as int)),
        {
            let entry = &entries[i];
            let req = ScopeSet::from(entry.0.as_slice());
            proof {
                assert(es.skip(i as int)[0] == es[i as int]);
                assert(es.skip(i as int).drop_first() =~= es.skip(i as int + 1));
                assert(es[i as int].0 == scope_views(entry.0@) && es[i as int].1 == entry.1@);
            }
            let tok = entry.1.clone();
            let res = self.tokens.set(req, tok);
            match res {
                Ok(()) => {},
                Err(e) => {
                    return Err(e);
                },
            }
        }
        proof {
            assert(es.skip(n as int) =~= Seq::<(Seq<Seq<char>>, TokenInfoView)>::empty());
        }
        Ok(())
    }

    /// The full secret-store sync pass run after hydration: for each
    /// record, the key and value under which it is mirrored. The
    /// surrounding process checks each key and writes the value only
    /// where no entry exists (see `Keychain::should_write`).
    pub fn keychain_plan(&self) -> (r: Vec<(String, String)>)
        requires
            self.wf(),
        ensures
            r@.len() == self.view_records().len(),
            forall|i: int|
                0 <= i < r@.len() ==> (#[trigger] r@[i]).0@ == dec_seq(
                    self.view_records()[i].hash as nat,
                ) && r@[i].1@ == ser_record(
                    self.view_records()[i].scopes,
                    self.view_records()[i].token,
                ),
    {
        let mut out: Vec<(String, String)> = Vec::new();
        let n = self.tokens.len();
        for i in 0..n
            invariant
                n == self.tokens@.len(),
                self.wf(),
                out@.len() == i,
                forall|k: int|
                    0 <= k < i ==> (#[trigger] out@[k]).0@ == dec_seq(self.tokens@[k].hash as nat)
                        && out@[k].1@ == ser_record(
                        self.tokens@[k].scopes,
                        self.tokens@[k].token,
                    ),
        {
            let rec = self.tokens.record_at(i);
            let key = self.keychain.entry_key(rec.hash);
            let value = Keychain::entry_value(rec);
            out.push((key, value));
        }
        out
    }
}

} // verus!
