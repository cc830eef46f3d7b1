//! The in-memory token index: one record per distinct scope-set
//! fingerprint, with exact lookup by fingerprint hash and subset lookup
//! guarded by the bloom-style filter.
use vstd::prelude::*;
use crate::StorageError;
use crate::ScopeHash;
use crate::ScopeFilter;
use crate::FilterResponse;
use crate::fingerprint::ScopeSet;
use crate::fingerprint::scope_views;
use crate::fingerprint::scope_subset;
use crate::fingerprint::scopes_hash;
use crate::fingerprint::scopes_filter;
use crate::fingerprint::lemma_filter_no_false_negative;

verus! {

/// Mathematical value of a credential payload.
pub struct TokenInfoView {
    pub access_token: Option<Seq<char>>,
    pub refresh_token: Option<Seq<char>>,
    pub expires_at: Option<i64>,
    pub id_token: Option<Seq<char>>,
}

/// An opaque credential payload: the cache stores and returns it
/// unmodified and never interprets its fields.
#[derive(Debug)]
pub struct TokenInfo {
    pub access_token: Option<String>,
    pub refresh_token: Option<String>,
    pub expires_at: Option<i64>,
    pub id_token: Option<String>,
}

pub open spec fn opt_str_view(s: Option<String>) -> Option<Seq<char>> {
    match s {
        Some(v) => Some(v@),
        None => None,
    }
}

impl View for TokenInfo {
    type V = TokenInfoView;

    open spec fn view(&self) -> TokenInfoView {
        TokenInfoView {
            access_token: opt_str_view(self.access_token),
            refresh_token: opt_str_view(self.refresh_token),
            expires_at: self.expires_at,
            id_token: opt_str_view(self.id_token),
        }
    }
}

fn clone_opt_string(s: &Option<String>) -> (r: Option<String>)
    ensures
        opt_str_view(r) == opt_str_view(*s),
{
    match s {
        Some(v) => Some(v.clone()),
        None => None,
    }
}

impl Clone for TokenInfo {
    fn clone(&self) -> (r: Self)
        ensures
            r@ == self@,
    {
        TokenInfo {
            access_token: clone_opt_string(&self.access_token),
            refresh_token: clone_opt_string(&self.refresh_token),
            expires_at: self.expires_at,
            id_token: clone_opt_string(&self.id_token),
        }
    }
}

/// Mathematical value of one stored record.
pub struct JSONTokenView {
    pub scopes: Seq<Seq<char>>,
    pub token: TokenInfoView,
    pub hash: u64,
    pub filter: u64,
}

/// A single stored token: the scope list it was granted for, the opaque
/// payload, and the fingerprint derived from the scopes.
#[derive(Debug, Clone)]
pub struct JSONToken {
    pub scopes: Vec<String>,
    pub token: TokenInfo,
    pub hash: ScopeHash,
    pub filter: ScopeFilter,
}

impl View for JSONToken {
    type V = JSONTokenView;

    open spec fn view(&self) -> JSONTokenView {
        JSONTokenView {
            scopes: scope_views(self.scopes@),
            token: self.token@,
            hash: self.hash.0,
            filter: self.filter.0,
        }
    }
}

/// The fingerprint fields of a record agree with its scope list.
pub open spec fn token_wf(t: JSONTokenView) -> bool {
    &&& t.hash == scopes_hash(t.scopes)
    &&& t.filter == scopes_filter(t.scopes)
}

/// The index after storing `token` under `scopes`: if a record with the
/// same fingerprint hash exists its token is overwritten in place
/// (scopes and fingerprint unchanged), otherwise a new record is
/// appended. The index never shrinks.
pub open spec fn spec_set(
    rs: Seq<JSONTokenView>,
    scopes: Seq<Seq<char>>,
    token: TokenInfoView,
) -> Seq<JSONTokenView> {
    let h = scopes_hash(scopes);
    if exists|i: int| 0 <= i < rs.len() && rs[i].hash == h {
        let i = choose|i: int| 0 <= i < rs.len() && rs[i].hash == h;
        rs.update(i, JSONTokenView { token, ..rs[i] })
    } else {
        rs.push(
            JSONTokenView { scopes, token, hash: h, filter: scopes_filter(scopes) },
        )
    }
}

/// Some record of the index answers the request: either its fingerprint
/// hash matches exactly, or it was stored for a superset of the
/// requested scopes.
pub open spec fn spec_match_exists(
    rs: Seq<JSONTokenView>,
    req_hash: u64,
    req_scopes: Seq<Seq<char>>,
) -> bool {
    exists|i: int|
        0 <= i < rs.len() && (rs[i].hash == req_hash || scope_subset(req_scopes, rs[i].scopes))
}

/// The in-memory token index. Keys (fingerprint hashes) are unique and
/// every record's fingerprint is derived from its own scope list.
#[derive(Debug)]
pub struct JSONTokens {
    records: Vec<JSONToken>,
}

impl View for JSONTokens {
    type V = Seq<JSONTokenView>;

    closed spec fn view(&self) -> Seq<JSONTokenView> {
        Seq::new(self.records@.len(), |i: int| self.records@[i]@)
    }
}

impl Default for JSONTokens {
    fn default() -> (r: JSONTokens)
        ensures
            r@ =~= Seq::<JSONTokenView>::empty(),
            r.wf(),
    {
        JSONTokens { records: Vec::new() }
    }
}

/// Every requested scope occurs in the stored scope list.
fn scopes_contained(req: &[String], stored: &Vec<String>) -> (r: bool)
    ensures
        r == scope_subset(scope_views(req@), scope_views(stored@)),
{
    let n = req.len();
    for i in 0..n
        invariant
            n == req@.len(),
            forall|k: int|
                0 <= k < i ==> scope_views(stored@).contains(#[trigger] scope_views(req@)[k]),
    {
        let mut found = false;
        let m = stored.len();
        for j in 0..m
            invariant
                m == stored@.len(),
                i < req@.len(),
                found <==> exists|l: int| 0 <= l < j && stored@[l]@ == req@[i as int]@,
        {
            if req[i] == stored[j] {
                proof {
                    assert(stored@[j as int]@ == req@[i as int]@);
                }
                found = true;
            }
        }
        if found {
            proof {
                let l = choose|l: int| 0 <= l < stored@.len() && stored@[l]@ == req@[i as int]@;
                assert(scope_views(stored@)[l] == scope_views(req@)[i as int]);
                assert(scope_views(stored@).contains(scope_views(req@)[i as int]));
            }
        } else {
            proof {
                assert(!scope_views(stored@).contains(scope_views(req@)[i as int])) by {
                    if scope_views(stored@).contains(scope_views(req@)[i as int]) {
                        let l = choose|l: int|
                            0 <= l < stored@.len() && scope_views(stored@)[l] == scope_views(
                                req@,
                            )[i as int];
                        assert(stored@[l]@ == req@[i as int]@);
                    }
                }
            }
            return false;
        }
    }
    true
}

impl JSONTokens {
    /// Keys unique, and every record's fingerprint derived from its scopes.
    pub open spec fn wf(self) -> bool {
        &&& forall|i: int| 0 <= i < self@.len() ==> token_wf(#[trigger] self@[i])
        &&& forall|i: int, j: int| 0 <= i < j < self@.len() ==> self@[i].hash != self@[j].hash
    }

    /// A fresh, empty index.
    pub fn new() -> (r: Self)
        ensures
            r@ =~= Seq::<JSONTokenView>::empty(),
            r.wf(),
    {
        JSONTokens { records: Vec::new() }
    }

    /// How many records the index holds.
    pub fn len(&self) -> (n: usize)
        ensures
            n == self@.len(),
    {
        self.records.len()
    }

    /// All records, for a fresh pass over the current state; the order
    /// they stand in carries no meaning.
    pub fn iter(&self) -> (r: &Vec<JSONToken>)
        ensures
            r@.len() == self@.len(),
            forall|i: int| 0 <= i < r@.len() ==> (#[trigger] r@[i])@ == self@[i],
    {
        &self.records
    }

    /// The record at a given position; iteration order is unspecified.
    pub fn record_at(&self, i: usize) -> (r: &JSONToken)
        requires
            i < self@.len(),
        ensures
            r@ == self@[i as int],
    {
        &self.records[i]
    }

    /// Look a token up: first by exact fingerprint hash, then by a
    /// subset search over the stored records (filter-guarded). Which
    /// superset record answers, if several could, is unspecified; that a
    /// match is found whenever one exists is not.
    pub fn get(&self, req: ScopeSet<'_>) -> (r: Option<TokenInfo>)
        requires
            req.wf(),
            self.wf(),
        ensures
            r is Some <==> spec_match_exists(self@, req.hash.0, scope_views(req.scopes@)),
            (exists|i: int| 0 <= i < self@.len() && self@[i].hash == req.hash.0) ==> (r matches Some(
                t,
            ) && exists|i: int|
                0 <= i < self@.len() && self@[i].hash == req.hash.0 && t@ == self@[i].token),
            r matches Some(t) ==> exists|i: int|
                0 <= i < self@.len() && t@ == self@[i].token && (self@[i].hash == req.hash.0
                    || scope_subset(scope_views(req.scopes@), self@[i].scopes)),
    {
        let ghost rs = self@;
        let ghost rv = scope_views(req.scopes@);
        let n = self.records.len();
        for i in 0..n
            invariant
                n == rs.len(),
                rs == self@,
                forall|k: int| 0 <= k < i ==> (#[trigger] rs[k]).hash != req.hash.0,
        {
            if self.records[i].hash.0 == req.hash.0 {
                let t = self.records[i].token.clone();
                proof {
                    assert(rs[i as int].hash == req.hash.0 && t@ == rs[i as int].token);
                    assert(spec_match_exists(rs, req.hash.0, scope_views(req.scopes@)));
                }
                return Some(t);
            }
        }
        for i in 0..n
            invariant
                n == rs.len(),
                rs == self@,
                self.wf(),
                req.wf(),
                rv == scope_views(req.scopes@),
                forall|k: int| 0 <= k < n ==> (#[trigger] rs[k]).hash != req.hash.0,
                forall|k: int| 0 <= k < i ==> !scope_subset(rv, (#[trigger] rs[k]).scopes),
        {
            let rec = &self.records[i];
            match req.filter.is_subset_of(rec.filter) {
                FilterResponse::Maybe => {
                    if scopes_contained(req.scopes, &rec.scopes) {
                        let t = rec.token.clone();
                        proof {
                            let ghost ii = i as int;
                            assert(scope_subset(rv, rs[ii].scopes) && t@ == rs[ii].token);
                            assert(spec_match_exists(rs, req.hash.0, rv));
                        }
                        return Some(t);
                    }
                },
                FilterResponse::No => {
                    proof {
                        if scope_subset(rv, rs[i as int].scopes) {
                            lemma_filter_no_false_negative(rv, rs[i as int].scopes);
                        }
                    }
                },
            }
        }
        None
    }

    /// Store a token: overwrite the token of the record with the same
    /// fingerprint hash if one exists, append a new record otherwise.
    pub fn set(&mut self, req: ScopeSet<'_>, token: TokenInfo) -> (r: Result<(), StorageError>)
        requires
            req.wf(),
            old(self).wf(),
        ensures
            r is Ok,
            final(self).wf(),
            final(self)@ == spec_set(old(self)@, scope_views(req.scopes@), token@),
    {
        let ghost rs = old(self)@;
        let ghost rv = scope_views(req.scopes@);
        let ghost tv = token@;
        let n = self.records.len();
        for i in 0..n
            invariant
                n == rs.len(),
                rs == self@,
                *self == *old(self),
                self.wf(),
                req.wf(),
                rv == scope_views(req.scopes@),
                tv == token@,
                forall|k: int| 0 <= k < i ==> (#[trigger] rs[k]).hash != req.hash.0,
        {
            if self.records[i].hash.0 == req.hash.0 {
                self.records[i].token = token;
                proof {
                    let j = choose|j: int| 0 <= j < rs.len() && rs[j].hash == scopes_hash(rv);
                    assert(rs[i as int].hash == scopes_hash(rv));
                    assert(j == i);
                    assert(self@ =~= spec_set(rs, rv, tv));
                    assert(forall|k: int|
                        0 <= k < self@.len() && k != i ==> self@[k] == rs[k] && token_wf(
                            #[trigger] self@[k],
                        ));
                    assert(token_wf(self@[i as int]));
                }
                return Ok(());
            }
        }
        let m = req.scopes.len();
        let mut scopes_vec: Vec<String> = Vec::new();
        for i in 0..m
            invariant
                m == req.scopes@.len(),
                scopes_vec@.len() == i,
                forall|k: int| 0 <= k < i ==> #[trigger] scopes_vec@[k] == req.scopes@[k],
        {
            scopes_vec.push(req.scopes[i].clone());
        }
        proof {
            assert(scopes_vec@ =~= req.scopes@);
        }
        let rec = JSONToken { scopes: scopes_vec, token, hash: req.hash, filter: req.filter };
        self.records.push(rec);
        proof {
            assert(self@ =~= spec_set(rs, rv, tv));
            assert(forall|k: int|
                0 <= k < rs.len() ==> self@[k] == rs[k] && token_wf(#[trigger] self@[k]));
            assert(token_wf(self@[rs.len() as int]));
        }
        Ok(())
    }
}

/// Overwrite semantics: storing twice under the same scope list leaves
/// the index as a single store of the later token would.
pub proof fn lemma_set_overwrite(
    rs: Seq<JSONTokenView>,
    scopes: Seq<Seq<char>>,
    t1: TokenInfoView,
    t2: TokenInfoView,
)
    requires
        forall|i: int, j: int| 0 <= i < j < rs.len() ==> rs[i].hash != rs[j].hash,
    ensures
        spec_set(spec_set(rs, scopes, t1), scopes, t2) == spec_set(rs, scopes, t2),
{
    let h = scopes_hash(scopes);
    let v1 = spec_set(rs, scopes, t1);
    if exists|i: int| 0 <= i < rs.len() && rs[i].hash == h {
        let i = choose|i: int| 0 <= i < rs.len() && rs[i].hash == h;
        assert(v1[i].hash == h);
        let j = choose|j: int| 0 <= j < v1.len() && v1[j].hash == h;
        assert(forall|k: int| 0 <= k < v1.len() ==> (#[trigger] v1[k]).hash == rs[k].hash);
        assert(j == i);
        assert(spec_set(v1, scopes, t2) =~= spec_set(rs, scopes, t2));
    } else {
        let i = v1.len() - 1;
        assert(v1[i].hash == h);
        let j = choose|j: int| 0 <= j < v1.len() && v1[j].hash == h;
        assert(forall|k: int| 0 <= k < rs.len() ==> (#[trigger] v1[k]).hash == rs[k].hash);
        assert(j == i);
        assert(spec_set(v1, scopes, t2) =~= spec_set(rs, scopes, t2));
    }
}

/// No lost updates: storing under one scope list leaves every record
/// with a different fingerprint hash exactly where it was, and the index
/// afterwards holds a record for the stored scopes' hash carrying the
/// stored token.
pub proof fn lemma_set_preserves_distinct(
    rs: Seq<JSONTokenView>,
    scopes: Seq<Seq<char>>,
    token: TokenInfoView,
)
    ensures
        forall|j: int|
            0 <= j < rs.len() && (#[trigger] rs[j]).hash != scopes_hash(scopes) ==> spec_set(
                rs,
                scopes,
                token,
            )[j] == rs[j],
        exists|i: int|
            0 <= i < spec_set(rs, scopes, token).len() && (#[trigger] spec_set(rs, scopes, token)[i]).hash
                == scopes_hash(scopes) && spec_set(rs, scopes, token)[i].token == token,
{
    let h = scopes_hash(scopes);
    let v = spec_set(rs, scopes, token);
    if exists|i: int| 0 <= i < rs.len() && rs[i].hash == h {
        let i = choose|i: int| 0 <= i < rs.len() && rs[i].hash == h;
        assert(v[i].hash == h && v[i].token == token);
    } else {
        assert(v[rs.len() as int].hash == h && v[rs.len() as int].token == token);
    }
}

} // verus!
