//! Order-independent fingerprinting of scope sets.
//!
//! A scope set is fingerprinted by hashing each scope string and combining
//! the per-scope hashes with XOR (for the identity hash) and with OR over
//! four 6-bit slices of each hash (for the bloom-style membership filter).
//! Both combinations are commutative and associative, so the fingerprint is
//! independent of the order the scopes are listed in.
use vstd::prelude::*;
use crate::{ScopeFilter, ScopeHash};

verus! {

/// The 64-bit content hash of one scope string, as computed by the
/// underlying byte hash. The result depends on the characters alone.
pub uninterp spec fn sea_hash_of(s: Seq<char>) -> u64;

/// Relies on seahash::hash: a portable, stable hash whose result is a
/// function of the input bytes alone.
#[verifier::external_body]
fn sea_hash(s: &str) -> (r: u64)
    ensures
        r == sea_hash_of(s@),
{
    seahash::hash(s.as_bytes())
}

/// The filter contribution of one scope: a bit set for each of the first
/// four non-overlapping 6-bit slices of the scope's hash.
pub open spec fn filter_mask(h: u64) -> u64 {
    (1u64 << (h & 63)) | (1u64 << ((h >> 6) & 63)) | (1u64 << ((h >> 12) & 63)) | (1u64 << ((h
        >> 18) & 63))
}

/// The XOR of the hashes of all scopes in the sequence.
pub open spec fn scopes_hash(ss: Seq<Seq<char>>) -> u64
    decreases ss.len(),
{
    if ss.len() == 0 {
        0u64
    } else {
        scopes_hash(ss.drop_last()) ^ sea_hash_of(ss.last())
    }
}

/// The OR of the filter masks of all scopes in the sequence.
pub open spec fn scopes_filter(ss: Seq<Seq<char>>) -> u64
    decreases ss.len(),
{
    if ss.len() == 0 {
        0u64
    } else {
        scopes_filter(ss.drop_last()) | filter_mask(sea_hash_of(ss.last()))
    }
}

/// The character sequences of a sequence of strings.
pub open spec fn scope_views(ss: Seq<String>) -> Seq<Seq<char>> {
    Seq::new(ss.len(), |i: int| ss[i]@)
}

/// Every scope in `a` occurs in `b`.
pub open spec fn scope_subset(a: Seq<Seq<char>>, b: Seq<Seq<char>>) -> bool {
    forall|i: int| 0 <= i < a.len() ==> b.contains(a[i])
}

/// A list of scope strings together with its fingerprint.
pub struct ScopeSet<'a> {
    pub hash: ScopeHash,
    pub filter: ScopeFilter,
    pub scopes: &'a [String],
}

impl<'a> Clone for ScopeSet<'a> {
    fn clone(&self) -> (r: Self)
        ensures
            r == *self,
    {
        ScopeSet { hash: self.hash, filter: self.filter, scopes: self.scopes }
    }
}

impl<'a> Copy for ScopeSet<'a> {

}

impl<'a> ScopeSet<'a> {
    /// Whether the fingerprint fields agree with the scope list.
    pub open spec fn wf(self) -> bool {
        &&& self.hash.0 == scopes_hash(scope_views(self.scopes@))
        &&& self.filter.0 == scopes_filter(scope_views(self.scopes@))
    }

    /// Fingerprint a list of scope strings.
    pub fn from(scopes: &'a [String]) -> (r: ScopeSet<'a>)
        ensures
            r.scopes == scopes,
            r.wf(),
    {
        let ghost views = scope_views(scopes@);
        let mut hash: u64 = 0;
        let mut filter: u64 = 0;
        let n = scopes.len();
        for i in 0..n
            invariant
                n == scopes@.len(),
                views == scope_views(scopes@),
                hash == scopes_hash(views.take(i as int)),
                filter == scopes_filter(views.take(i as int)),
        {
            let h = sea_hash(scopes[i].as_str());
            proof {
                assert(h & 63 < 64 && (h >> 6) & 63 < 64 && (h >> 12) & 63 < 64 && (h >> 18) & 63
                    < 64) by (bit_vector);
            }
            let mask = (1u64 << (h & 63)) | (1u64 << ((h >> 6) & 63)) | (1u64 << ((h >> 12) & 63))
                | (1u64 << ((h >> 18) & 63));
            proof {
                assert(views.take(i + 1).drop_last() =~= views.take(i as int));
                assert(views.take(i + 1).last() == scopes@[i as int]@);
            }
            hash = hash ^ h;
            filter = filter | mask;
        }
        proof {
            assert(views.take(n as int) =~= views);
        }
        ScopeSet { hash: ScopeHash(hash), filter: ScopeFilter(filter), scopes }
    }
}

/// Removing one scope from anywhere in the list splits its contribution
/// off the combined hash and filter.
proof fn lemma_fingerprint_remove(s: Seq<Seq<char>>, i: int)
    requires
        0 <= i < s.len(),
    ensures
        scopes_hash(s) == sea_hash_of(s[i]) ^ scopes_hash(s.remove(i)),
        scopes_filter(s) == filter_mask(sea_hash_of(s[i])) | scopes_filter(s.remove(i)),
    decreases s.len(),
{
    let hi = sea_hash_of(s[i]);
    let mi = filter_mask(hi);
    if i == s.len() - 1 {
        assert(s.remove(i) =~= s.drop_last());
        let b = scopes_hash(s.drop_last());
        assert(b ^ hi == hi ^ b) by (bit_vector);
        let f = scopes_filter(s.drop_last());
        assert(f | mi == mi | f) by (bit_vector);
    } else {
        let sp = s.drop_last();
        let hl = sea_hash_of(s.last());
        let ml = filter_mask(hl);
        lemma_fingerprint_remove(sp, i);
        assert(s.remove(i).drop_last() =~= sp.remove(i));
        assert(s.remove(i).last() == s.last());
        let b = scopes_hash(sp.remove(i));
        assert((hi ^ b) ^ hl == hi ^ (b ^ hl)) by (bit_vector);
        let f = scopes_filter(sp.remove(i));
        assert((mi | f) | ml == mi | (f | ml)) by (bit_vector);
    }
}

/// Order independence: two lists holding the same scopes the same number
/// of times have identical fingerprint hash and filter.
pub proof fn lemma_fingerprint_order_independent(a: Seq<Seq<char>>, b: Seq<Seq<char>>)
    requires
        a.to_multiset() == b.to_multiset(),
    ensures
        scopes_hash(a) == scopes_hash(b),
        scopes_filter(a) == scopes_filter(b),
    decreases a.len(),
{
    broadcast use vstd::seq_lib::group_to_multiset_ensures;

    if a.len() == 0 {
        assert(a =~= Seq::<Seq<char>>::empty());
        assert(b.to_multiset().len() == 0);
        assert(b =~= Seq::<Seq<char>>::empty());
    } else {
        let i = a.len() - 1;
        let x = a[i];
        assert(a.contains(x));
        assert(b.to_multiset().count(x) > 0);
        assert(b.contains(x));
        let j = choose|j: int| 0 <= j < b.len() && b[j] == x;
        lemma_fingerprint_remove(a, i);
        lemma_fingerprint_remove(b, j);
        assert(a.remove(i).to_multiset() =~= b.remove(j).to_multiset());
        lemma_fingerprint_order_independent(a.remove(i), b.remove(j));
    }
}

/// One scope that occurs in a list contributes a mask wholly contained in
/// the list's filter.
proof fn lemma_member_mask_contained(b: Seq<Seq<char>>, x: Seq<char>)
    requires
        b.contains(x),
    ensures
        filter_mask(sea_hash_of(x)) & scopes_filter(b) == filter_mask(sea_hash_of(x)),
{
    let i = choose|i: int| 0 <= i < b.len() && b[i] == x;
    lemma_fingerprint_remove(b, i);
    let m = filter_mask(sea_hash_of(x));
    let r = scopes_filter(b.remove(i));
    assert(m & (m | r) == m) by (bit_vector);
}

/// Filter soundness, no false negatives: if every scope of `a` occurs in
/// `b`, the subset test on the two filters can never answer "definitely
/// not a subset".
pub proof fn lemma_filter_no_false_negative(a: Seq<Seq<char>>, b: Seq<Seq<char>>)
    requires
        scope_subset(a, b),
    ensures
        scopes_filter(a) & scopes_filter(b) == scopes_filter(a),
    decreases a.len(),
{
    if a.len() == 0 {
        let f = scopes_filter(b);
        assert(0u64 & f == 0u64) by (bit_vector);
    } else {
        let ap = a.drop_last();
        assert(forall|i: int| 0 <= i < ap.len() ==> ap[i] == a[i] && b.contains(a[i]));
        lemma_filter_no_false_negative(ap, b);
        assert(a.contains(a.last()));
        lemma_member_mask_contained(b, a.last());
        let x = scopes_filter(ap);
        let y = filter_mask(sea_hash_of(a.last()));
        let z = scopes_filter(b);
        assert(x & z == x && y & z == y ==> (x | y) & z == (x | y)) by (bit_vector);
    }
}

} // verus!
