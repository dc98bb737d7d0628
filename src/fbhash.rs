//! FBHash: term frequencies of 7-byte sliding-window features, compared by
//! cosine dissimilarity.

use vstd::prelude::*;
use vstd::string::*;
use crate::codec::{sha256, sha256_of, hex_encode, xxh3_64, xxh3_64_of};
use crate::distance::{apply_length_penalty, penalized};
use crate::lzjd::{be8, lemma_sorted_unique, push_be8, slice_to_vec, strictly_increasing};
use crate::text::{decimal, decimal_string, hex_of_bytes};

verus! {

broadcast use vstd::seq_lib::group_to_multiset_ensures;

/// Width of the sliding window, in bytes.
pub const FBHASH_WINDOW_SIZE: usize = 7;

/// How many top-ranked features enter the printable fingerprint.
pub const FBHASH_FINGERPRINT_FEATURES: usize = 32;

/// The feature id of every window of a payload, in order. A payload shorter
/// than the window has one feature: the hash of the whole payload.
pub open spec fn window_hashes(p: Seq<u8>) -> Seq<u64> {
    if p.len() < FBHASH_WINDOW_SIZE {
        seq![xxh3_64_of(p)]
    } else {
        Seq::new(
            (p.len() - FBHASH_WINDOW_SIZE + 1) as nat,
            |i: int| xxh3_64_of(p.subrange(i, i + FBHASH_WINDOW_SIZE)),
        )
    }
}

/// A term frequency, saturated at the largest `u32`.
pub open spec fn saturated(n: nat) -> u32 {
    if n > u32::MAX {
        u32::MAX
    } else {
        n as u32
    }
}

/// The feature list of a set of ids: one `(id, term frequency)` pair per
/// distinct id, in increasing id order.
pub open spec fn is_feature_list(f: Seq<(u64, u32)>, ids: Seq<u64>) -> bool {
    &&& forall|i: int, j: int| 0 <= i < j < f.len() ==> f[i].0 < f[j].0
    &&& forall|i: int| 0 <= i < f.len() ==> (#[trigger] f[i]).1 == saturated(ids.to_multiset().count(f[i].0))
    &&& forall|x: u64| ids.contains(x) <==> exists|i: int| 0 <= i < f.len() && (#[trigger] f[i]).0 == x
}

/// `a` comes before `b` in fingerprint order: higher frequency first, then lower id.
pub open spec fn ranks_before(a: (u64, u32), b: (u64, u32)) -> bool {
    a.1 > b.1 || (a.1 == b.1 && a.0 < b.0)
}

/// Index of the first-ranked feature.
pub open spec fn best_index(f: Seq<(u64, u32)>) -> int
    decreases f.len(),
{
    if f.len() <= 1 {
        0
    } else {
        let j = best_index(f.drop_last());
        if ranks_before(f.last(), f[j]) {
            f.len() - 1
        } else {
            j
        }
    }
}

/// The first `k` features in fingerprint order.
pub open spec fn top_ranked(f: Seq<(u64, u32)>, k: nat) -> Seq<(u64, u32)>
    decreases k,
{
    if k == 0 || f.len() == 0 {
        Seq::empty()
    } else {
        seq![f[best_index(f)]] + top_ranked(f.remove(best_index(f)), (k - 1) as nat)
    }
}

/// Four big-endian bytes of a 32-bit value.
pub open spec fn be4(n: u32) -> Seq<u8> {
    seq![(n >> 24u32) as u8, (n >> 16u32) as u8, (n >> 8u32) as u8, n as u8]
}

/// Each ranked feature as its id's eight and its frequency's four big-endian bytes.
pub open spec fn ranked_bytes(s: Seq<(u64, u32)>) -> Seq<u8>
    decreases s.len(),
{
    if s.len() == 0 {
        Seq::empty()
    } else {
        ranked_bytes(s.drop_last()) + be8(s.last().0) + be4(s.last().1)
    }
}

/// The text form `fbhash:<feature count>:<hex fingerprint>`.
pub open spec fn fbhash_render(f: Seq<(u64, u32)>, payload_len: nat, chunk_count: nat) -> Seq<char> {
    let blob = be8(payload_len as u64) + be8(chunk_count as u64) + ranked_bytes(
        top_ranked(f, FBHASH_FINGERPRINT_FEATURES as nat),
    );
    "fbhash:"@ + decimal(f.len()) + ":"@ + hex_of_bytes(sha256_of(blob).take(16))
}

/// What a digest holds.
pub struct FbHashView {
    pub features: Seq<(u64, u32)>,
    pub payload_len: nat,
    pub digest: Seq<char>,
}

/// An FBHash digest.
#[derive(Clone, Debug, Eq, PartialEq)]
pub struct FbHash {
    features: Vec<(u64, u32)>,
    payload_len: usize,
    digest: String,
}

impl View for FbHash {
    type V = FbHashView;

    closed spec fn view(&self) -> FbHashView {
        FbHashView { features: self.features@, payload_len: self.payload_len as nat, digest: self.digest@ }
    }
}

/// The aligned term frequencies of two id-sorted feature lists: a common id
/// gives `(tf_left, tf_right)`, an id of one side only gives its frequency
/// beside a zero.
pub open spec fn aligned_terms(a: Seq<(u64, u32)>, b: Seq<(u64, u32)>) -> Seq<(u32, u32)>
    decreases a.len() + b.len(),
{
    if a.len() == 0 && b.len() == 0 {
        Seq::empty()
    } else if b.len() == 0 || (a.len() > 0 && a[0].0 < b[0].0) {
        seq![(a[0].1, 0u32)] + aligned_terms(a.drop_first(), b)
    } else if a.len() == 0 || a[0].0 > b[0].0 {
        seq![(0u32, b[0].1)] + aligned_terms(a, b.drop_first())
    } else {
        seq![(a[0].1, b[0].1)] + aligned_terms(a.drop_first(), b.drop_first())
    }
}

/// Adds one occurrence of `id` to an id-sorted feature list.
fn add_feature(features: &mut Vec<(u64, u32)>, id: u64, Ghost(seen): Ghost<Seq<u64>>)
    requires
        is_feature_list(old(features)@, seen),
    ensures
        is_feature_list(final(features)@, seen.push(id)),
{
    let ghost ids = seen.push(id);
    assert(ids.to_multiset() =~= seen.to_multiset().insert(id));
    let mut lo: usize = 0;
    let mut hi: usize = features.len();
    while lo < hi
        invariant
            lo <= hi <= features@.len(),
            features@ == old(features)@,
            forall|k: int| 0 <= k < lo ==> features@[k].0 < id,
            forall|k: int| hi <= k < features@.len() ==> features@[k].0 >= id,
            is_feature_list(features@, seen),
        decreases hi - lo,
    {
        let mid = lo + (hi - lo) / 2;
        if features[mid].0 < id {
            lo = mid + 1;
        } else {
            hi = mid;
        }
    }
    let ghost before = features@;
    if lo < features.len() && features[lo].0 == id {
        let (fid, tf) = features[lo];
        let next = if tf < u32::MAX { tf + 1 } else { tf };
        features.set(lo, (fid, next));
        proof {
            assert(seen.contains(id));
            assert forall|i: int| 0 <= i < features@.len() implies (#[trigger] features@[i]).1 == saturated(ids.to_multiset().count(features@[i].0)) by {
                if i != lo {
                    assert(features@[i].0 != id);
                }
            }
            assert forall|x: u64| ids.contains(x) <==> exists|i: int| 0 <= i < features@.len() && (#[trigger] features@[i]).0 == x by {
                if ids.contains(x) && x == id {
                    assert(features@[lo as int].0 == x);
                }
                if ids.contains(x) && x != id {
                    let k = choose|k: int| 0 <= k < ids.len() && ids[k] == x;
                    assert(seen[k] == x);
                    assert(seen.contains(x));
                    let i = choose|i: int| 0 <= i < before.len() && (#[trigger] before[i]).0 == x;
                    assert(features@[i].0 == x);
                }
                if exists|i: int| 0 <= i < features@.len() && (#[trigger] features@[i]).0 == x {
                    let i = choose|i: int| 0 <= i < features@.len() && (#[trigger] features@[i]).0 == x;
                    assert(before[i].0 == x);
                    assert(seen.contains(x));
                    let k = choose|k: int| 0 <= k < seen.len() && seen[k] == x;
                    assert(ids[k] == x);
                }
            }
        }
    } else {
        proof {
            assert(!seen.contains(id)) by {
                if seen.contains(id) {
                    let i = choose|i: int| 0 <= i < before.len() && (#[trigger] before[i]).0 == id;
                    if i < lo {
                    } else {
                        assert(before[lo as int].0 >= id);
                        if i > lo {
                            assert(before[lo as int].0 < before[i].0);
                        }
                    }
                }
            }
            assert(seen.to_multiset().count(id) == 0);
        }
        features.insert(lo, (id, 1u32));
        proof {
            assert forall|i: int| 0 <= i < features@.len() implies (#[trigger] features@[i]).1 == saturated(ids.to_multiset().count(features@[i].0)) by {
                if i < lo {
                    assert(features@[i] == before[i]);
                    assert(before[i].0 != id);
                } else if i > lo {
                    assert(features@[i] == before[i - 1]);
                    assert(before[i - 1].0 != id);
                }
            }
            assert forall|x: u64| ids.contains(x) <==> exists|i: int| 0 <= i < features@.len() && (#[trigger] features@[i]).0 == x by {
                if ids.contains(x) {
                    if x == id {
                        assert(features@[lo as int].0 == x);
                    } else {
                        let k = choose|k: int| 0 <= k < ids.len() && ids[k] == x;
                        assert(seen[k] == x);
                        assert(seen.contains(x));
                        let i = choose|i: int| 0 <= i < before.len() && (#[trigger] before[i]).0 == x;
                        if i < lo {
                            assert(features@[i].0 == x);
                        } else {
                            assert(features@[i + 1].0 == x);
                        }
                    }
                }
                if exists|i: int| 0 <= i < features@.len() && (#[trigger] features@[i]).0 == x {
                    let i = choose|i: int| 0 <= i < features@.len() && (#[trigger] features@[i]).0 == x;
                    if i == lo {
                        assert(ids[ids.len() - 1] == x);
                    } else {
                        let bi = if i < lo { i } else { i - 1 };
                        assert(before[bi].0 == x);
                        assert(seen.contains(x));
                        let k = choose|k: int| 0 <= k < seen.len() && seen[k] == x;
                        assert(ids[k] == x);
                    }
                }
            }
        }
    }
}

/// Index of the first-ranked feature of a non-empty list.
fn best_position(f: &Vec<(u64, u32)>) -> (r: usize)
    requires
        f@.len() > 0,
    ensures
        r as int == best_index(f@),
        r < f@.len(),
{
    let mut best: usize = 0;
    let mut i: usize = 1;
    proof {
        assert(f@.take(1).len() == 1);
    }
    while i < f.len()
        invariant
            1 <= i <= f@.len(),
            best < i,
            best as int == best_index(f@.take(i as int)),
        decreases f.len() - i,
    {
        proof {
            assert(f@.take(i + 1).drop_last() =~= f@.take(i as int));
        }
        let (cid, ctf) = f[i];
        let (bid, btf) = f[best];
        if ctf > btf || (ctf == btf && cid < bid) {
            best = i;
        }
        i = i + 1;
    }
    proof {
        assert(f@.take(i as int) =~= f@);
    }
    best
}

/// The fingerprint text of a feature list.
fn render_digest(features: &Vec<(u64, u32)>, payload_len: usize, chunk_count: usize) -> (r: String)
    ensures
        r@ == fbhash_render(features@, payload_len as nat, chunk_count as nat),
        r@.len() == 8 + decimal(features@.len()).len() + 32,
{
    let mut work: Vec<(u64, u32)> = Vec::new();
    let mut i: usize = 0;
    while i < features.len()
        invariant
            i <= features@.len(),
            work@ == features@.take(i as int),
        decreases features.len() - i,
    {
        work.push(features[i]);
        i = i + 1;
        assert(work@ =~= features@.take(i as int));
    }
    assert(work@ =~= features@);
    let mut ranked: Vec<(u64, u32)> = Vec::new();
    let mut k: usize = 0;
    while k < FBHASH_FINGERPRINT_FEATURES && work.len() > 0
        invariant
            k <= FBHASH_FINGERPRINT_FEATURES,
            ranked@ + top_ranked(work@, (FBHASH_FINGERPRINT_FEATURES - k) as nat) == top_ranked(features@, FBHASH_FINGERPRINT_FEATURES as nat),
        decreases FBHASH_FINGERPRINT_FEATURES - k,
    {
        let b = best_position(&work);
        let item = work[b];
        let ghost w = work@;
        work.remove(b);
        ranked.push(item);
        proof {
            assert(top_ranked(w, (FBHASH_FINGERPRINT_FEATURES - k) as nat) == seq![item] + top_ranked(work@, (FBHASH_FINGERPRINT_FEATURES - k - 1) as nat));
            assert(ranked@ + top_ranked(work@, (FBHASH_FINGERPRINT_FEATURES - (k + 1)) as nat) =~= ranked@.drop_last() + top_ranked(w, (FBHASH_FINGERPRINT_FEATURES - k) as nat));
        }
        k = k + 1;
    }
    proof {
        assert(top_ranked(work@, (FBHASH_FINGERPRINT_FEATURES - k) as nat) =~= Seq::<(u64, u32)>::empty());
        assert(ranked@ =~= top_ranked(features@, FBHASH_FINGERPRINT_FEATURES as nat));
    }
    let mut blob: Vec<u8> = Vec::new();
    push_be8(&mut blob, payload_len as u64);
    push_be8(&mut blob, chunk_count as u64);
    let ghost head = blob@;
    let mut j: usize = 0;
    proof {
        assert(blob@ =~= head + ranked_bytes(ranked@.take(0)));
    }
    while j < ranked.len()
        invariant
            j <= ranked@.len(),
            blob@ == head + ranked_bytes(ranked@.take(j as int)),
        decreases ranked.len() - j,
    {
        let (fid, tf) = ranked[j];
        push_be8(&mut blob, fid);
        blob.push((tf >> 24) as u8);
        blob.push((tf >> 16) as u8);
        blob.push((tf >> 8) as u8);
        blob.push(tf as u8);
        proof {
            assert(ranked@.take(j + 1).drop_last() =~= ranked@.take(j as int));
            assert(blob@ =~= head + ranked_bytes(ranked@.take(j + 1)));
        }
        j = j + 1;
    }
    proof {
        assert(ranked@.take(j as int) =~= ranked@);
    }
    let digest = sha256(blob.as_slice());
    let prefix = slice_to_vec(digest.as_slice(), 0, 16);
    let fingerprint = hex_encode(prefix.as_slice());
    let mut out = String::from_str("fbhash:");
    let count = decimal_string(features.len() as u64);
    out.append(count.as_str());
    out.append(":");
    out.append(fingerprint.as_str());
    proof {
        assert(prefix@ =~= sha256_of(blob@).take(16));
        assert(out@ =~= fbhash_render(features@, payload_len as nat, chunk_count as nat));
        crate::text::lemma_hex_of_bytes_len(prefix@);
        reveal_strlit("fbhash:");
        reveal_strlit(":");
    }
    out
}

/// Builds the FBHash digest of a payload; an empty payload is refused.
pub fn calculate_fbhash(payload: &[u8]) -> (r: Result<FbHash, String>)
    ensures
        r is Ok <==> payload@.len() > 0,
        r is Ok ==> is_feature_list(r->Ok_0@.features, window_hashes(payload@)),
        r is Ok ==> r->Ok_0@.payload_len == payload@.len(),
        r is Ok ==> r->Ok_0@.digest == fbhash_render(
            r->Ok_0@.features,
            payload@.len(),
            window_hashes(payload@).len(),
        ),
        r is Ok ==> r->Ok_0@.digest.len() == 8 + decimal(r->Ok_0@.features.len()).len() + 32,
{
    if payload.len() == 0 {
        return Err(String::from_str("FBHash requires a non-empty payload"));
    }
    let mut features: Vec<(u64, u32)> = Vec::new();
    let mut chunk_count: usize = 0;
    let ghost mut seen: Seq<u64> = Seq::empty();
    proof {
        assert(is_feature_list(features@, seen));
    }
    if payload.len() < FBHASH_WINDOW_SIZE {
        let id = xxh3_64(payload);
        add_feature(&mut features, id, Ghost(seen));
        proof {
            seen = seen.push(id);
            assert(seen =~= window_hashes(payload@));
        }
        chunk_count = 1;
    } else {
        let last = payload.len() - FBHASH_WINDOW_SIZE;
        let mut i: usize = 0;
        while i <= last
            invariant
                last == payload@.len() - FBHASH_WINDOW_SIZE,
                payload@.len() >= FBHASH_WINDOW_SIZE,
                last + FBHASH_WINDOW_SIZE == payload.len(),
                i <= last + 1,
                chunk_count == i,
                seen == window_hashes(payload@).take(i as int),
                is_feature_list(features@, seen),
            decreases last + 1 - i,
        {
            let window = slice_to_vec(payload, i, i + FBHASH_WINDOW_SIZE);
            let id = xxh3_64(window.as_slice());
            add_feature(&mut features, id, Ghost(seen));
            proof {
                seen = seen.push(id);
                assert(seen =~= window_hashes(payload@).take(i + 1));
            }
            chunk_count = chunk_count + 1;
            i = i + 1;
        }
        proof {
            assert(seen =~= window_hashes(payload@));
        }
    }
    let digest = render_digest(&features, payload.len(), chunk_count);
    Ok(FbHash { features, payload_len: payload.len(), digest })
}

impl FbHash {
    /// The text form `fbhash:<feature count>:<hex fingerprint>`.
    pub fn as_string(&self) -> (r: &str)
        ensures
            r@ == self@.digest,
    {
        self.digest.as_str()
    }

    /// The aligned term frequencies of this digest's and another's features.
    pub fn aligned_term_frequencies(&self, right: &Self) -> (r: Vec<(u32, u32)>)
        ensures
            r@ == aligned_terms(self@.features, right@.features),
    {
        let a = &self.features;
        let b = &right.features;
        let mut out: Vec<(u32, u32)> = Vec::new();
        let mut i: usize = 0;
        let mut j: usize = 0;
        proof {
            assert(a@.skip(0) =~= a@);
            assert(b@.skip(0) =~= b@);
            assert(out@ + aligned_terms(a@.skip(0), b@.skip(0)) =~= aligned_terms(a@, b@));
        }
        while i < a.len() || j < b.len()
            invariant
                i <= a@.len(),
                j <= b@.len(),
                out@ + aligned_terms(a@.skip(i as int), b@.skip(j as int)) == aligned_terms(a@, b@),
            decreases a.len() + b.len() - i - j,
        {
            proof {
                if i < a.len() {
                    assert(a@.skip(i as int).drop_first() =~= a@.skip(i + 1));
                }
                if j < b.len() {
                    assert(b@.skip(j as int).drop_first() =~= b@.skip(j + 1));
                }
                assert(a@.skip(a@.len() as int) =~= Seq::<(u64, u32)>::empty());
                assert(b@.skip(b@.len() as int) =~= Seq::<(u64, u32)>::empty());
            }
            if j == b.len() || (i < a.len() && a[i].0 < b[j].0) {
                out.push((a[i].1, 0u32));
                i = i + 1;
            } else if i == a.len() || a[i].0 > b[j].0 {
                out.push((0u32, b[j].1));
                j = j + 1;
            } else {
                out.push((a[i].1, b[j].1));
                i = i + 1;
                j = j + 1;
            }
        }
        proof {
            assert(a@.skip(i as int) =~= Seq::<(u64, u32)>::empty());
            assert(b@.skip(j as int) =~= Seq::<(u64, u32)>::empty());
            assert(out@ =~= aligned_terms(a@, b@));
        }
        out
    }

    /// The FBHash distance to another digest, in `[0, 100]`. The cosine
    /// dissimilarity of the aligned term frequencies, as a whole percentage,
    /// comes from `cosine_distance`; a value above 100 counts as 100. The
    /// optional length penalty is then added and the result re-clamped.
    pub fn diff<F: Fn(&Vec<(u32, u32)>) -> u32>(
        &self,
        right: &Self,
        include_file_length: bool,
        cosine_distance: F,
    ) -> (r: i32)
        requires
            forall|t: &Vec<(u32, u32)>| cosine_distance.requires((t,)),
        ensures
            exists|t: &Vec<(u32, u32)>, d: u32|
                t@ == aligned_terms(self@.features, right@.features) && cosine_distance.ensures((t,), d)
                    && r == penalized(
                    if d > 100 { 100int } else { d as int },
                    self@.payload_len,
                    right@.payload_len,
                    include_file_length,
                ),
            0 <= r <= 100,
    {
        let terms = self.aligned_term_frequencies(right);
        let d = cosine_distance(&terms);
        let base: i32 = if d > 100 { 100 } else { d as i32 };
        apply_length_penalty(base, self.payload_len, right.payload_len, include_file_length)
    }
}

/// The aligned terms with the two sides swapped.
pub open spec fn swapped(t: Seq<(u32, u32)>) -> Seq<(u32, u32)> {
    t.map_values(|x: (u32, u32)| (x.1, x.0))
}

/// Comparing `b` with `a` aligns the same terms as comparing `a` with `b`,
/// each pair with its sides swapped: a cosine of the aligned terms that does
/// not depend on the order of the sides gives a symmetric distance.
pub proof fn law_aligned_terms_mirror(a: Seq<(u64, u32)>, b: Seq<(u64, u32)>)
    ensures
        aligned_terms(b, a) == swapped(aligned_terms(a, b)),
    decreases a.len() + b.len(),
{
    if a.len() == 0 && b.len() == 0 {
        assert(swapped(aligned_terms(a, b)) =~= Seq::<(u32, u32)>::empty());
    } else if b.len() == 0 || (a.len() > 0 && a[0].0 < b[0].0) {
        law_aligned_terms_mirror(a.drop_first(), b);
        assert(swapped(aligned_terms(a, b)) =~= seq![(0u32, a[0].1)] + swapped(aligned_terms(a.drop_first(), b)));
    } else if a.len() == 0 || a[0].0 > b[0].0 {
        law_aligned_terms_mirror(a, b.drop_first());
        assert(swapped(aligned_terms(a, b)) =~= seq![(b[0].1, 0u32)] + swapped(aligned_terms(a, b.drop_first())));
    } else {
        law_aligned_terms_mirror(a.drop_first(), b.drop_first());
        assert(swapped(aligned_terms(a, b)) =~= seq![(b[0].1, a[0].1)] + swapped(aligned_terms(a.drop_first(), b.drop_first())));
    }
}

/// A digest compared with itself aligns every feature with itself.
pub proof fn law_aligned_terms_self(a: Seq<(u64, u32)>)
    ensures
        aligned_terms(a, a) == a.map_values(|x: (u64, u32)| (x.1, x.1)),
    decreases a.len(),
{
    if a.len() > 0 {
        law_aligned_terms_self(a.drop_first());
        assert(a.map_values(|x: (u64, u32)| (x.1, x.1)) =~= seq![(a[0].1, a[0].1)] + a.drop_first().map_values(|x: (u64, u32)| (x.1, x.1)));
    } else {
        assert(a.map_values(|x: (u64, u32)| (x.1, x.1)) =~= Seq::<(u32, u32)>::empty());
    }
}

/// The feature list of a payload is unique, so byte-identical payloads give
/// the same features and the same rendering.
pub proof fn law_feature_list_unique(f1: Seq<(u64, u32)>, f2: Seq<(u64, u32)>, p: Seq<u8>)
    requires
        is_feature_list(f1, window_hashes(p)),
        is_feature_list(f2, window_hashes(p)),
    ensures
        f1 == f2,
        fbhash_render(f1, p.len(), window_hashes(p).len()) == fbhash_render(f2, p.len(), window_hashes(p).len()),
{
    let ids = window_hashes(p);
    let k1 = f1.map_values(|x: (u64, u32)| x.0);
    let k2 = f2.map_values(|x: (u64, u32)| x.0);
    assert(strictly_increasing(k1));
    assert(strictly_increasing(k2));
    assert forall|x: u64| k1.to_set().contains(x) <==> k2.to_set().contains(x) by {
        if k1.to_set().contains(x) {
            let i = choose|i: int| 0 <= i < k1.len() && k1[i] == x;
            assert(f1[i].0 == x);
            assert(ids.contains(x));
            let j = choose|j: int| 0 <= j < f2.len() && (#[trigger] f2[j]).0 == x;
            assert(k2[j] == x);
        }
        if k2.to_set().contains(x) {
            let i = choose|i: int| 0 <= i < k2.len() && k2[i] == x;
            assert(f2[i].0 == x);
            assert(ids.contains(x));
            let j = choose|j: int| 0 <= j < f1.len() && (#[trigger] f1[j]).0 == x;
            assert(k1[j] == x);
        }
    }
    assert(k1.to_set() =~= k2.to_set());
    lemma_sorted_unique(k1, k2);
    assert forall|i: int| 0 <= i < f1.len() implies f1[i] == f2[i] by {
        assert(k1[i] == k2[i]);
        assert(f1[i].1 == saturated(ids.to_multiset().count(f1[i].0)));
        assert(f2[i].1 == saturated(ids.to_multiset().count(f2[i].0)));
    }
    assert(k1.len() == f1.len() && k2.len() == f2.len());
    assert(f1.len() == f2.len());
    assert(f1 =~= f2);
}

} // verus!
