//! LZJD: a MinHash-style sketch over the LZ78 phrase dictionary of a payload.

use vstd::prelude::*;
use crate::codec::{sha256, sha256_of, hex_encode};
use crate::distance::{penalized, rounded_ratio, round_ratio, apply_length_penalty};
use crate::text::{decimal, decimal_string, hex_of_bytes};
use vstd::string::*;

verus! {

/// The number of smallest bucket ids that a sketch keeps.
pub const LZJD_SKETCH_SIZE: usize = 128;

/// The walk that builds the LZ78 dictionary. At `start` the current phrase is
/// `p[start..end]`; it grows while it is already in the dictionary, and the
/// first phrase that is not is added, the walk going on after it. A trailing
/// phrase that is already known adds nothing.
pub open spec fn lz78_walk(p: Seq<u8>, start: int, end: int, dict: Seq<Seq<u8>>) -> Seq<Seq<u8>>
    decreases p.len() - start, p.len() + 1 - end,
{
    if start < 0 || start >= p.len() || end <= start || end > p.len() + 1 {
        dict
    } else if end <= p.len() && dict.contains(p.subrange(start, end)) {
        lz78_walk(p, start, end + 1, dict)
    } else if end <= p.len() {
        lz78_walk(p, end, end + 1, dict.push(p.subrange(start, end)))
    } else {
        dict
    }
}

/// The LZ78 phrase dictionary of a payload, in the order the phrases were found.
pub open spec fn lz78_dictionary(p: Seq<u8>) -> Seq<Seq<u8>> {
    lz78_walk(p, 0, 1, Seq::empty())
}

/// Big-endian value of a byte sequence.
pub open spec fn be_value(b: Seq<u8>) -> nat
    decreases b.len(),
{
    if b.len() == 0 {
        0
    } else {
        be_value(b.drop_last()) * 256 + b.last() as nat
    }
}

/// The bucket id of a phrase: the first eight bytes of its SHA-256 digest, big-endian.
pub open spec fn bucket_of(phrase: Seq<u8>) -> nat {
    be_value(sha256_of(phrase).take(8))
}

/// Strictly increasing sequence of bucket ids.
pub open spec fn strictly_increasing(s: Seq<u64>) -> bool {
    forall|i: int, j: int| 0 <= i < j < s.len() ==> s[i] < s[j]
}

/// The distinct values of a set of bucket ids, in increasing order.
pub open spec fn sorted_distinct(s: Set<u64>) -> Seq<u64> {
    choose|r: Seq<u64>| strictly_increasing(r) && r.to_set() == s
}

/// The bucket ids of all phrases of a payload.
pub open spec fn lzjd_buckets(p: Seq<u8>) -> Set<u64> {
    Set::new(|b: u64| exists|i: int| 0 <= i < lz78_dictionary(p).len() && bucket_of(#[trigger] lz78_dictionary(p)[i]) == b as nat)
}

pub open spec fn min_nat(a: nat, b: nat) -> nat {
    if a <= b {
        a
    } else {
        b
    }
}

/// The sketch of a payload: its smallest distinct bucket ids, at most `LZJD_SKETCH_SIZE`.
pub open spec fn lzjd_sketch(p: Seq<u8>) -> Seq<u64> {
    let all = sorted_distinct(lzjd_buckets(p));
    all.take(min_nat(all.len(), LZJD_SKETCH_SIZE as nat) as int)
}

/// What a digest holds: its sketch and the payload length.
pub struct LzjdView {
    pub sketch: Seq<u64>,
    pub payload_len: nat,
}

/// The digest that a payload yields.
pub open spec fn lzjd_model(p: Seq<u8>) -> LzjdView {
    LzjdView { sketch: lzjd_sketch(p), payload_len: p.len() }
}

/// The number of common ids that a two-pointer walk over two sketches finds.
pub open spec fn merge_common(a: Seq<u64>, b: Seq<u64>) -> nat
    decreases a.len() + b.len(),
{
    if a.len() == 0 || b.len() == 0 {
        0
    } else if a[0] < b[0] {
        merge_common(a.drop_first(), b)
    } else if a[0] > b[0] {
        merge_common(a, b.drop_first())
    } else {
        1 + merge_common(a.drop_first(), b.drop_first())
    }
}

/// `round((1 - |A ∩ B| / |A ∪ B|) * 100)`, zero when both sketches are empty.
pub open spec fn jaccard_distance(a: Seq<u64>, b: Seq<u64>) -> int {
    let common = merge_common(a, b);
    let union = a.len() + b.len() - common;
    if union <= 0 {
        0
    } else {
        rounded_ratio((union - common) as nat, union as nat, 100) as int
    }
}

/// The LZJD distance between two digests.
pub open spec fn lzjd_distance(a: LzjdView, b: LzjdView, include_length: bool) -> int {
    penalized(jaccard_distance(a.sketch, b.sketch), a.payload_len, b.payload_len, include_length)
}

/// Eight big-endian bytes of a 64-bit value.
pub open spec fn be8(n: u64) -> Seq<u8> {
    seq![
        (n >> 56u64) as u8,
        (n >> 48u64) as u8,
        (n >> 40u64) as u8,
        (n >> 32u64) as u8,
        (n >> 24u64) as u8,
        (n >> 16u64) as u8,
        (n >> 8u64) as u8,
        n as u8,
    ]
}

/// The bytes of a list of ids, each as eight big-endian bytes.
pub open spec fn be8_all(s: Seq<u64>) -> Seq<u8>
    decreases s.len(),
{
    if s.len() == 0 {
        Seq::empty()
    } else {
        be8_all(s.drop_last()) + be8(s.last())
    }
}

/// The text form of a digest: `lzjd:<sketch length>:<first 16 bytes of
/// SHA-256 over the length and ids, in hex>`.
pub open spec fn lzjd_render(v: LzjdView) -> Seq<char> {
    let blob = be8(v.payload_len as u64) + be8_all(v.sketch);
    "lzjd:"@ + decimal(v.sketch.len()) + ":"@ + hex_of_bytes(sha256_of(blob).take(16))
}

/// An LZJD digest.
#[derive(Clone, Debug, Eq, PartialEq)]
pub struct LzjdHash {
    sketch: Vec<u64>,
    payload_len: usize,
}

impl View for LzjdHash {
    type V = LzjdView;

    closed spec fn view(&self) -> LzjdView {
        LzjdView { sketch: self.sketch@, payload_len: self.payload_len as nat }
    }
}

/// Appends the eight big-endian bytes of `n`.
pub fn push_be8(out: &mut Vec<u8>, n: u64)
    ensures
        final(out)@ == old(out)@ + be8(n),
{
    out.push((n >> 56) as u8);
    out.push((n >> 48) as u8);
    out.push((n >> 40) as u8);
    out.push((n >> 32) as u8);
    out.push((n >> 24) as u8);
    out.push((n >> 16) as u8);
    out.push((n >> 8) as u8);
    out.push(n as u8);
    assert(out@ =~= old(out)@ + be8(n));
}

/// `s[from..to]` as an owned vector.
pub(crate) fn slice_to_vec(s: &[u8], from: usize, to: usize) -> (r: Vec<u8>)
    requires
        from <= to <= s@.len(),
    ensures
        r@ == s@.subrange(from as int, to as int),
{
    let mut v: Vec<u8> = Vec::new();
    let mut i = from;
    while i < to
        invariant
            from <= i <= to <= s@.len(),
            v@ == s@.subrange(from as int, i as int),
        decreases to - i,
    {
        v.push(s[i]);
        i = i + 1;
        assert(v@ =~= s@.subrange(from as int, i as int));
    }
    v
}

/// Whether `dict` holds the phrase `s[from..to]`.
fn dictionary_contains(dict: &Vec<Vec<u8>>, s: &[u8], from: usize, to: usize) -> (r: bool)
    requires
        from <= to <= s@.len(),
    ensures
        r == dict@.map_values(|v: Vec<u8>| v@).contains(s@.subrange(from as int, to as int)),
{
    let ghost phrase = s@.subrange(from as int, to as int);
    let ghost dv = dict@.map_values(|v: Vec<u8>| v@);
    let mut i: usize = 0;
    while i < dict.len()
        invariant
            from <= to <= s@.len(),
            i <= dict@.len(),
            dv == dict@.map_values(|v: Vec<u8>| v@),
            phrase == s@.subrange(from as int, to as int),
            forall|k: int| 0 <= k < i ==> dv[k] != phrase,
        decreases dict.len() - i,
    {
        let entry = &dict[i];
        if entry.len() == to - from {
            let mut k: usize = 0;
            let mut same = true;
            while k < entry.len()
                invariant
                    entry.len() == to - from,
                    from <= to <= s@.len(),
                    k <= entry@.len(),
                    same == forall|j: int| 0 <= j < k ==> entry@[j] == s@[from + j],
                decreases entry.len() - k,
            {
                if entry[k] != s[from + k] {
                    same = false;
                }
                k = k + 1;
            }
            if same {
                assert(entry@ =~= phrase);
                assert(dv[i as int] == phrase);
                return true;
            } else {
                assert(dv[i as int] != phrase) by {
                    let j = choose|j: int| 0 <= j < k && entry@[j] != s@[from + j];
                    assert(phrase[j] == s@[from + j]);
                }
            }
        } else {
            assert(dv[i as int] != phrase) by {
                assert(dv[i as int].len() != phrase.len());
            }
        }
        i = i + 1;
    }
    assert(!dv.contains(phrase));
    false
}

/// The LZ78 phrase dictionary of `payload`, in the order the phrases were found.
pub fn lz78_phrases(payload: &[u8]) -> (r: Vec<Vec<u8>>)
    ensures
        r@.map_values(|v: Vec<u8>| v@) == lz78_dictionary(payload@),
        payload@.len() > 0 ==> r@.len() > 0,
{
    let mut dict: Vec<Vec<u8>> = Vec::new();
    let mut start: usize = 0;
    let n = payload.len();
    proof {
        assert(dict@.map_values(|v: Vec<u8>| v@) =~= Seq::<Seq<u8>>::empty());
    }
    while start < n
        invariant
            n == payload@.len(),
            start <= n,
            start > 0 ==> dict@.len() > 0,
            start == n ==> lz78_walk(payload@, start as int, start + 1, dict@.map_values(|v: Vec<u8>| v@)) == dict@.map_values(|v: Vec<u8>| v@),
            lz78_walk(payload@, start as int, start + 1, dict@.map_values(|v: Vec<u8>| v@))
                == lz78_dictionary(payload@),
        decreases n - start,
    {
        let mut end = start + 1;
        let mut exhausted = false;
        while !exhausted && dictionary_contains(&dict, payload, start, end)
            invariant
                n == payload@.len(),
                start < end <= n,
                exhausted ==> dict@.len() > 0,
                lz78_walk(payload@, start as int, if exhausted { n + 1 } else { end as int }, dict@.map_values(|v: Vec<u8>| v@))
                    == lz78_dictionary(payload@),
            decreases n + 1 - end, if exhausted { 0int } else { 1int },
        {
            if end == n {
                assert(dict@.map_values(|v: Vec<u8>| v@).len() > 0);
                exhausted = true;
            } else {
                end = end + 1;
            }
        }
        if !exhausted {
            let ghost before = dict@.map_values(|v: Vec<u8>| v@);
            let phrase = slice_to_vec(payload, start, end);
            dict.push(phrase);
            proof {
                assert(dict@.map_values(|v: Vec<u8>| v@) =~= before.push(payload@.subrange(start as int, end as int)));
            }
            start = end;
        } else {
            return dict;
        }
    }
    dict
}

proof fn lemma_be_value_bound(b: Seq<u8>)
    ensures
        b.len() <= 8 ==> be_value(b) < pow256(b.len()),
    decreases b.len(),
{
    if 0 < b.len() <= 8 {
        lemma_be_value_bound(b.drop_last());
        let v = be_value(b.drop_last());
        let p = pow256((b.len() - 1) as nat);
        assert(v * 256 + b.last() < p * 256) by (nonlinear_arith)
            requires
                v < p,
                b.last() < 256,
        ;
    }
}

spec fn pow256(k: nat) -> nat
    decreases k,
{
    if k == 0 {
        1
    } else {
        256 * pow256((k - 1) as nat)
    }
}

/// The bucket id of one phrase.
pub fn hash_phrase_to_bucket(phrase: &[u8]) -> (r: u64)
    ensures
        r as nat == bucket_of(phrase@),
{
    let digest = sha256(phrase);
    let mut acc: u64 = 0;
    let mut k: usize = 0;
    proof {
        assert(digest@.take(0) =~= Seq::<u8>::empty());
        reveal_with_fuel(pow256, 9);
        assert(pow256(8) == 18446744073709551616);
    }
    while k < 8
        invariant
            digest@.len() == 32,
            k <= 8,
            acc as nat == be_value(digest@.take(k as int)),
            pow256(8) == 18446744073709551616,
        decreases 8 - k,
    {
        proof {
            assert(digest@.take(k + 1).drop_last() =~= digest@.take(k as int));
            lemma_be_value_bound(digest@.take(k + 1));
            lemma_pow256_mono((k + 1) as nat, 8);
        }
        acc = acc * 256 + digest[k] as u64;
        k = k + 1;
    }
    acc
}

proof fn lemma_pow256_mono(a: nat, b: nat)
    requires
        a <= b,
    ensures
        pow256(a) <= pow256(b),
    decreases b - a,
{
    if a < b {
        lemma_pow256_mono(a, (b - 1) as nat);
    }
}

pub proof fn lemma_sorted_unique(a: Seq<u64>, b: Seq<u64>)
    requires
        strictly_increasing(a),
        strictly_increasing(b),
        a.to_set() == b.to_set(),
    ensures
        a == b,
    decreases a.len(),
{
    if a.len() == 0 {
        if b.len() > 0 {
            assert(b.to_set().contains(b[0]));
        }
        assert(b =~= a);
    } else {
        assert(a.to_set().contains(a[0]));
        assert(b.len() > 0);
        assert(b.to_set().contains(b[0]));
        let i = choose|i: int| 0 <= i < a.len() && a[i] == b[0];
        let j = choose|j: int| 0 <= j < b.len() && b[j] == a[0];
        assert(a[0] == b[0]);
        let ta = a.drop_first();
        let tb = b.drop_first();
        assert forall|x: u64| ta.to_set().contains(x) <==> tb.to_set().contains(x) by {
            if ta.to_set().contains(x) {
                let k = choose|k: int| 0 <= k < ta.len() && ta[k] == x;
                assert(a[k + 1] == x);
                assert(a.to_set().contains(x));
                assert(b.to_set().contains(x));
                let m = choose|m: int| 0 <= m < b.len() && b[m] == x;
                assert(m != 0);
                assert(tb[m - 1] == x);
            }
            if tb.to_set().contains(x) {
                let k = choose|k: int| 0 <= k < tb.len() && tb[k] == x;
                assert(b[k + 1] == x);
                assert(b.to_set().contains(x));
                assert(a.to_set().contains(x));
                let m = choose|m: int| 0 <= m < a.len() && a[m] == x;
                assert(m != 0);
                assert(ta[m - 1] == x);
            }
        }
        assert(ta.to_set() =~= tb.to_set());
        lemma_sorted_unique(ta, tb);
        assert(a =~= seq![a[0]] + ta);
        assert(b =~= seq![b[0]] + tb);
    }
}

/// Inserts `x` into a strictly increasing vector, keeping it strictly increasing.
fn insert_sorted(v: &mut Vec<u64>, x: u64)
    requires
        strictly_increasing(old(v)@),
    ensures
        strictly_increasing(final(v)@),
        final(v)@.to_set() == old(v)@.to_set().insert(x),
        final(v)@.len() > 0,
{
    let mut pos: usize = 0;
    while pos < v.len() && v[pos] < x
        invariant
            pos <= v@.len(),
            forall|k: int| 0 <= k < pos ==> v@[k] < x,
        decreases v.len() - pos,
    {
        pos = pos + 1;
    }
    if pos < v.len() && v[pos] == x {
        assert(v@.to_set().insert(x) =~= v@.to_set());
        return;
    }
    let ghost before = v@;
    v.insert(pos, x);
    proof {
        assert(v@ =~= before.subrange(0, pos as int).push(x) + before.subrange(pos as int, before.len() as int));
        assert forall|y: u64| v@.to_set().contains(y) <==> before.to_set().insert(x).contains(y) by {
            if v@.to_set().contains(y) {
                let k = choose|k: int| 0 <= k < v@.len() && v@[k] == y;
                if k < pos {
                    assert(before[k] == y);
                } else if k > pos {
                    assert(before[k - 1] == y);
                }
            }
            if before.to_set().contains(y) {
                let k = choose|k: int| 0 <= k < before.len() && before[k] == y;
                if k < pos {
                    assert(v@[k] == y);
                } else {
                    assert(v@[k + 1] == y);
                }
            }
            if y == x {
                assert(v@[pos as int] == x);
            }
        }
        assert(v@.to_set() =~= before.to_set().insert(x));
    }
}

/// The set of bucket ids of the first `k` phrases.
pub open spec fn buckets_upto(dict: Seq<Seq<u8>>, k: int) -> Set<u64> {
    Set::new(|b: u64| exists|i: int| 0 <= i < k && bucket_of(#[trigger] dict[i]) == b as nat)
}

/// Builds the LZJD digest of a payload; an empty payload is refused.
pub fn calculate_lzjd_hash(payload: &[u8]) -> (r: Result<LzjdHash, String>)
    ensures
        r is Ok <==> payload@.len() > 0,
        r is Ok ==> r->Ok_0@ == lzjd_model(payload@),
{
    if payload.len() == 0 {
        return Err(String::from_str("LZJD hash requires a non-empty payload"));
    }
    let phrases = lz78_phrases(payload);
    let ghost dict = lz78_dictionary(payload@);
    let mut sketch: Vec<u64> = Vec::new();
    let mut k: usize = 0;
    proof {
        assert(sketch@.to_set() =~= buckets_upto(dict, 0));
    }
    while k < phrases.len()
        invariant
            phrases@.map_values(|v: Vec<u8>| v@) == dict,
            phrases@.len() > 0,
            k <= phrases@.len(),
            strictly_increasing(sketch@),
            sketch@.to_set() == buckets_upto(dict, k as int),
            k > 0 ==> sketch@.len() > 0,
        decreases phrases.len() - k,
    {
        let bucket = hash_phrase_to_bucket(phrases[k].as_slice());
        insert_sorted(&mut sketch, bucket);
        proof {
            assert(dict[k as int] == phrases@[k as int]@);
            assert forall|b: u64| buckets_upto(dict, k + 1).contains(b) <==> buckets_upto(dict, k as int).insert(bucket).contains(b) by {
                if buckets_upto(dict, k + 1).contains(b) {
                    let i = choose|i: int| 0 <= i < k + 1 && bucket_of(#[trigger] dict[i]) == b as nat;
                    if i == k {
                        assert(b == bucket);
                    } else {
                        assert(buckets_upto(dict, k as int).contains(b));
                    }
                }
                if b == bucket {
                    assert(bucket_of(dict[k as int]) == b as nat);
                }
            }
            assert(sketch@.to_set() =~= buckets_upto(dict, k + 1));
        }
        k = k + 1;
    }
    proof {
        assert(buckets_upto(dict, dict.len() as int) =~= lzjd_buckets(payload@));
        lemma_sorted_unique(sketch@, sorted_distinct(lzjd_buckets(payload@)));
    }
    if sketch.len() > LZJD_SKETCH_SIZE {
        sketch.truncate(LZJD_SKETCH_SIZE);
    }
    proof {
        let all = sorted_distinct(lzjd_buckets(payload@));
        assert(sketch@ =~= all.take(min_nat(all.len(), LZJD_SKETCH_SIZE as nat) as int));
    }
    Ok(LzjdHash { sketch, payload_len: payload.len() })
}

impl LzjdHash {
    /// The text form `lzjd:<sketch length>:<hex fingerprint>`.
    pub fn as_string(&self) -> (r: String)
        ensures
            r@ == lzjd_render(self@),
            r@.len() == 6 + decimal(self@.sketch.len()).len() + 32,
    {
        let mut blob: Vec<u8> = Vec::new();
        push_be8(&mut blob, self.payload_len as u64);
        let ghost head = blob@;
        let mut i: usize = 0;
        proof {
            assert(be8_all(self.sketch@.take(0)) =~= Seq::<u8>::empty());
            assert(blob@ =~= head + be8_all(self.sketch@.take(0)));
        }
        while i < self.sketch.len()
            invariant
                i <= self.sketch@.len(),
                blob@ == head + be8_all(self.sketch@.take(i as int)),
            decreases self.sketch.len() - i,
        {
            push_be8(&mut blob, self.sketch[i]);
            proof {
                assert(self.sketch@.take(i + 1).drop_last() =~= self.sketch@.take(i as int));
                assert(blob@ =~= head + be8_all(self.sketch@.take(i + 1)));
            }
            i = i + 1;
        }
        proof {
            assert(self.sketch@.take(i as int) =~= self.sketch@);
        }
        let digest = sha256(blob.as_slice());
        let prefix = slice_to_vec(digest.as_slice(), 0, 16);
        let fingerprint = hex_encode(prefix.as_slice());
        let mut out = String::from_str("lzjd:");
        let count = decimal_string(self.sketch.len() as u64);
        out.append(count.as_str());
        out.append(":");
        out.append(fingerprint.as_str());
        proof {
            assert(prefix@ =~= sha256_of(blob@).take(16));
            assert(out@ =~= lzjd_render(self@));
            crate::text::lemma_hex_of_bytes_len(prefix@);
            reveal_strlit("lzjd:");
            reveal_strlit(":");
        }
        out
    }

    /// The LZJD distance to another digest, in `[0, 100]`.
    pub fn diff(&self, right: &Self, include_file_length: bool) -> (r: i32)
        ensures
            r as int == lzjd_distance(self@, right@, include_file_length),
            0 <= r <= 100,
    {
        let common = jaccard_common(&self.sketch, &right.sketch);
        proof {
            lemma_merge_common_bound(self.sketch@, right.sketch@);
        }
        let union = self.sketch.len() as u128 + right.sketch.len() as u128 - common as u128;
        let base: i32 = if union == 0 {
            0
        } else {
            round_ratio(union - common as u128, union, 100) as i32
        };
        apply_length_penalty(base, self.payload_len, right.payload_len, include_file_length)
    }
}

/// The number of ids common to two sketches, by a two-pointer walk.
fn jaccard_common(left: &Vec<u64>, right: &Vec<u64>) -> (r: usize)
    ensures
        r as nat == merge_common(left@, right@),
{
    let mut i: usize = 0;
    let mut j: usize = 0;
    let mut common: usize = 0;
    proof {
        lemma_merge_common_bound(left@, right@);
        assert(left@.skip(0) =~= left@);
        assert(right@.skip(0) =~= right@);
    }
    while i < left.len() && j < right.len()
        invariant
            i <= left@.len(),
            j <= right@.len(),
            common + merge_common(left@.skip(i as int), right@.skip(j as int)) == merge_common(left@, right@),
            merge_common(left@, right@) <= left@.len(),
        decreases left.len() + right.len() - i - j,
    {
        proof {
            assert(left@.skip(i as int).drop_first() =~= left@.skip(i + 1));
            assert(right@.skip(j as int).drop_first() =~= right@.skip(j + 1));
        }
        if left[i] < right[j] {
            i = i + 1;
        } else if left[i] > right[j] {
            j = j + 1;
        } else {
            common = common + 1;
            i = i + 1;
            j = j + 1;
        }
    }
    common
}

pub proof fn lemma_merge_common_bound(a: Seq<u64>, b: Seq<u64>)
    ensures
        merge_common(a, b) <= a.len(),
        merge_common(a, b) <= b.len(),
    decreases a.len() + b.len(),
{
    if a.len() > 0 && b.len() > 0 {
        if a[0] < b[0] {
            lemma_merge_common_bound(a.drop_first(), b);
        } else if a[0] > b[0] {
            lemma_merge_common_bound(a, b.drop_first());
        } else {
            lemma_merge_common_bound(a.drop_first(), b.drop_first());
        }
    }
}

pub proof fn lemma_merge_common_self(a: Seq<u64>)
    ensures
        merge_common(a, a) == a.len(),
    decreases a.len(),
{
    if a.len() > 0 {
        lemma_merge_common_self(a.drop_first());
    }
}

pub proof fn lemma_merge_common_symmetric(a: Seq<u64>, b: Seq<u64>)
    ensures
        merge_common(a, b) == merge_common(b, a),
    decreases a.len() + b.len(),
{
    if a.len() > 0 && b.len() > 0 {
        if a[0] < b[0] {
            lemma_merge_common_symmetric(a.drop_first(), b);
        } else if a[0] > b[0] {
            lemma_merge_common_symmetric(a, b.drop_first());
        } else {
            lemma_merge_common_symmetric(a.drop_first(), b.drop_first());
        }
    }
}

} // verus!
