//! The similarity backends behind one interface: build a digest, render it,
//! and compare two digests of the same family.

use vstd::prelude::*;
use vstd::string::*;
use crate::distance::{lemma_rounded_ratio_bound, length_penalty, penalized};
use crate::fbhash::{aligned_terms, calculate_fbhash, fbhash_render, is_feature_list, window_hashes, FbHash, FbHashView};
use crate::lzjd::{jaccard_distance, lemma_merge_common_bound, lemma_merge_common_self, lemma_merge_common_symmetric, merge_common, calculate_lzjd_hash, lzjd_distance, lzjd_model, lzjd_render, LzjdHash, LzjdView};
use crate::mrshv2::{calculate_mrshv2_hash, diff_mrshv2_hash, mrshv2_unavailable, Mrshv2Hash, Mrshv2View};
use crate::text::str_eq;

verus! {

/// The selectable similarity backends.
#[derive(Clone, Copy, Debug, PartialEq, Eq, Structural)]
pub enum SimilarityMode {
    Tlsh,
    Lzjd,
    Mrshv2,
    FbHash,
}

/// The name of each backend.
pub open spec fn mode_name(m: SimilarityMode) -> Seq<char> {
    match m {
        SimilarityMode::Tlsh => "tlsh"@,
        SimilarityMode::Lzjd => "lzjd"@,
        SimilarityMode::Mrshv2 => "mrshv2"@,
        SimilarityMode::FbHash => "fbhash"@,
    }
}

/// A recoverable failure of a similarity backend, with its message.
#[derive(Debug)]
pub struct SimilarityError {
    message: String,
}

impl View for SimilarityError {
    type V = Seq<char>;

    closed spec fn view(&self) -> Seq<char> {
        self.message@
    }
}

impl SimilarityError {
    pub fn new(message: String) -> (r: Self)
        ensures
            r@ == message@,
    {
        SimilarityError { message }
    }

    /// The message text.
    pub fn message(&self) -> (r: &str)
        ensures
            r@ == self@,
    {
        self.message.as_str()
    }
}

impl SimilarityMode {
    /// Parses a backend name.
    pub fn from_str(value: &str) -> (r: Result<Self, SimilarityError>)
        ensures
            r is Ok <==> exists|m: SimilarityMode| mode_name(m) == value@,
            r is Ok ==> mode_name(r->Ok_0) == value@,
    {
        proof {
            reveal_strlit("tlsh");
            reveal_strlit("lzjd");
            reveal_strlit("mrshv2");
            reveal_strlit("fbhash");
        }
        if str_eq(value, "tlsh") {
            assert(mode_name(SimilarityMode::Tlsh) == value@);
            Ok(SimilarityMode::Tlsh)
        } else if str_eq(value, "lzjd") {
            assert(mode_name(SimilarityMode::Lzjd) == value@);
            Ok(SimilarityMode::Lzjd)
        } else if str_eq(value, "mrshv2") {
            assert(mode_name(SimilarityMode::Mrshv2) == value@);
            Ok(SimilarityMode::Mrshv2)
        } else if str_eq(value, "fbhash") {
            assert(mode_name(SimilarityMode::FbHash) == value@);
            Ok(SimilarityMode::FbHash)
        } else {
            proof {
                assert forall|m: SimilarityMode| mode_name(m) != value@ by {
                    match m {
                        SimilarityMode::Tlsh => {},
                        SimilarityMode::Lzjd => {},
                        SimilarityMode::Mrshv2 => {},
                        SimilarityMode::FbHash => {},
                    }
                }
            }
            let mut message = String::from_str("Unsupported similarity mode '");
            message.append(value);
            message.append("'");
            Err(SimilarityError::new(message))
        }
    }

    /// The backend's name.
    pub fn as_str(&self) -> (r: &'static str)
        ensures
            r@ == mode_name(*self),
    {
        match self {
            SimilarityMode::Tlsh => "tlsh",
            SimilarityMode::Lzjd => "lzjd",
            SimilarityMode::Mrshv2 => "mrshv2",
            SimilarityMode::FbHash => "fbhash",
        }
    }
}

/// A digest of one of the backends.
#[derive(Clone, Debug)]
pub enum SimilarityHash {
    Lzjd(LzjdHash),
    Mrshv2(Mrshv2Hash),
    FbHash(FbHash),
}

/// What a digest holds, by family.
pub enum SimilarityView {
    Lzjd(LzjdView),
    Mrshv2(Mrshv2View),
    FbHash(FbHashView),
}

impl View for SimilarityHash {
    type V = SimilarityView;

    open spec fn view(&self) -> SimilarityView {
        match self {
            SimilarityHash::Lzjd(h) => SimilarityView::Lzjd(h@),
            SimilarityHash::Mrshv2(h) => SimilarityView::Mrshv2(h@),
            SimilarityHash::FbHash(h) => SimilarityView::FbHash(h@),
        }
    }
}

/// The text form of a digest.
pub open spec fn render(v: SimilarityView) -> Seq<char> {
    match v {
        SimilarityView::Lzjd(h) => lzjd_render(h),
        SimilarityView::Mrshv2(h) => h.digest,
        SimilarityView::FbHash(h) => h.digest,
    }
}

/// Whether two digests are of the same family.
pub open spec fn same_family(a: SimilarityView, b: SimilarityView) -> bool {
    match (a, b) {
        (SimilarityView::Lzjd(_), SimilarityView::Lzjd(_)) => true,
        (SimilarityView::Mrshv2(_), SimilarityView::Mrshv2(_)) => true,
        (SimilarityView::FbHash(_), SimilarityView::FbHash(_)) => true,
        _ => false,
    }
}

/// The message for a backend that this build does not provide.
pub open spec fn tlsh_unavailable() -> Seq<char> {
    "TLSH similarity hashing is not available in this build."@
}

/// The message for a comparison across families.
pub open spec fn incompatible_variants() -> Seq<char> {
    "Incompatible similarity hash algorithm types"@
}

impl SimilarityHash {
    /// The digest's text form.
    pub fn as_string(&self) -> (r: Result<String, SimilarityError>)
        ensures
            r is Ok,
            r->Ok_0@ == render(self@),
    {
        match self {
            SimilarityHash::Lzjd(h) => Ok(h.as_string()),
            SimilarityHash::Mrshv2(h) => Ok(String::from_str(h.as_string())),
            SimilarityHash::FbHash(h) => Ok(String::from_str(h.as_string())),
        }
    }
}

/// Builds the digest of `payload` with the chosen backend. LZJD and FBHash
/// refuse an empty payload and succeed otherwise; MRSHv2 and TLSH are not
/// available in this build.
pub fn calculate_similarity_hash(payload: &[u8], mode: &SimilarityMode, tlsh_algorithm: &str) -> (r: Result<SimilarityHash, SimilarityError>)
    ensures
        *mode == SimilarityMode::Lzjd ==> (r is Ok <==> payload@.len() > 0),
        *mode == SimilarityMode::FbHash ==> (r is Ok <==> payload@.len() > 0),
        *mode == SimilarityMode::Tlsh ==> r is Err && r->Err_0@ == tlsh_unavailable(),
        *mode == SimilarityMode::Mrshv2 ==> r is Err && r->Err_0@ == mrshv2_unavailable(),
        r is Ok && *mode == SimilarityMode::Lzjd ==> r->Ok_0@ == SimilarityView::Lzjd(lzjd_model(payload@)),
        r is Ok && *mode == SimilarityMode::FbHash ==> (r->Ok_0@ matches SimilarityView::FbHash(h) && is_feature_list(h.features, window_hashes(payload@))
            && h.payload_len == payload@.len() && h.digest == fbhash_render(h.features, payload@.len(), window_hashes(payload@).len())),
{
    match mode {
        SimilarityMode::Tlsh => Err(SimilarityError::new(String::from_str("TLSH similarity hashing is not available in this build."))),
        SimilarityMode::Lzjd => match calculate_lzjd_hash(payload) {
            Ok(h) => Ok(SimilarityHash::Lzjd(h)),
            Err(e) => Err(SimilarityError::new(e)),
        },
        SimilarityMode::Mrshv2 => match calculate_mrshv2_hash(payload) {
            Ok(h) => Ok(SimilarityHash::Mrshv2(h)),
            Err(e) => Err(SimilarityError::new(e)),
        },
        SimilarityMode::FbHash => match calculate_fbhash(payload) {
            Ok(h) => Ok(SimilarityHash::FbHash(h)),
            Err(e) => Err(SimilarityError::new(e)),
        },
    }
}

/// The distance between two digests of one family, in `[0, 100]`. Digests of
/// different families fail with an error. For FBHash the cosine part comes
/// from `cosine_distance` (see `FbHash::diff`).
pub fn diff_similarity_hash<F: Fn(&Vec<(u32, u32)>) -> u32>(
    left: &SimilarityHash,
    right: &SimilarityHash,
    include_file_length: bool,
    cosine_distance: F,
) -> (r: Result<i32, SimilarityError>)
    requires
        forall|t: &Vec<(u32, u32)>| cosine_distance.requires((t,)),
    ensures
        !same_family(left@, right@) ==> r is Err && r->Err_0@ == incompatible_variants(),
        r is Ok ==> 0 <= r->Ok_0 <= 100,
        (left@, right@) matches (SimilarityView::Lzjd(a), SimilarityView::Lzjd(b)) ==> r is Ok && r->Ok_0 == lzjd_distance(a, b, include_file_length),
        (left@, right@) matches (SimilarityView::Mrshv2(_), SimilarityView::Mrshv2(_)) ==> r is Err && r->Err_0@ == mrshv2_unavailable(),
        (left@, right@) matches (SimilarityView::FbHash(a), SimilarityView::FbHash(b)) ==> r is Ok && exists|t: &Vec<(u32, u32)>, d: u32|
            t@ == aligned_terms(a.features, b.features) && cosine_distance.ensures((t,), d)
                && r->Ok_0 == penalized(if d > 100 { 100int } else { d as int }, a.payload_len, b.payload_len, include_file_length),
{
    match (left, right) {
        (SimilarityHash::Lzjd(a), SimilarityHash::Lzjd(b)) => Ok(a.diff(b, include_file_length)),
        (SimilarityHash::Mrshv2(a), SimilarityHash::Mrshv2(b)) => match diff_mrshv2_hash(a, b, include_file_length) {
            Ok(d) => Ok(d),
            Err(e) => Err(SimilarityError::new(e)),
        },
        (SimilarityHash::FbHash(a), SimilarityHash::FbHash(b)) => Ok(a.diff(b, include_file_length, cosine_distance)),
        _ => Err(SimilarityError::new(String::from_str("Incompatible similarity hash algorithm types"))),
    }
}

/// An LZJD digest is at distance zero from a digest of the same payload,
/// with or without the length penalty.
pub proof fn law_distance_to_same_payload_is_zero(p: Seq<u8>, include_length: bool)
    ensures
        lzjd_distance(lzjd_model(p), lzjd_model(p), include_length) == 0,
{
    let s = lzjd_model(p).sketch;
    lemma_merge_common_self(s);
    if s.len() > 0 {
        assert(((2 * 100 * 0 + s.len()) / (2 * s.len())) == 0) by (nonlinear_arith)
            requires
                s.len() > 0,
        ;
    }
    assert(length_penalty(p.len(), p.len()) == 0) by {
        if p.len() > 0 {
            assert(((2 * 10 * 0 + p.len()) / (2 * p.len())) == 0) by (nonlinear_arith)
                requires
                    p.len() > 0,
            ;
        }
    }
}

/// The LZJD distance is symmetric.
pub proof fn law_distance_is_symmetric(p: Seq<u8>, q: Seq<u8>, include_length: bool)
    ensures
        lzjd_distance(lzjd_model(p), lzjd_model(q), include_length) == lzjd_distance(
            lzjd_model(q),
            lzjd_model(p),
            include_length,
        ),
{
    lemma_merge_common_symmetric(lzjd_model(p).sketch, lzjd_model(q).sketch);
}

/// The Jaccard part of the LZJD distance lies in `[0, 100]`.
pub proof fn lemma_jaccard_distance_range(a: Seq<u64>, b: Seq<u64>)
    ensures
        0 <= jaccard_distance(a, b) <= 100,
{
    lemma_merge_common_bound(a, b);
    let c = merge_common(a, b);
    let u = a.len() + b.len() - c;
    if u > 0 {
        lemma_rounded_ratio_bound((u - c) as nat, u as nat, 100);
    }
}

/// The LZJD distance between the digests of any two payloads lies in `[0, 100]`.
pub proof fn law_distance_in_range(p: Seq<u8>, q: Seq<u8>, include_length: bool)
    ensures
        0 <= lzjd_distance(lzjd_model(p), lzjd_model(q), include_length) <= 100,
{
    lemma_jaccard_distance_range(lzjd_model(p).sketch, lzjd_model(q).sketch);
}

/// Turning the length penalty on never lowers a distance: every backend adds
/// the penalty to a base distance in `[0, 100]`.
pub proof fn law_length_penalty_never_lowers(base: int, la: nat, lb: nat)
    requires
        0 <= base <= 100,
    ensures
        penalized(base, la, lb, true) >= penalized(base, la, lb, false),
{
}

/// For LZJD, the distance with the length penalty is at least the distance without it.
pub proof fn law_lzjd_length_penalty_never_lowers(p: Seq<u8>, q: Seq<u8>)
    ensures
        lzjd_distance(lzjd_model(p), lzjd_model(q), true) >= lzjd_distance(lzjd_model(p), lzjd_model(q), false),
{
    lemma_jaccard_distance_range(lzjd_model(p).sketch, lzjd_model(q).sketch);
}

/// The rendering of an LZJD digest depends on the payload bytes alone.
pub proof fn law_render_depends_on_payload_only(p: Seq<u8>, q: Seq<u8>)
    requires
        p == q,
    ensures
        render(SimilarityView::Lzjd(lzjd_model(p))) == render(SimilarityView::Lzjd(lzjd_model(q))),
{
}

} // verus!
