//! One payload through the pipeline: tag it, gate it on its tags (and on the
//! Sigma rules, when there are any), hash it, infer its protocol, and record
//! its report under its fingerprint.

use vstd::prelude::*;
use vstd::string::*;
use crate::codec::xxh3_64_of;
use crate::inference::{contributions, infer_protocol_candidates, inference_matches, ProtocolInference};
use crate::lzjd::lzjd_model;
use crate::sigma::{fired_rules, matching_sigma_rules, SigmaRulePlan};
use crate::similarity::{calculate_similarity_hash, render, SimilarityHash, SimilarityMode, SimilarityView};
use crate::tagging::{payload_tags, tag_payload, CompiledPattern};
use crate::text::{hex_digits, str_eq};
use crate::util::xxh3_64_hex;

verus! {

/// The report of one matched payload.
pub struct PayloadReport {
    /// The payload's XXH3-64 fingerprint in lowercase hex.
    pub key: String,
    /// Which input object the report extends (kept by the caller).
    pub base: usize,
    pub tags: Vec<String>,
    /// The rendered similarity digest, empty when none was built.
    pub similarity_hash: String,
    /// Where the digest stands in the batch's digest list.
    pub hash_index: Option<usize>,
    pub inference: Option<ProtocolInference>,
    /// The Sigma rules that matched, by index.
    pub sigma_rules: Vec<usize>,
}

/// How payloads are processed.
pub struct Settings {
    /// The backend that builds digests, when hashing is on.
    pub similarity: Option<SimilarityMode>,
    pub tlsh_algorithm: String,
    pub single_packet: bool,
    /// In millionths.
    pub abstain_threshold: u64,
    pub top_k: usize,
    pub rules: Vec<SigmaRulePlan>,
}

/// What a batch has gathered: the reports in insertion order and the digests.
pub struct Batch {
    pub reports: Vec<PayloadReport>,
    pub hashes: Vec<SimilarityHash>,
}

/// The fingerprint text of a payload.
pub open spec fn report_key(payload: Seq<u8>) -> Seq<char> {
    hex_digits(xxh3_64_of(payload) as nat)
}

/// The Sigma rules that fire on a payload's tags.
pub open spec fn sigma_hits(rules: Seq<SigmaRulePlan>, tags: Seq<Seq<char>>) -> Seq<usize> {
    if rules.len() == 0 || tags.len() == 0 {
        Seq::empty()
    } else {
        fired_rules(rules, tags, rules.len() as int)
    }
}

/// Whether a payload is reported: a tag fired and, when there are rules, a rule fired.
pub open spec fn is_reported(rules: Seq<SigmaRulePlan>, tags: Seq<Seq<char>>) -> bool {
    tags.len() > 0 && (rules.len() == 0 || sigma_hits(rules, tags).len() > 0)
}

/// Whether hashing with the settings builds a digest for the payload.
pub open spec fn hash_built(similarity: Option<SimilarityMode>, payload: Seq<u8>) -> bool {
    match similarity {
        Some(SimilarityMode::Lzjd) => payload.len() > 0,
        Some(SimilarityMode::FbHash) => payload.len() > 0,
        _ => false,
    }
}

/// Where the report of `key` goes: over the earlier report with that key, or at the end.
pub open spec fn slot_for(reports: Seq<PayloadReport>, key: Seq<char>, idx: int) -> bool {
    ||| (0 <= idx < reports.len() && reports[idx].key@ == key && forall|k: int| 0 <= k < idx ==> reports[k].key@ != key)
    ||| (idx == reports.len() && forall|k: int| 0 <= k < reports.len() ==> reports[k].key@ != key)
}

fn find_report(reports: &Vec<PayloadReport>, key: &str) -> (r: usize)
    ensures
        slot_for(reports@, key@, r as int),
{
    let mut i: usize = 0;
    while i < reports.len()
        invariant
            i <= reports@.len(),
            forall|k: int| 0 <= k < i ==> reports@[k].key@ != key@,
        decreases reports.len() - i,
    {
        if str_eq(reports[i].key.as_str(), key) {
            return i;
        }
        i = i + 1;
    }
    i
}

/// Runs one decoded payload through the pipeline and records its report.
/// Returns whether the payload was reported.
pub fn process_decoded_payload(
    batch: &mut Batch,
    payload: &[u8],
    base: usize,
    patterns: &Vec<CompiledPattern>,
    settings: &Settings,
    entropy_millibits: u64,
) -> (reported: bool)
    ensures
        ({
            let tags = payload_tags(patterns@, payload@);
            let key = report_key(payload@);
            &&& reported == is_reported(settings.rules@, tags)
            &&& !reported ==> final(batch).reports@ == old(batch).reports@ && final(batch).hashes@ == old(batch).hashes@
            &&& reported ==> exists|idx: int| #![trigger final(batch).reports@[idx]] slot_for(old(batch).reports@, key, idx) && {
                let rep = final(batch).reports@[idx];
                &&& final(batch).reports@.len() == (if idx == old(batch).reports@.len() { idx + 1 } else { old(batch).reports@.len() as int })
                &&& forall|k: int| 0 <= k < old(batch).reports@.len() && k != idx ==> final(batch).reports@[k] == old(batch).reports@[k]
                &&& rep.key@ == key
                &&& rep.base == base
                &&& rep.tags@.map_values(|s: String| s@) == tags
                &&& rep.sigma_rules@ == sigma_hits(settings.rules@, tags)
                &&& (settings.single_packet <==> rep.inference is Some)
                &&& settings.single_packet ==> inference_matches(rep.inference->Some_0, contributions(payload@, tags, entropy_millibits), 0, settings.top_k, settings.abstain_threshold)
                &&& hash_built(settings.similarity, payload@) ==> {
                    &&& final(batch).hashes@.len() == old(batch).hashes@.len() + 1
                    &&& final(batch).hashes@.drop_last() == old(batch).hashes@
                    &&& rep.hash_index == Some(old(batch).hashes@.len() as usize)
                    &&& rep.similarity_hash@ == render(final(batch).hashes@.last()@)
                    &&& settings.similarity == Some(SimilarityMode::Lzjd) ==> final(batch).hashes@.last()@ == SimilarityView::Lzjd(lzjd_model(payload@))
                }
                &&& !hash_built(settings.similarity, payload@) ==> final(batch).hashes@ == old(batch).hashes@ && rep.hash_index is None
                    && rep.similarity_hash@.len() == 0
            }
        }),
{
    let (tags, matched) = tag_payload(patterns, payload);
    let ghost tv = tags@.map_values(|s: String| s@);
    if !matched {
        return false;
    }
    let sigma_rules = matching_sigma_rules(&settings.rules, &tags);
    if settings.rules.len() > 0 && sigma_rules.len() == 0 {
        return false;
    }
    let mut bytes: Vec<u8> = Vec::new();
    let mut i: usize = 0;
    while i < payload.len()
        invariant
            i <= payload@.len(),
            bytes@ == payload@.take(i as int),
        decreases payload.len() - i,
    {
        bytes.push(payload[i]);
        i = i + 1;
        assert(bytes@ =~= payload@.take(i as int));
    }
    assert(payload@.take(i as int) =~= payload@);
    let (_, key) = xxh3_64_hex(bytes);
    let mut similarity_hash = String::new();
    let mut hash_index: Option<usize> = None;
    let ghost old_hashes = batch.hashes@;
    if let Some(mode) = &settings.similarity {
        match calculate_similarity_hash(payload, mode, settings.tlsh_algorithm.as_str()) {
            Ok(h) => {
                let text = h.as_string();
                if let Ok(t) = text {
                    similarity_hash = t;
                }
                hash_index = Some(batch.hashes.len());
                batch.hashes.push(h);
                assert(batch.hashes@.drop_last() =~= old_hashes);
            },
            Err(_) => {},
        }
    }
    let inference = if settings.single_packet {
        Some(infer_protocol_candidates(payload, &tags, 0, 0, entropy_millibits, settings.top_k, settings.abstain_threshold))
    } else {
        None
    };
    let idx = find_report(&batch.reports, key.as_str());
    let report = PayloadReport { key, base, tags, similarity_hash, hash_index, inference, sigma_rules };
    let ghost old_reports = batch.reports@;
    if idx < batch.reports.len() {
        batch.reports.set(idx, report);
    } else {
        batch.reports.push(report);
    }
    assert(batch.reports@[idx as int].tags@.map_values(|s: String| s@) == tv);
    true
}

} // verus!
