//! Single-packet protocol inference: a fixed table of byte and token
//! heuristics scores each protocol label; the best label wins unless its
//! score is below the abstain threshold.
//!
//! Scores and thresholds are fixed-point numbers in millionths (`1_000_000`
//! stands for `1.0`).

use vstd::prelude::*;
use vstd::string::*;
use crate::text::{bytes_contain_str, bytes_start_with, decimal_string, has_infix, has_prefix, latin1};

verus! {

/// Highest score a candidate can have (0.99).
pub const MAX_SCORE: u64 = 990_000;

/// The whole scale (1.0).
pub const SCORE_SCALE: u64 = 1_000_000;

/// The largest neighbor boost (0.25).
pub const MAX_NEIGHBOR_BOOST: u64 = 250_000;

/// The entropy, in thousandths of a bit, above which a low-printable payload
/// counts as an opaque stream (6.2 bits).
pub const OPAQUE_ENTROPY_MILLIBITS: u64 = 6_200;

/// A scored protocol label with the evidence behind it.
#[derive(Clone, Debug)]
pub struct ProtocolCandidate {
    pub protocol: String,
    /// In millionths.
    pub score: u64,
    pub evidence: Vec<String>,
}

/// The verdict on one payload.
#[derive(Clone, Debug)]
pub struct ProtocolInference {
    pub label: String,
    /// In millionths: the top candidate's score.
    pub confidence: u64,
    pub abstained: bool,
    pub candidates: Vec<ProtocolCandidate>,
}

/// ASCII lowercase of the payload bytes.
pub open spec fn lower_bytes(p: Seq<u8>) -> Seq<u8> {
    p.map_values(|b: u8| if 65 <= b <= 90 { (b + 32) as u8 } else { b })
}

/// The payload read as lowercase text.
pub open spec fn lowered(p: Seq<u8>) -> Seq<char> {
    latin1(lower_bytes(p))
}

pub open spec fn is_printable(b: u8) -> bool {
    b == 10 || b == 13 || b == 9 || (0x20 <= b <= 0x7e)
}

/// The number of printable bytes (`\n`, `\r`, `\t` and `0x20..=0x7e`).
pub open spec fn printable_count(p: Seq<u8>) -> nat
    decreases p.len(),
{
    if p.len() == 0 {
        0
    } else {
        printable_count(p.drop_last()) + if is_printable(p.last()) { 1nat } else { 0nat }
    }
}

/// The number of `.` bytes.
pub open spec fn dot_count(p: Seq<u8>) -> nat
    decreases p.len(),
{
    if p.len() == 0 {
        0
    } else {
        dot_count(p.drop_last()) + if p.last() == 46 { 1nat } else { 0nat }
    }
}

pub open spec fn starts_lower(p: Seq<u8>, s: Seq<char>) -> bool {
    has_prefix(lowered(p), s)
}

pub open spec fn contains_lower(p: Seq<u8>, s: Seq<char>) -> bool {
    has_infix(lowered(p), s)
}

pub open spec fn is_http(p: Seq<u8>) -> bool {
    starts_lower(p, "get "@) || starts_lower(p, "post "@) || starts_lower(p, "head "@) || starts_lower(p, "put "@)
        || starts_lower(p, "delete "@) || contains_lower(p, " http/1."@) || contains_lower(p, "host:"@)
}

pub open spec fn is_tls(p: Seq<u8>) -> bool {
    p.len() >= 3 && p[0] == 0x16 && p[1] == 0x03 && p[2] <= 0x04
}

pub open spec fn is_smtp(p: Seq<u8>) -> bool {
    starts_lower(p, "ehlo "@) || starts_lower(p, "helo "@) || starts_lower(p, "mail from:"@) || starts_lower(p, "rcpt to:"@)
        || starts_lower(p, "220 "@) || starts_lower(p, "250 "@)
}

pub open spec fn is_pop3_or_ftp(p: Seq<u8>) -> bool {
    starts_lower(p, "user "@) || starts_lower(p, "pass "@) || starts_lower(p, "+ok"@) || starts_lower(p, "-err"@)
}

pub open spec fn is_json(p: Seq<u8>) -> bool {
    starts_lower(p, "{"@) && contains_lower(p, ":"@) && 100 * printable_count(p) > 95 * p.len()
}

pub open spec fn has_magic(p: Seq<u8>, m: Seq<u8>) -> bool {
    has_prefix(p, m)
}

pub open spec fn is_opaque(p: Seq<u8>, entropy_millibits: u64) -> bool {
    100 * printable_count(p) < 35 * p.len() && entropy_millibits > OPAQUE_ENTROPY_MILLIBITS
}

pub open spec fn is_shell(p: Seq<u8>) -> bool {
    contains_lower(p, "/bin/sh"@) || starts_lower(p, "wget "@) || starts_lower(p, "curl "@) || starts_lower(p, "busybox "@)
        || starts_lower(p, "chmod "@) || starts_lower(p, "powershell "@)
}

pub open spec fn is_domain(p: Seq<u8>) -> bool {
    100 * printable_count(p) > 90 * p.len() && dot_count(p) >= 2 && !contains_lower(p, " "@)
}

/// One scoring contribution: a label and an amount in millionths.
pub type Contribution = (Seq<char>, nat);

pub open spec fn when(c: bool, label: Seq<char>, amount: nat) -> Seq<Contribution> {
    if c {
        seq![(label, amount)]
    } else {
        Seq::empty()
    }
}

/// The contributions of the payload heuristics, in table order.
#[verifier::opaque]
pub open spec fn payload_contributions(p: Seq<u8>, entropy_millibits: u64) -> Seq<Contribution> {
    when(is_http(p), "http"@, 850_000) + when(is_tls(p), "tls"@, 900_000) + when(starts_lower(p, "ssh-"@), "ssh"@, 950_000)
        + when(is_smtp(p), "smtp"@, 780_000) + when(is_pop3_or_ftp(p), "pop3_or_ftp"@, 660_000) + when(
        is_json(p),
        "json_application"@,
        520_000,
    ) + when(has_magic(p, seq![0x7fu8, 0x45u8, 0x4cu8, 0x46u8]), "firmware_binary"@, 980_000) + when(
        has_magic(p, seq![0x4du8, 0x5au8]),
        "firmware_binary"@,
        850_000,
    ) + when(has_magic(p, seq![0x1fu8, 0x8bu8]), "compressed_binary"@, 880_000) + when(
        has_magic(p, seq![0x50u8, 0x4bu8, 0x03u8, 0x04u8]),
        "compressed_binary"@,
        800_000,
    ) + when(has_magic(p, seq![0x27u8, 0x05u8, 0x19u8, 0x56u8]), "firmware_binary"@, 860_000) + when(
        is_opaque(p, entropy_millibits),
        "opaque_binary_stream"@,
        600_000,
    ) + when(is_shell(p), "shell_command"@, 720_000) + when(is_domain(p), "dns_or_domain_payload"@, 440_000)
}

/// The contributions of one tag: 0.2 for each protocol keyword it holds.
#[verifier::opaque]
pub open spec fn tag_contributions(tag: Seq<char>) -> Seq<Contribution> {
    let t = crate::condition::lower_chars(tag);
    when(has_infix(t, "http"@), "http"@, 200_000) + when(has_infix(t, "tls"@) || has_infix(t, "ssl"@), "tls"@, 200_000)
        + when(has_infix(t, "dns"@), "dns_or_domain_payload"@, 200_000) + when(has_infix(t, "ssh"@), "ssh"@, 200_000)
        + when(has_infix(t, "firmware"@) || has_infix(t, "elf"@), "firmware_binary"@, 200_000)
}

pub open spec fn tags_contributions(tags: Seq<Seq<char>>) -> Seq<Contribution>
    decreases tags.len(),
{
    if tags.len() == 0 {
        Seq::empty()
    } else {
        tags_contributions(tags.drop_last()) + tag_contributions(tags.last())
    }
}

/// Every contribution for a payload and its tags.
pub open spec fn contributions(p: Seq<u8>, tags: Seq<Seq<char>>, entropy_millibits: u64) -> Seq<Contribution> {
    payload_contributions(p, entropy_millibits) + tags_contributions(tags)
}

/// The summed contributions to `label`.
pub open spec fn label_total(c: Seq<Contribution>, label: Seq<char>) -> nat
    decreases c.len(),
{
    if c.len() == 0 {
        0
    } else {
        label_total(c.drop_last(), label) + if c.last().0 == label { c.last().1 } else { 0 }
    }
}

/// Whether any contribution goes to `label`.
pub open spec fn has_label(c: Seq<Contribution>, label: Seq<char>) -> bool {
    exists|i: int| 0 <= i < c.len() && c[i].0 == label
}

/// The boost for a similarity cluster: 0.08 times the natural logarithm of
/// one plus the neighbor count, at most 0.25. `log1p_neighbors` is that
/// logarithm in millionths.
pub open spec fn neighbor_boost(log1p_neighbors: u64) -> nat {
    let b = (log1p_neighbors as nat) * 8 / 100;
    if b > MAX_NEIGHBOR_BOOST {
        MAX_NEIGHBOR_BOOST as nat
    } else {
        b
    }
}

/// A candidate's final score: its total plus the boost, at most `MAX_SCORE`.
pub open spec fn final_score(total: nat, boost: nat) -> nat {
    if total + boost > MAX_SCORE {
        MAX_SCORE as nat
    } else {
        total + boost
    }
}

/// The abstain threshold clamped to `[0, SCORE_SCALE]`.
pub open spec fn clamped_threshold(t: u64) -> nat {
    if t > SCORE_SCALE {
        SCORE_SCALE as nat
    } else {
        t as nat
    }
}

fn lowercase_payload(payload: &[u8]) -> (r: Vec<u8>)
    ensures
        r@ == lower_bytes(payload@),
{
    let mut out: Vec<u8> = Vec::new();
    let mut i: usize = 0;
    while i < payload.len()
        invariant
            i <= payload@.len(),
            out@ == lower_bytes(payload@.take(i as int)),
        decreases payload.len() - i,
    {
        let b = payload[i];
        out.push(if 65 <= b && b <= 90 { b + 32 } else { b });
        i = i + 1;
        assert(out@ =~= lower_bytes(payload@.take(i as int)));
    }
    assert(payload@.take(i as int) =~= payload@);
    out
}

/// Counts the printable bytes.
pub fn printable_bytes(payload: &[u8]) -> (r: usize)
    ensures
        r == printable_count(payload@),
{
    let mut n: usize = 0;
    let mut i: usize = 0;
    while i < payload.len()
        invariant
            i <= payload@.len(),
            n == printable_count(payload@.take(i as int)),
            n <= i,
        decreases payload.len() - i,
    {
        assert(payload@.take(i + 1).drop_last() =~= payload@.take(i as int));
        let b = payload[i];
        if b == 10 || b == 13 || b == 9 || (0x20 <= b && b <= 0x7e) {
            n = n + 1;
        }
        i = i + 1;
    }
    assert(payload@.take(i as int) =~= payload@);
    n
}

fn dots(payload: &[u8]) -> (r: usize)
    ensures
        r == dot_count(payload@),
{
    let mut n: usize = 0;
    let mut i: usize = 0;
    while i < payload.len()
        invariant
            i <= payload@.len(),
            n == dot_count(payload@.take(i as int)),
            n <= i,
        decreases payload.len() - i,
    {
        assert(payload@.take(i + 1).drop_last() =~= payload@.take(i as int));
        if payload[i] == 46 {
            n = n + 1;
        }
        i = i + 1;
    }
    assert(payload@.take(i as int) =~= payload@);
    n
}

/// Whether a payload starts with the given magic bytes.
pub fn starts_with_magic(payload: &[u8], magic: &[u8]) -> (r: bool)
    ensures
        r == has_magic(payload@, magic@),
{
    if magic.len() > payload.len() {
        return false;
    }
    let mut i: usize = 0;
    while i < magic.len()
        invariant
            i <= magic@.len() <= payload@.len(),
            forall|k: int| 0 <= k < i ==> payload@[k] == magic@[k],
        decreases magic.len() - i,
    {
        if payload[i] != magic[i] {
            assert(payload@.subrange(0, magic@.len() as int)[i as int] != magic@[i as int]);
            return false;
        }
        i = i + 1;
    }
    assert(payload@.subrange(0, magic@.len() as int) =~= magic@);
    true
}

/// The running scores: one entry per label, in the order labels first scored.
struct ScoreTable {
    entries: Vec<(String, u64, Vec<String>)>,
    ledger: Ghost<Seq<Contribution>>,
}

impl ScoreTable {
    spec fn wf(&self) -> bool {
        &&& forall|i: int, j: int| 0 <= i < j < self.entries@.len() ==> self.entries@[i].0@ != self.entries@[j].0@
        &&& forall|i: int| 0 <= i < self.entries@.len() ==> (#[trigger] self.entries@[i]).1 as nat == capped(label_total(self.ledger@, self.entries@[i].0@))
        &&& forall|l: Seq<char>| has_label(self.ledger@, l) <==> exists|i: int| 0 <= i < self.entries@.len() && (#[trigger] self.entries@[i]).0@ == l
    }

    fn add(&mut self, protocol: &str, score: u64, evidence: &str)
        requires
            old(self).wf(),
            score <= 1_000_000,
        ensures
            final(self).wf(),
            final(self).ledger@ == old(self).ledger@.push((protocol@, score as nat)),
    {
        let ghost led = self.ledger@.push((protocol@, score as nat));
        proof {
            assert forall|l: Seq<char>| label_total(led, l) == label_total(self.ledger@, l) + if l == protocol@ { score as nat } else { 0 } by {
                assert(led.drop_last() =~= self.ledger@);
            }
            assert forall|l: Seq<char>| has_label(led, l) <==> (has_label(self.ledger@, l) || l == protocol@) by {
                if has_label(self.ledger@, l) {
                    let k = choose|k: int| 0 <= k < self.ledger@.len() && self.ledger@[k].0 == l;
                    assert(led[k].0 == l);
                }
                if has_label(led, l) {
                    let k = choose|k: int| 0 <= k < led.len() && led[k].0 == l;
                    if k < self.ledger@.len() {
                        assert(self.ledger@[k].0 == l);
                    }
                }
                if l == protocol@ {
                    assert(led[self.ledger@.len() as int].0 == l);
                }
            }
        }
        let mut i: usize = 0;
        while i < self.entries.len()
            invariant
                self.wf(),
                self.entries == old(self).entries,
                self.ledger == old(self).ledger,
                i <= self.entries@.len(),
                forall|k: int| 0 <= k < i ==> self.entries@[k].0@ != protocol@,
                led == old(self).ledger@.push((protocol@, score as nat)),
                score <= 1_000_000,
                forall|l: Seq<char>| label_total(led, l) == label_total(old(self).ledger@, l) + if l == protocol@ { score as nat } else { 0 },
                forall|l: Seq<char>| has_label(led, l) <==> (has_label(old(self).ledger@, l) || l == protocol@),
            decreases self.entries.len() - i,
        {
            if crate::text::str_eq(self.entries[i].0.as_str(), protocol) {
                assert(self.entries@[i as int].1 as nat == capped(label_total(self.ledger@, self.entries@[i as int].0@)));
                let ghost before_entries = self.entries@;
                let (name, total, mut notes) = self.entries.remove(i);
                notes.push(String::from_str(evidence));
                proof {
                    assert(total == before_entries[i as int].1);
                    assert(before_entries[i as int].0@ == protocol@);
                    assert(total as nat == capped(label_total(old(self).ledger@, protocol@)));
                }
                let next = if total > SCORE_CAP - score { SCORE_CAP } else { total + score };
                self.entries.insert(i, (name, next, notes));
                self.ledger = Ghost(led);
                proof {
                    assert forall|k: int| 0 <= k < self.entries@.len() && k != i implies self.entries@[k] == old(self).entries@[k] by {}
                    assert(self.entries@[i as int].0@ == protocol@);
                    assert forall|k: int| 0 <= k < self.entries@.len() implies (#[trigger] self.entries@[k]).1 as nat == capped(label_total(self.ledger@, self.entries@[k].0@)) by {
                        if k != i {
                            assert(old(self).entries@[k].1 as nat == capped(label_total(old(self).ledger@, old(self).entries@[k].0@)));
                        }
                    }
                    assert forall|a: int, b: int| 0 <= a < b < self.entries@.len() implies self.entries@[a].0@ != self.entries@[b].0@ by {
                        assert(self.entries@[a].0@ == old(self).entries@[a].0@);
                        assert(self.entries@[b].0@ == old(self).entries@[b].0@);
                    }
                    assert forall|l: Seq<char>| has_label(led, l) <==> exists|k: int| 0 <= k < self.entries@.len() && (#[trigger] self.entries@[k]).0@ == l by {
                        if has_label(led, l) && l != protocol@ {
                            let k = choose|k: int| 0 <= k < old(self).entries@.len() && (#[trigger] old(self).entries@[k]).0@ == l;
                            assert(self.entries@[k].0@ == l);
                        }
                        if exists|k: int| 0 <= k < self.entries@.len() && (#[trigger] self.entries@[k]).0@ == l {
                            let k = choose|k: int| 0 <= k < self.entries@.len() && (#[trigger] self.entries@[k]).0@ == l;
                            if k != i {
                                assert(old(self).entries@[k].0@ == l);
                            }
                        }
                    }
                }
                return;
            }
            i = i + 1;
        }
        let mut notes: Vec<String> = Vec::new();
        notes.push(String::from_str(evidence));
        proof {
            assert(!has_label(self.ledger@, protocol@)) by {
                if has_label(self.ledger@, protocol@) {
                    let k = choose|k: int| 0 <= k < self.entries@.len() && (#[trigger] self.entries@[k]).0@ == protocol@;
                }
            }
            lemma_label_total_absent(self.ledger@, protocol@);
        }
        self.entries.push((String::from_str(protocol), score, notes));
        assert(label_total(led, protocol@) == score as nat);
        self.ledger = Ghost(led);
        proof {
            assert forall|l: Seq<char>| has_label(led, l) <==> exists|k: int| 0 <= k < self.entries@.len() && (#[trigger] self.entries@[k]).0@ == l by {
                if has_label(led, l) && l != protocol@ {
                    assert(has_label(old(self).ledger@, l));
                    let k = choose|k: int| 0 <= k < old(self).entries@.len() && (#[trigger] old(self).entries@[k]).0@ == l;
                    assert(self.entries@[k].0@ == l);
                }
                if l == protocol@ {
                    assert(self.entries@[old(self).entries@.len() as int].0@ == l);
                }
                if exists|k: int| 0 <= k < self.entries@.len() && (#[trigger] self.entries@[k]).0@ == l {
                    let k = choose|k: int| 0 <= k < self.entries@.len() && (#[trigger] self.entries@[k]).0@ == l;
                    if k < old(self).entries@.len() {
                        assert(old(self).entries@[k].0@ == l);
                    }
                }
            }
        }
    }
}

/// Running totals saturate here; any total this large already exceeds `MAX_SCORE`.
pub const SCORE_CAP: u64 = 0x4000_0000_0000_0000;

/// A total, saturated at `SCORE_CAP`.
pub open spec fn capped(n: nat) -> nat {
    if n > SCORE_CAP {
        SCORE_CAP as nat
    } else {
        n
    }
}

proof fn lemma_label_total_absent(c: Seq<Contribution>, l: Seq<char>)
    requires
        !has_label(c, l),
    ensures
        label_total(c, l) == 0,
    decreases c.len(),
{
    if c.len() > 0 {
        assert(!has_label(c.drop_last(), l)) by {
            if has_label(c.drop_last(), l) {
                let k = choose|k: int| 0 <= k < c.drop_last().len() && c.drop_last()[k].0 == l;
                assert(c[k].0 == l);
            }
        }
        lemma_label_total_absent(c.drop_last(), l);
    }
}

/// A candidate is a label that scored, with its final score.
pub open spec fn scored(c: ProtocolCandidate, ledger: Seq<Contribution>, boost: nat) -> bool {
    has_label(ledger, c.protocol@) && c.score as nat == final_score(label_total(ledger, c.protocol@), boost)
}

/// Inserts a candidate into a list sorted by non-increasing score, after
/// every candidate whose score is at least its own.
fn insert_by_score(out: &mut Vec<ProtocolCandidate>, item: ProtocolCandidate)
    requires
        sorted_by_score(old(out)@),
    ensures
        sorted_by_score(final(out)@),
        exists|pos: int| 0 <= pos <= old(out)@.len() && final(out)@ == old(out)@.insert(pos, item),
{
    let mut pos: usize = 0;
    while pos < out.len() && out[pos].score >= item.score
        invariant
            pos <= out@.len(),
            forall|j: int| 0 <= j < pos ==> out@[j].score >= item.score,
        decreases out.len() - pos,
    {
        pos = pos + 1;
    }
    let ghost before = out@;
    out.insert(pos, item);
    proof {
        assert forall|a: int, b: int| 0 <= a < b < out@.len() implies out@[a].score >= out@[b].score by {
            if a < pos && b == pos {
            } else if a < pos && b > pos {
                assert(out@[b] == before[b - 1]);
                assert(before[a].score >= before[b - 1].score);
            } else if a == pos && b > pos {
                assert(out@[b] == before[b - 1]);
                assert(before[pos as int].score < item.score);
                assert(before[pos as int].score >= before[b - 1].score || b - 1 == pos);
            } else if a > pos {
                assert(out@[a] == before[a - 1]);
                assert(out@[b] == before[b - 1]);
            } else {
                assert(out@[a] == before[a]);
                assert(out@[b] == before[b]);
            }
        }
    }
}

/// Whether candidates are in non-increasing score order.
pub open spec fn sorted_by_score(c: Seq<ProtocolCandidate>) -> bool {
    forall|i: int, j: int| 0 <= i < j < c.len() ==> c[i].score >= c[j].score
}

/// The boost actually applied: none unless the raw boost is positive.
pub open spec fn applied_boost(log1p_neighbors: u64) -> nat {
    neighbor_boost(log1p_neighbors)
}

/// What the inference owes for a payload, given its contributions.
pub open spec fn inference_matches(
    r: ProtocolInference,
    c: Seq<Contribution>,
    log1p_neighbors: u64,
    top_k: usize,
    abstain_threshold: u64,
) -> bool {
    let k = if top_k == 0 { 1 } else { top_k as int };
    &&& r.candidates@.len() >= 1
    &&& r.candidates@.len() <= k
    &&& sorted_by_score(r.candidates@)
    &&& r.confidence == r.candidates@[0].score
    &&& r.label@ == (if r.abstained { "unknown"@ } else { r.candidates@[0].protocol@ })
    &&& (forall|l: Seq<char>| !has_label(c, l)) ==> (r.candidates@.len() == 1 && r.candidates@[0].protocol@ == "unknown"@
        && r.candidates@[0].score == 0 && r.abstained
        && r.candidates@[0].evidence@.map_values(|s: String| s@) == seq!["no protocol heuristics matched"@])
    &&& (exists|l: Seq<char>| has_label(c, l)) ==> {
        &&& r.abstained == ((r.confidence as nat) < clamped_threshold(abstain_threshold))
        &&& forall|i: int| 0 <= i < r.candidates@.len() ==> has_label(c, (#[trigger] r.candidates@[i]).protocol@)
            && r.candidates@[i].score as nat == final_score(label_total(c, r.candidates@[i].protocol@), applied_boost(log1p_neighbors))
        &&& forall|i: int, j: int| 0 <= i < j < r.candidates@.len() ==> r.candidates@[i].protocol@ != r.candidates@[j].protocol@
        &&& forall|l: Seq<char>| has_label(c, l) && !(exists|i: int| 0 <= i < r.candidates@.len() && (#[trigger] r.candidates@[i]).protocol@ == l)
            ==> r.candidates@.len() == k && final_score(label_total(c, l), applied_boost(log1p_neighbors)) <= r.candidates@.last().score
    }
}

fn str_chars_contain(hay: &Vec<char>, needle: &str) -> (r: bool)
    ensures
        r == has_infix(hay@, needle@),
{
    let n = crate::text::chars_of(needle);
    crate::text::chars_contain(hay.as_slice(), n.as_slice())
}

impl ScoreTable {
    fn empty() -> (r: Self)
        ensures
            r.wf(),
            r.ledger@ == Seq::<Contribution>::empty(),
    {
        ScoreTable { entries: Vec::new(), ledger: Ghost(Seq::empty()) }
    }

    /// Adds a contribution when `c` holds.
    fn add_when(&mut self, c: bool, protocol: &str, score: u64, evidence: &str)
        requires
            old(self).wf(),
            score <= 1_000_000,
        ensures
            final(self).wf(),
            final(self).ledger@ == old(self).ledger@ + when(c, protocol@, score as nat),
    {
        if c {
            self.add(protocol, score, evidence);
            assert(self.ledger@ =~= old(self).ledger@ + when(c, protocol@, score as nat));
        } else {
            assert(self.ledger@ =~= old(self).ledger@ + when(c, protocol@, score as nat));
        }
    }
}

fn http_like(lp: &[u8]) -> (r: bool)
    ensures
        r == (has_prefix(latin1(lp@), "get "@) || has_prefix(latin1(lp@), "post "@) || has_prefix(latin1(lp@), "head "@)
            || has_prefix(latin1(lp@), "put "@) || has_prefix(latin1(lp@), "delete "@) || has_infix(latin1(lp@), " http/1."@)
            || has_infix(latin1(lp@), "host:"@)),
{
    bytes_start_with(lp, "get ") || bytes_start_with(lp, "post ") || bytes_start_with(lp, "head ")
        || bytes_start_with(lp, "put ") || bytes_start_with(lp, "delete ") || bytes_contain_str(lp, " http/1.")
        || bytes_contain_str(lp, "host:")
}

fn smtp_like(lp: &[u8]) -> (r: bool)
    ensures
        r == (has_prefix(latin1(lp@), "ehlo "@) || has_prefix(latin1(lp@), "helo "@) || has_prefix(latin1(lp@), "mail from:"@)
            || has_prefix(latin1(lp@), "rcpt to:"@) || has_prefix(latin1(lp@), "220 "@) || has_prefix(latin1(lp@), "250 "@)),
{
    bytes_start_with(lp, "ehlo ") || bytes_start_with(lp, "helo ") || bytes_start_with(lp, "mail from:")
        || bytes_start_with(lp, "rcpt to:") || bytes_start_with(lp, "220 ") || bytes_start_with(lp, "250 ")
}

fn pop3_like(lp: &[u8]) -> (r: bool)
    ensures
        r == (has_prefix(latin1(lp@), "user "@) || has_prefix(latin1(lp@), "pass "@) || has_prefix(latin1(lp@), "+ok"@)
            || has_prefix(latin1(lp@), "-err"@)),
{
    bytes_start_with(lp, "user ") || bytes_start_with(lp, "pass ") || bytes_start_with(lp, "+ok") || bytes_start_with(lp, "-err")
}

fn shell_like(lp: &[u8]) -> (r: bool)
    ensures
        r == (has_infix(latin1(lp@), "/bin/sh"@) || has_prefix(latin1(lp@), "wget "@) || has_prefix(latin1(lp@), "curl "@)
            || has_prefix(latin1(lp@), "busybox "@) || has_prefix(latin1(lp@), "chmod "@) || has_prefix(latin1(lp@), "powershell "@)),
{
    bytes_contain_str(lp, "/bin/sh") || bytes_start_with(lp, "wget ") || bytes_start_with(lp, "curl ")
        || bytes_start_with(lp, "busybox ") || bytes_start_with(lp, "chmod ") || bytes_start_with(lp, "powershell ")
}

/// The payload heuristics, in table order.
#[verifier::rlimit(40)]
fn score_payload(payload: &[u8], entropy_millibits: u64) -> (r: ScoreTable)
    ensures
        r.wf(),
        r.ledger@ == payload_contributions(payload@, entropy_millibits),
{
    let lower = lowercase_payload(payload);
    let lp = lower.as_slice();
    let printable = printable_bytes(payload) as u128;
    let len = payload.len() as u128;
    let dot_total = dots(payload) as u128;
    let ghost p = payload@;
    assert(lowered(p) == latin1(lp@));
    let mut t = ScoreTable::empty();
    t.add_when(http_like(lp), "http", 850_000, "matched HTTP request/headers");
    t.add_when(payload.len() >= 3 && payload[0] == 0x16 && payload[1] == 0x03 && payload[2] <= 0x04,
        "tls", 900_000, "matched TLS handshake prefix 16 03 xx");
    t.add_when(bytes_start_with(lp, "ssh-"), "ssh", 950_000, "matched SSH identification banner");
    t.add_when(smtp_like(lp), "smtp", 780_000, "matched SMTP command/response markers");
    t.add_when(pop3_like(lp), "pop3_or_ftp", 660_000, "matched POP3/FTP style tokens");
    t.add_when(bytes_start_with(lp, "{") && bytes_contain_str(lp, ":") && 100 * printable > 95 * len,
        "json_application", 520_000, "high-printable JSON-like payload shape");
    let elf: [u8; 4] = [0x7f, 0x45, 0x4c, 0x46];
    assert(elf@ =~= seq![0x7fu8, 0x45u8, 0x4cu8, 0x46u8]);
    t.add_when(starts_with_magic(payload, elf.as_slice()), "firmware_binary", 980_000, "ELF magic header");
    let mz: [u8; 2] = [0x4d, 0x5a];
    assert(mz@ =~= seq![0x4du8, 0x5au8]);
    t.add_when(starts_with_magic(payload, mz.as_slice()), "firmware_binary", 850_000, "PE/COFF MZ header");
    let gz: [u8; 2] = [0x1f, 0x8b];
    assert(gz@ =~= seq![0x1fu8, 0x8bu8]);
    t.add_when(starts_with_magic(payload, gz.as_slice()), "compressed_binary", 880_000, "gzip magic header");
    let zip: [u8; 4] = [0x50, 0x4b, 0x03, 0x04];
    assert(zip@ =~= seq![0x50u8, 0x4bu8, 0x03u8, 0x04u8]);
    t.add_when(starts_with_magic(payload, zip.as_slice()), "compressed_binary", 800_000, "zip magic header");
    let uimage: [u8; 4] = [0x27, 0x05, 0x19, 0x56];
    assert(uimage@ =~= seq![0x27u8, 0x05u8, 0x19u8, 0x56u8]);
    t.add_when(starts_with_magic(payload, uimage.as_slice()), "firmware_binary", 860_000, "uImage magic header (0x27051956)");
    t.add_when(100 * printable < 35 * len && entropy_millibits > OPAQUE_ENTROPY_MILLIBITS,
        "opaque_binary_stream", 600_000, "low-printable/high-entropy binary characteristics");
    t.add_when(shell_like(lp), "shell_command", 720_000, "matched command execution markers");
    t.add_when(100 * printable > 90 * len && dot_total >= 2 && !bytes_contain_str(lp, " "),
        "dns_or_domain_payload", 440_000, "domain-like token shape");
    reveal(payload_contributions);
    assert(t.ledger@ =~= payload_contributions(p, entropy_millibits));
    t
}

/// The contributions of one tag.
fn score_tag(t: &mut ScoreTable, tag: &str)
    requires
        old(t).wf(),
    ensures
        final(t).wf(),
        final(t).ledger@ == old(t).ledger@ + tag_contributions(tag@),
{
    let tag_chars = crate::text::chars_of(tag);
    let mut tag_lower: Vec<char> = Vec::new();
    let mut k: usize = 0;
    while k < tag_chars.len()
        invariant
            k <= tag_chars@.len(),
            tag_lower@ == crate::condition::lower_chars(tag_chars@.take(k as int)),
        decreases tag_chars.len() - k,
    {
        tag_lower.push(crate::condition::to_lower_char(tag_chars[k]));
        k = k + 1;
        assert(tag_lower@ =~= crate::condition::lower_chars(tag_chars@.take(k as int)));
    }
    assert(tag_chars@.take(k as int) =~= tag_chars@);
    t.add_when(str_chars_contain(&tag_lower, "http"), "http", 200_000, "tag evidence: http");
    t.add_when(str_chars_contain(&tag_lower, "tls") || str_chars_contain(&tag_lower, "ssl"), "tls", 200_000, "tag evidence: tls/ssl");
    t.add_when(str_chars_contain(&tag_lower, "dns"), "dns_or_domain_payload", 200_000, "tag evidence: dns");
    t.add_when(str_chars_contain(&tag_lower, "ssh"), "ssh", 200_000, "tag evidence: ssh");
    t.add_when(str_chars_contain(&tag_lower, "firmware") || str_chars_contain(&tag_lower, "elf"), "firmware_binary", 200_000, "tag evidence: firmware/elf");
    reveal(tag_contributions);
    assert(t.ledger@ =~= old(t).ledger@ + tag_contributions(tag@));
}

/// Scores a payload against the protocol heuristics and its tags.
///
/// `log1p_neighbors` is `ln(1 + neighbor_count)` in millionths and
/// `entropy_millibits` the payload's Shannon entropy in thousandths of a bit,
/// rounded up; `abstain_threshold` is in millionths.
pub fn infer_protocol_candidates(
    payload: &[u8],
    tags: &Vec<String>,
    neighbor_count: usize,
    log1p_neighbors: u64,
    entropy_millibits: u64,
    top_k: usize,
    abstain_threshold: u64,
) -> (r: ProtocolInference)
    ensures
        inference_matches(r, contributions(payload@, tags@.map_values(|t: String| t@), entropy_millibits), log1p_neighbors, top_k, abstain_threshold),
{
    let mut table = score_payload(payload, entropy_millibits);
    let ghost acc = table.ledger@;
    let ghost tv = tags@.map_values(|t: String| t@);
    let mut ti: usize = 0;
    assert(table.ledger@ =~= acc + tags_contributions(tv.take(0)));
    while ti < tags.len()
        invariant
            table.wf(),
            ti <= tags@.len(),
            tv == tags@.map_values(|t: String| t@),
            acc == payload_contributions(payload@, entropy_millibits),
            table.ledger@ == acc + tags_contributions(tv.take(ti as int)),
        decreases tags.len() - ti,
    {
        score_tag(&mut table, tags[ti].as_str());
        proof {
            assert(tv.take(ti + 1).drop_last() =~= tv.take(ti as int));
            assert(table.ledger@ =~= acc + tags_contributions(tv.take(ti + 1)));
        }
        ti = ti + 1;
    }
    assert(tv.take(ti as int) =~= tv);
    finish_inference(table, neighbor_count, log1p_neighbors, top_k, abstain_threshold)
}

/// The entries of a score table that is well formed for `ledger`.
pub open spec fn table_entries_ok(ev: Seq<(String, u64, Vec<String>)>, ledger: Seq<Contribution>) -> bool {
    &&& forall|a: int, b: int| 0 <= a < b < ev.len() ==> ev[a].0@ != ev[b].0@
    &&& forall|k: int| 0 <= k < ev.len() ==> (#[trigger] ev[k]).1 as nat == capped(label_total(ledger, ev[k].0@))
    &&& forall|l: Seq<char>| has_label(ledger, l) <==> exists|k: int| 0 <= k < ev.len() && (#[trigger] ev[k]).0@ == l
}

/// One candidate per table entry, with the boost applied and the score clamped.
fn build_candidates(
    entries: Vec<(String, u64, Vec<String>)>,
    Ghost(ledger): Ghost<Seq<Contribution>>,
    boost: u64,
    boosted: bool,
    neighbor_count: usize,
) -> (r: Vec<ProtocolCandidate>)
    requires
        table_entries_ok(entries@, ledger),
        boost <= MAX_NEIGHBOR_BOOST,
    ensures
        r@.len() == entries@.len(),
        forall|k: int| 0 <= k < r@.len() ==> (#[trigger] r@[k]).protocol@ == entries@[k].0@,
        forall|k: int| 0 <= k < r@.len() ==> scored(#[trigger] r@[k], ledger, boost as nat),
{
    let ghost ev = entries@;
    let mut cands: Vec<ProtocolCandidate> = Vec::new();
    let mut i: usize = 0;
    while i < entries.len()
        invariant
            i <= entries@.len(),
            ev == entries@,
            boost <= MAX_NEIGHBOR_BOOST,
            table_entries_ok(ev, ledger),
            cands@.len() == i,
            forall|k: int| 0 <= k < i ==> (#[trigger] cands@[k]).protocol@ == ev[k].0@,
            forall|k: int| 0 <= k < i ==> scored(#[trigger] cands@[k], ledger, boost as nat),
        decreases entries.len() - i,
    {
        let (name, total, notes) = &entries[i];
        let mut evidence = notes.clone();
        if boosted {
            let mut note = String::from_str("similarity cluster boost from ");
            let count = decimal_string(neighbor_count as u64);
            note.append(count.as_str());
            note.append(" neighbors");
            evidence.push(note);
        }
        let score = if *total > MAX_SCORE as u64 - boost { MAX_SCORE } else { *total + boost };
        proof {
            assert(ev[i as int].1 as nat == capped(label_total(ledger, ev[i as int].0@)));
            assert(has_label(ledger, name@));
        }
        cands.push(ProtocolCandidate { protocol: name.clone(), score, evidence });
        i = i + 1;
    }
    cands
}

/// The candidates sorted by non-increasing score: a permutation of them.
fn sort_candidates(cands: Vec<ProtocolCandidate>) -> (r: Vec<ProtocolCandidate>)
    ensures
        sorted_by_score(r@),
        r@.len() == cands@.len(),
        r@.to_multiset() == cands@.to_multiset(),
{
    broadcast use vstd::seq_lib::group_to_multiset_ensures;
    let ghost cv = cands@;
    let mut rest = cands;
    let mut sorted: Vec<ProtocolCandidate> = Vec::new();
    let mut i: usize = 0;
    assert(sorted@.to_multiset() =~= cv.take(0).to_multiset());
    assert(rest@ =~= cv.skip(0));
    assert(cv.len() == rest.len());
    while rest.len() > 0
        invariant
            i <= cv.len(),
            cv.len() <= usize::MAX,
            rest@ == cv.skip(i as int),
            sorted_by_score(sorted@),
            sorted@.len() == i,
            sorted@.to_multiset() == cv.take(i as int).to_multiset(),
        decreases rest.len(),
    {
        let item = rest.remove(0);
        assert(item == cv[i as int]);
        assert(rest@ =~= cv.skip(i + 1));
        let ghost before = sorted@;
        insert_by_score(&mut sorted, item);
        proof {
            let pos = choose|pos: int| 0 <= pos <= before.len() && sorted@ == before.insert(pos, item);
            crate::text::lemma_insert_to_multiset(before, pos, item);
            assert(cv.take(i + 1) =~= cv.take(i as int).push(item));
            cv.take(i as int).to_multiset_ensures();
            assert(sorted@.to_multiset() =~= cv.take(i + 1).to_multiset());
        }
        i = i + 1;
    }
    assert(cv.take(i as int) =~= cv);
    sorted
}

fn finish_inference(
    table: ScoreTable,
    neighbor_count: usize,
    log1p_neighbors: u64,
    top_k: usize,
    abstain_threshold: u64,
) -> (r: ProtocolInference)
    requires
        table.wf(),
    ensures
        inference_matches(r, table.ledger@, log1p_neighbors, top_k, abstain_threshold),
{
    let ghost ledger = table.ledger@;
    let raw = (log1p_neighbors as u128) * 8 / 100;
    let boost: u64 = if raw > MAX_NEIGHBOR_BOOST as u128 { MAX_NEIGHBOR_BOOST } else { raw as u64 };
    assert(boost as nat == applied_boost(log1p_neighbors));
    let ScoreTable { entries, ledger: _ } = table;
    let ghost ev = entries@;
    assert(table_entries_ok(ev, ledger));
    let cands = build_candidates(entries, Ghost(ledger), boost, raw > 0, neighbor_count);
    let ghost cv = cands@;
    let mut sorted = sort_candidates(cands);
    proof {
        broadcast use vstd::seq_lib::group_to_multiset_ensures;
        assert forall|k: int| 0 <= k < sorted@.len() implies scored(#[trigger] sorted@[k], ledger, boost as nat) by {
            assert(sorted@.contains(sorted@[k]));
            assert(sorted@.to_multiset().count(sorted@[k]) > 0);
            assert(cv.contains(sorted@[k]));
        }
        assert forall|m: int| 0 <= m < cv.len() implies sorted@.contains(#[trigger] cv[m]) by {
            assert(cv.contains(cv[m]));
            assert(cv.to_multiset().count(cv[m]) > 0);
        }
        assert(cv.no_duplicates()) by {
            assert forall|a: int, b: int| 0 <= a < cv.len() && 0 <= b < cv.len() && a != b implies cv[a] != cv[b] by {
                assert(cv[a].protocol@ == ev[a].0@);
                assert(cv[b].protocol@ == ev[b].0@);
            }
        }
        cv.lemma_multiset_has_no_duplicates();
        assert forall|a: int, b: int| 0 <= a < b < sorted@.len() implies sorted@[a].protocol@ != sorted@[b].protocol@ by {
            if sorted@[a].protocol@ == sorted@[b].protocol@ {
                assert(sorted@.contains(sorted@[a]));
                assert(sorted@.to_multiset().count(sorted@[a]) > 0);
                assert(cv.contains(sorted@[a]));
                assert(sorted@.contains(sorted@[b]));
                assert(sorted@.to_multiset().count(sorted@[b]) > 0);
                assert(cv.contains(sorted@[b]));
                let m1 = choose|m: int| 0 <= m < cv.len() && cv[m] == sorted@[a];
                let m2 = choose|m: int| 0 <= m < cv.len() && cv[m] == sorted@[b];
                assert(cv[m1].protocol@ == ev[m1].0@);
                assert(cv[m2].protocol@ == ev[m2].0@);
                assert(m1 == m2);
                crate::text::lemma_dup_count(sorted@, a, b);
                assert(cv.to_multiset().contains(sorted@[a]));
            }
        }
    }
    if sorted.len() == 0 {
        proof {
            assert forall|l: Seq<char>| !has_label(ledger, l) by {
                if has_label(ledger, l) {
                    let k = choose|k: int| 0 <= k < ev.len() && (#[trigger] ev[k]).0@ == l;
                }
            }
        }
        return unknown_inference();
    }
    let keep: usize = if top_k == 0 { 1 } else { top_k };
    let ghost full = sorted@;
    if sorted.len() > keep {
        sorted.truncate(keep);
    }
    assert(sorted@ =~= full.take(sorted@.len() as int));
    assert forall|i: int, j: int| 0 <= i < j < sorted@.len() implies sorted@[i].protocol@ != sorted@[j].protocol@ by {
        assert(sorted@[i] == full[i]);
        assert(sorted@[j] == full[j]);
    }
    let confidence = sorted[0].score;
    let threshold = if abstain_threshold > SCORE_SCALE { SCORE_SCALE } else { abstain_threshold };
    let abstained = confidence < threshold;
    let label = if abstained { String::from_str("unknown") } else { sorted[0].protocol.clone() };
    let r = ProtocolInference { label, confidence, abstained, candidates: sorted };
    proof {
        let rc = r.candidates@;
        assert(has_label(ledger, ev[0].0@));
        assert forall|l: Seq<char>| has_label(ledger, l) && !(exists|i: int| 0 <= i < rc.len() && (#[trigger] rc[i]).protocol@ == l)
            implies rc.len() == keep && final_score(label_total(ledger, l), boost as nat) <= rc.last().score by {
            let k = choose|k: int| 0 <= k < ev.len() && (#[trigger] ev[k]).0@ == l;
            assert(cv[k].protocol@ == l);
            assert(full.contains(cv[k]));
            let j = choose|j: int| 0 <= j < full.len() && full[j] == cv[k];
            if j < rc.len() {
                assert(rc[j] == full[j]);
            }
            assert(scored(full[j], ledger, boost as nat));
            assert(full[rc.len() - 1] == rc.last());
        }
        assert forall|i: int| 0 <= i < rc.len() implies has_label(ledger, (#[trigger] rc[i]).protocol@)
            && rc[i].score as nat == final_score(label_total(ledger, rc[i].protocol@), applied_boost(log1p_neighbors)) by {
            assert(rc[i] == full[i]);
            assert(scored(full[i], ledger, boost as nat));
        }
    }
    r
}

/// The verdict when no heuristic matched: a single `unknown` candidate with
/// score zero, and abstention.
fn unknown_inference() -> (r: ProtocolInference)
    ensures
        r.candidates@.len() == 1,
        r.candidates@[0].protocol@ == "unknown"@,
        r.candidates@[0].score == 0,
        r.confidence == 0,
        r.abstained,
        r.label@ == "unknown"@,
        r.candidates@[0].evidence@.map_values(|s: String| s@) == seq!["no protocol heuristics matched"@],
{
    let mut evidence: Vec<String> = Vec::new();
    evidence.push(String::from_str("no protocol heuristics matched"));
    assert(evidence@.map_values(|s: String| s@) =~= seq!["no protocol heuristics matched"@]);
    let mut candidates: Vec<ProtocolCandidate> = Vec::new();
    candidates.push(ProtocolCandidate { protocol: String::from_str("unknown"), score: 0, evidence });
    ProtocolInference {
        label: String::from_str("unknown"),
        confidence: 0,
        abstained: true,
        candidates,
    }
}

/// A score raised by a boost, at most `MAX_SCORE`.
pub open spec fn bumped(score: u64, boost: nat) -> nat {
    final_score(score as nat, boost)
}

/// The note a cluster boost adds to each candidate's evidence.
pub open spec fn boost_note(neighbor_count: usize) -> Seq<char> {
    "similarity cluster boost from "@ + crate::text::decimal(neighbor_count as nat) + " neighbors"@
}

pub open spec fn evidence_view(e: Vec<String>) -> Seq<Seq<char>> {
    e@.map_values(|s: String| s@)
}

/// `raised` is `old` with every score boosted and the boost note added, one for one.
pub open spec fn boosted_from(raised: Seq<ProtocolCandidate>, old: Seq<ProtocolCandidate>, boost: nat, neighbor_count: usize) -> bool {
    raised.len() == old.len() && forall|k: int| 0 <= k < raised.len() ==> (#[trigger] raised[k]).protocol@ == old[k].protocol@
        && raised[k].score as nat == bumped(old[k].score, boost)
        && evidence_view(raised[k].evidence) == evidence_view(old[k].evidence).push(boost_note(neighbor_count))
}

/// Re-scores a verdict with the boost of its similarity cluster: every
/// candidate's score rises by the boost (at most `MAX_SCORE`) and gains a
/// note, the candidates are re-ranked, and the top one sets the confidence,
/// the abstention and the label. Without neighbors, or with no boost, the
/// verdict stays as it is.
pub fn apply_similarity_neighbor_boost(
    report: &mut ProtocolInference,
    neighbor_count: usize,
    log1p_neighbors: u64,
    abstain_threshold: u64,
)
    ensures
        neighbor_count == 0 || applied_boost(log1p_neighbors) == 0 ==> (final(report).candidates@ == old(report).candidates@
            && final(report).confidence == old(report).confidence && final(report).abstained == old(report).abstained
            && final(report).label@ == old(report).label@),
        neighbor_count > 0 && applied_boost(log1p_neighbors) > 0 ==> {
            &&& final(report).candidates@.len() == old(report).candidates@.len()
            &&& sorted_by_score(final(report).candidates@)
            &&& forall|k: int| 0 <= k < final(report).candidates@.len() ==> exists|m: int| 0 <= m < old(report).candidates@.len()
                && (#[trigger] final(report).candidates@[k]).protocol@ == old(report).candidates@[m].protocol@
                && final(report).candidates@[k].score as nat == bumped(old(report).candidates@[m].score, applied_boost(log1p_neighbors))
            &&& exists|raised: Seq<ProtocolCandidate>| #[trigger] boosted_from(raised, old(report).candidates@, applied_boost(log1p_neighbors), neighbor_count)
                && final(report).candidates@.to_multiset() == raised.to_multiset()
            &&& forall|m: int| 0 <= m < old(report).candidates@.len() ==> final(report).candidates@[0].score as nat
                >= bumped(#[trigger] old(report).candidates@[m].score, applied_boost(log1p_neighbors))
            &&& final(report).candidates@.len() > 0 ==> {
                &&& final(report).confidence == final(report).candidates@[0].score
                &&& final(report).abstained == ((final(report).confidence as nat) < clamped_threshold(abstain_threshold))
                &&& final(report).label@ == (if final(report).abstained { "unknown"@ } else { final(report).candidates@[0].protocol@ })
            }
            &&& final(report).candidates@.len() == 0 ==> final(report).confidence == old(report).confidence
                && final(report).abstained == old(report).abstained && final(report).label@ == old(report).label@
        },
{
    if neighbor_count == 0 {
        return;
    }
    let raw = (log1p_neighbors as u128) * 8 / 100;
    let boost: u64 = if raw > MAX_NEIGHBOR_BOOST as u128 { MAX_NEIGHBOR_BOOST } else { raw as u64 };
    assert(boost as nat == applied_boost(log1p_neighbors));
    if boost == 0 {
        return;
    }
    let ghost old_c = report.candidates@;
    let mut taken: Vec<ProtocolCandidate> = Vec::new();
    std::mem::swap(&mut taken, &mut report.candidates);
    assert(taken@ == old_c);
    let mut raised: Vec<ProtocolCandidate> = Vec::new();
    let mut rest = taken;
    let mut i: usize = 0;
    assert(rest@ =~= old_c.skip(0));
    assert(old_c.len() == rest.len());
    while rest.len() > 0
        invariant
            i <= old_c.len(),
            old_c.len() <= usize::MAX,
            rest@ == old_c.skip(i as int),
            raised@.len() == i,
            boost <= MAX_NEIGHBOR_BOOST,
            forall|k: int| 0 <= k < i ==> (#[trigger] raised@[k]).protocol@ == old_c[k].protocol@
                && raised@[k].score as nat == bumped(old_c[k].score, boost as nat)
                && evidence_view(raised@[k].evidence) == evidence_view(old_c[k].evidence).push(boost_note(neighbor_count)),
        decreases rest.len(),
    {
        let c = rest.remove(0);
        assert(c == old_c[i as int]);
        assert(rest@ =~= old_c.skip(i + 1));
        let ProtocolCandidate { protocol, score, mut evidence } = c;
        let ghost ev0 = evidence_view(evidence);
        let mut note = String::from_str("similarity cluster boost from ");
        let count = crate::text::decimal_string(neighbor_count as u64);
        note.append(count.as_str());
        note.append(" neighbors");
        assert(note@ == boost_note(neighbor_count));
        evidence.push(note);
        assert(evidence_view(evidence) =~= ev0.push(boost_note(neighbor_count)));
        let new_score = if score > MAX_SCORE - boost { MAX_SCORE } else { score + boost };
        raised.push(ProtocolCandidate { protocol, score: new_score, evidence });
        i = i + 1;
    }
    let ghost rv = raised@;
    let sorted = sort_candidates(raised);
    proof {
        broadcast use vstd::seq_lib::group_to_multiset_ensures;
        assert forall|k: int| 0 <= k < sorted@.len() implies exists|m: int| 0 <= m < old_c.len()
            && (#[trigger] sorted@[k]).protocol@ == old_c[m].protocol@
            && sorted@[k].score as nat == bumped(old_c[m].score, boost as nat) by {
            assert(sorted@.contains(sorted@[k]));
            assert(sorted@.to_multiset().count(sorted@[k]) > 0);
            assert(rv.contains(sorted@[k]));
            let m = choose|m: int| 0 <= m < rv.len() && rv[m] == sorted@[k];
        }
        assert(boosted_from(rv, old_c, boost as nat, neighbor_count));
        assert forall|m: int| 0 <= m < old_c.len() implies sorted@[0].score as nat >= bumped(#[trigger] old_c[m].score, boost as nat) by {
            assert(rv.contains(rv[m]));
            assert(rv.to_multiset().count(rv[m]) > 0);
            assert(sorted@.contains(rv[m]));
            let k = choose|k: int| 0 <= k < sorted@.len() && sorted@[k] == rv[m];
            if k > 0 {
                assert(sorted@[0].score >= sorted@[k].score);
            }
        }
    }
    if sorted.len() > 0 {
        let confidence = sorted[0].score;
        let threshold = if abstain_threshold > SCORE_SCALE { SCORE_SCALE } else { abstain_threshold };
        let abstained = confidence < threshold;
        report.confidence = confidence;
        report.abstained = abstained;
        report.label = if abstained { String::from_str("unknown") } else { sorted[0].protocol.clone() };
    }
    report.candidates = sorted;
}

/// Every scoring label is a real protocol name, never `unknown`.
proof fn lemma_tag_labels_known(tags: Seq<Seq<char>>)
    ensures
        no_seven(tags_contributions(tags)),
    decreases tags.len(),
{
    reveal_strlit("unknown");
    reveal_strlit("http");
    reveal_strlit("tls");
    reveal_strlit("dns_or_domain_payload");
    reveal_strlit("ssh");
    reveal_strlit("firmware_binary");
    if tags.len() > 0 {
        lemma_tag_labels_known(tags.drop_last());
        reveal(tag_contributions);
        let prev = tags_contributions(tags.drop_last());
        let last = tag_contributions(tags.last());
        assert(no_seven(last)) by {
            assert forall|i: int| 0 <= i < last.len() implies (#[trigger] last[i]).0.len() != 7 by {}
        }
        lemma_no_seven_concat(prev, last);
    }
}

/// No label of a contribution list has the length of `unknown`.
spec fn no_seven(s: Seq<Contribution>) -> bool {
    forall|i: int| 0 <= i < s.len() ==> (#[trigger] s[i]).0.len() != 7
}

proof fn lemma_no_seven_concat(a: Seq<Contribution>, b: Seq<Contribution>)
    requires
        no_seven(a),
        no_seven(b),
    ensures
        no_seven(a + b),
{
    assert forall|i: int| 0 <= i < (a + b).len() implies (#[trigger] (a + b)[i]).0.len() != 7 by {
        if i < a.len() {
            assert((a + b)[i] == a[i]);
        } else {
            assert((a + b)[i] == b[i - a.len()]);
        }
    }
}

proof fn lemma_no_seven_when(c: bool, l: Seq<char>, amount: nat)
    requires
        l.len() != 7,
    ensures
        no_seven(when(c, l, amount)),
{
}

#[verifier::rlimit(60)]
proof fn lemma_payload_labels_known(p: Seq<u8>, e: u64)
    ensures
        no_seven(payload_contributions(p, e)),
{
    reveal_strlit("http");
    reveal_strlit("tls");
    reveal_strlit("ssh");
    reveal_strlit("smtp");
    reveal_strlit("pop3_or_ftp");
    reveal_strlit("json_application");
    reveal_strlit("firmware_binary");
    reveal_strlit("compressed_binary");
    reveal_strlit("opaque_binary_stream");
    reveal_strlit("shell_command");
    reveal_strlit("dns_or_domain_payload");
    reveal(payload_contributions);
    let w1 = when(is_http(p), "http"@, 850_000);
    let w2 = when(is_tls(p), "tls"@, 900_000);
    let w3 = when(starts_lower(p, "ssh-"@), "ssh"@, 950_000);
    let w4 = when(is_smtp(p), "smtp"@, 780_000);
    let w5 = when(is_pop3_or_ftp(p), "pop3_or_ftp"@, 660_000);
    let w6 = when(is_json(p), "json_application"@, 520_000);
    let w7 = when(has_magic(p, seq![0x7fu8, 0x45u8, 0x4cu8, 0x46u8]), "firmware_binary"@, 980_000);
    let w8 = when(has_magic(p, seq![0x4du8, 0x5au8]), "firmware_binary"@, 850_000);
    let w9 = when(has_magic(p, seq![0x1fu8, 0x8bu8]), "compressed_binary"@, 880_000);
    let w10 = when(has_magic(p, seq![0x50u8, 0x4bu8, 0x03u8, 0x04u8]), "compressed_binary"@, 800_000);
    let w11 = when(has_magic(p, seq![0x27u8, 0x05u8, 0x19u8, 0x56u8]), "firmware_binary"@, 860_000);
    let w12 = when(is_opaque(p, e), "opaque_binary_stream"@, 600_000);
    let w13 = when(is_shell(p), "shell_command"@, 720_000);
    let w14 = when(is_domain(p), "dns_or_domain_payload"@, 440_000);
    lemma_no_seven_when(is_http(p), "http"@, 850_000);
    lemma_no_seven_when(is_tls(p), "tls"@, 900_000);
    lemma_no_seven_when(starts_lower(p, "ssh-"@), "ssh"@, 950_000);
    lemma_no_seven_when(is_smtp(p), "smtp"@, 780_000);
    lemma_no_seven_when(is_pop3_or_ftp(p), "pop3_or_ftp"@, 660_000);
    lemma_no_seven_when(is_json(p), "json_application"@, 520_000);
    lemma_no_seven_when(has_magic(p, seq![0x7fu8, 0x45u8, 0x4cu8, 0x46u8]), "firmware_binary"@, 980_000);
    lemma_no_seven_when(has_magic(p, seq![0x4du8, 0x5au8]), "firmware_binary"@, 850_000);
    lemma_no_seven_when(has_magic(p, seq![0x1fu8, 0x8bu8]), "compressed_binary"@, 880_000);
    lemma_no_seven_when(has_magic(p, seq![0x50u8, 0x4bu8, 0x03u8, 0x04u8]), "compressed_binary"@, 800_000);
    lemma_no_seven_when(has_magic(p, seq![0x27u8, 0x05u8, 0x19u8, 0x56u8]), "firmware_binary"@, 860_000);
    lemma_no_seven_when(is_opaque(p, e), "opaque_binary_stream"@, 600_000);
    lemma_no_seven_when(is_shell(p), "shell_command"@, 720_000);
    lemma_no_seven_when(is_domain(p), "dns_or_domain_payload"@, 440_000);
    lemma_no_seven_concat(w1, w2);
    lemma_no_seven_concat(w1 + w2, w3);
    lemma_no_seven_concat(w1 + w2 + w3, w4);
    lemma_no_seven_concat(w1 + w2 + w3 + w4, w5);
    lemma_no_seven_concat(w1 + w2 + w3 + w4 + w5, w6);
    lemma_no_seven_concat(w1 + w2 + w3 + w4 + w5 + w6, w7);
    lemma_no_seven_concat(w1 + w2 + w3 + w4 + w5 + w6 + w7, w8);
    lemma_no_seven_concat(w1 + w2 + w3 + w4 + w5 + w6 + w7 + w8, w9);
    lemma_no_seven_concat(w1 + w2 + w3 + w4 + w5 + w6 + w7 + w8 + w9, w10);
    lemma_no_seven_concat(w1 + w2 + w3 + w4 + w5 + w6 + w7 + w8 + w9 + w10, w11);
    lemma_no_seven_concat(w1 + w2 + w3 + w4 + w5 + w6 + w7 + w8 + w9 + w10 + w11, w12);
    lemma_no_seven_concat(w1 + w2 + w3 + w4 + w5 + w6 + w7 + w8 + w9 + w10 + w11 + w12, w13);
    lemma_no_seven_concat(w1 + w2 + w3 + w4 + w5 + w6 + w7 + w8 + w9 + w10 + w11 + w12 + w13, w14);
}

proof fn lemma_labels_known(p: Seq<u8>, tags: Seq<Seq<char>>, e: u64)
    ensures
        !has_label(contributions(p, tags, e), "unknown"@),
{
    reveal_strlit("unknown");
    lemma_payload_labels_known(p, e);
    lemma_tag_labels_known(tags);
    let pc = payload_contributions(p, e);
    let tc = tags_contributions(tags);
    lemma_no_seven_concat(pc, tc);
    let c = contributions(p, tags, e);
    if has_label(c, "unknown"@) {
        let i = choose|i: int| 0 <= i < c.len() && c[i].0 == "unknown"@;
        assert(c[i].0.len() != 7);
    }
}

/// Under single-packet inference, a payload for which some heuristic fired
/// gets the label `unknown` exactly when the verdict abstains, which happens
/// exactly when the top score is below the threshold. (When nothing fired the
/// verdict is a synthetic `unknown` candidate and always abstains.)
pub proof fn law_abstain_iff_unknown_iff_below_threshold(
    r: ProtocolInference,
    p: Seq<u8>,
    tags: Seq<Seq<char>>,
    entropy_millibits: u64,
    log1p_neighbors: u64,
    top_k: usize,
    abstain_threshold: u64,
)
    requires
        inference_matches(r, contributions(p, tags, entropy_millibits), log1p_neighbors, top_k, abstain_threshold),
        exists|l: Seq<char>| has_label(contributions(p, tags, entropy_millibits), l),
    ensures
        (r.label@ == "unknown"@) == r.abstained,
        r.abstained == ((r.confidence as nat) < clamped_threshold(abstain_threshold)),
{
    lemma_labels_known(p, tags, entropy_millibits);
    let c = contributions(p, tags, entropy_millibits);
    assert(has_label(c, r.candidates@[0].protocol@));
}

/// More neighbors never lower the confidence: with the same payload, tags
/// and threshold, a larger `ln(1 + neighbor_count)` gives a confidence at
/// least as high.
pub proof fn law_neighbor_boost_monotone(
    r1: ProtocolInference,
    r2: ProtocolInference,
    p: Seq<u8>,
    tags: Seq<Seq<char>>,
    entropy_millibits: u64,
    log1p_a: u64,
    log1p_b: u64,
    top_k: usize,
    abstain_threshold: u64,
)
    requires
        inference_matches(r1, contributions(p, tags, entropy_millibits), log1p_a, top_k, abstain_threshold),
        inference_matches(r2, contributions(p, tags, entropy_millibits), log1p_b, top_k, abstain_threshold),
        log1p_a <= log1p_b,
    ensures
        r1.confidence <= r2.confidence,
{
    let c = contributions(p, tags, entropy_millibits);
    if exists|l: Seq<char>| has_label(c, l) {
        let l = r1.candidates@[0].protocol@;
        assert(has_label(c, l));
        let ba = applied_boost(log1p_a);
        let bb = applied_boost(log1p_b);
        assert((log1p_a as nat) * 8 / 100 <= (log1p_b as nat) * 8 / 100) by (nonlinear_arith)
            requires
                log1p_a <= log1p_b,
        ;
        assert(ba <= bb);
        assert(final_score(label_total(c, l), ba) <= final_score(label_total(c, l), bb));
        if exists|i: int| 0 <= i < r2.candidates@.len() && (#[trigger] r2.candidates@[i]).protocol@ == l {
            let i = choose|i: int| 0 <= i < r2.candidates@.len() && (#[trigger] r2.candidates@[i]).protocol@ == l;
            assert(r2.candidates@[0].score >= r2.candidates@[i].score);
        } else {
            assert(r2.candidates@[0].score >= r2.candidates@.last().score);
        }
    }
}

} // verus!
