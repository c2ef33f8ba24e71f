//! The regimes of the cascade.

use crate::binary64::laws::in_unit_range;
use crate::binary64::{laws, Binary64};
use crate::db::Memory;
use crate::math;
use crate::math::{cosine, cosine_similarity, jaccard, jaccard_set, jaccard_similarity, similarity};
use crate::revision::bounds::{is_proper_content, is_proper_memory};
use crate::revision::bounds;
use crate::revision::IncomingContent;
use crate::text::{byte_len, chars_of, find, to_lower};
use crate::text;
use crate::wordset::{path_parts, path_set, word_set, words};
use vstd::prelude::*;
use vstd::utf8::*;

verus! {

/// A dimension along which incoming content is compared with a memory.
///
/// Next to each answer of a regime stands what the answer may be. A regime that says no
/// more of itself may answer anything.
pub trait Regime: Send + Sync {
    /// May the regime be called so?
    open spec fn may_be_named(&self, name: Seq<char>) -> bool {
        true
    }

    /// May the two have that score along this dimension?
    open spec fn may_score(&self, incoming: IncomingContent, existing: Memory, score: Binary64) -> bool {
        true
    }

    /// May that be the score from which the regime fires?
    open spec fn may_fire_from(&self, threshold: Binary64) -> bool {
        true
    }

    /// May the score count so much in the total?
    open spec fn may_weigh(&self, weight: Binary64) -> bool {
        true
    }

    /// May that be the regime to look at where this one does not fire?
    open spec fn may_lead_to(&self, next: Option<Seq<char>>) -> bool {
        true
    }

    fn name(&self) -> (r: &str)
        ensures
            self.may_be_named(r@),
    ;

    /// How alike the two are along this dimension.
    fn evaluate(&self, incoming: &IncomingContent, existing: &Memory) -> (r: Binary64)
        ensures
            self.may_score(*incoming, *existing, r),
    ;

    /// The score from which the regime fires.
    fn threshold(&self) -> (r: Binary64)
        ensures
            self.may_fire_from(r),
    ;

    /// How much the score counts in the total.
    fn weight(&self) -> (r: Binary64)
        ensures
            self.may_weigh(r),
    ;

    /// The regime to look at where this one does not fire.
    fn next_on_fail(&self) -> (r: Option<&str>)
        ensures
            self.may_lead_to(
                match r {
                    Some(name) => Some(name@),
                    None => None,
                },
            ),
    ;
}

/// 0.3: the share of the lengths in the content score.
pub const LENGTH_SHARE: u64 = 0x3fd3_3333_3333_3333;

/// 0.7: the share of the words in the content score.
pub const WORD_SHARE: u64 = 0x3fe6_6666_6666_6666;

/// 0.45: the share of the topics in the semantic score.
pub const TOPIC_SHARE: u64 = 0x3fdc_cccc_cccc_cccd;

/// 0.35: the share of the entities in the semantic score.
pub const ENTITY_SHARE: u64 = 0x3fd6_6666_6666_6666;

/// 0.20: the share of the importances in the semantic score.
pub const IMPORTANCE_SHARE: u64 = 0x3fc9_9999_9999_999a;

/// 0.65: the shares of the semantic score but for the entities.
pub const SHARES_BUT_ENTITIES: u64 = 0x3fe4_cccc_cccc_cccd;

/// 0.5: the score where nothing can be compared, and an even share.
pub const HALF: u64 = 0x3fe0_0000_0000_0000;

/// 0.3: a signal above this agrees.
pub const AGREEING_ABOVE: u64 = 0x3fd3_3333_3333_3333;

/// The number at the given bit pattern.
pub open spec fn number(bits: u64) -> Binary64 {
    Binary64 { bits }
}

/// Moved into the range from zero to one.
pub open spec fn clamped(x: Binary64) -> Binary64 {
    x.spec_clamp(Binary64::spec_zero(), Binary64::spec_one())
}

fn clamp_unit(x: Binary64) -> (r: Binary64)
    ensures
        r == clamped(x),
{
    x.clamp(Binary64::zero(), Binary64::one())
}

// ---- Content ----

/// The shorter of two lengths over the longer one.
pub open spec fn length_ratio(a: nat, b: nat) -> Binary64 {
    if a < b {
        Binary64::spec_of(a).spec_over(Binary64::spec_of(b))
    } else {
        Binary64::spec_of(b).spec_over(Binary64::spec_of(a))
    }
}

/// How alike two texts are in length and in words.
pub open spec fn content_score(a: Seq<char>, b: Seq<char>) -> Binary64 {
    if a.len() == 0 || b.len() == 0 {
        Binary64::spec_zero()
    } else {
        number(LENGTH_SHARE).spec_times(length_ratio(byte_len(a), byte_len(b))).spec_plus(
            number(WORD_SHARE).spec_times(jaccard(words(a), words(b))),
        )
    }
}

/// Structural similarity: word overlap and length ratio.
#[derive(Debug)]
pub struct ContentRegime {
    pub threshold: Binary64,
    pub weight: Binary64,
}

impl ContentRegime {
    /// Threshold 0.85, weight 1.
    pub open spec fn spec_default() -> ContentRegime {
        ContentRegime { threshold: number(0x3feb_3333_3333_3333), weight: Binary64::spec_one() }
    }
}

impl Default for ContentRegime {
    fn default() -> (r: ContentRegime)
        ensures
            r == ContentRegime::spec_default(),
    {
        ContentRegime { threshold: Binary64::from_bits(0x3feb_3333_3333_3333), weight: Binary64::one() }
    }
}

impl Regime for ContentRegime {
    open spec fn may_be_named(&self, name: Seq<char>) -> bool {
        name == "content"@
    }

    open spec fn may_score(&self, incoming: IncomingContent, existing: Memory, score: Binary64) -> bool {
        &&& score == content_score(incoming.content@, existing.content@)
        &&& is_proper_content(incoming) && is_proper_memory(existing) ==> in_unit_range(score)
    }

    open spec fn may_fire_from(&self, threshold: Binary64) -> bool {
        threshold == self.threshold
    }

    open spec fn may_weigh(&self, weight: Binary64) -> bool {
        weight == self.weight
    }

    open spec fn may_lead_to(&self, next: Option<Seq<char>>) -> bool {
        next matches Some(name) && name == "semantic"@
    }

    fn name(&self) -> &str {
        "content"
    }

    fn evaluate(&self, incoming: &IncomingContent, existing: &Memory) -> Binary64 {
        let a: &str = incoming.content.as_str();
        let b: &str = existing.content.as_str();
        if a.is_empty() || b.is_empty() {
            return Binary64::zero();
        }
        let la: usize = a.len();
        let lb: usize = b.len();
        let ratio: Binary64 = if la < lb {
            Binary64::of(la).over(Binary64::of(lb))
        } else {
            Binary64::of(lb).over(Binary64::of(la))
        };
        let shared: Binary64 = jaccard_set(&word_set(a), &word_set(b));
        proof {
            if is_proper_content(*incoming) && is_proper_memory(*existing) {
                bounds::texts_have_bytes(a@);
                bounds::texts_have_bytes(b@);
                bounds::content_is_in_unit_range(la as nat, lb as nat, shared);
            }
        }
        Binary64::from_bits(LENGTH_SHARE).times(ratio).plus(
            Binary64::from_bits(WORD_SHARE).times(shared),
        )
    }

    fn threshold(&self) -> Binary64 {
        self.threshold
    }

    fn weight(&self) -> Binary64 {
        self.weight
    }

    fn next_on_fail(&self) -> Option<&str> {
        Some("semantic")
    }
}

// ---- Semantic ----

/// What the difference of two importances leaves of one.
pub open spec fn importance_agreement(a: Binary64, b: Binary64) -> Binary64 {
    Binary64::spec_one().spec_minus(a.spec_minus(b).spec_abs())
}

/// How alike two are in topics, entities and importance. Where neither has entities,
/// the other two signals take up their share.
pub open spec fn semantic_score(incoming: IncomingContent, existing: Memory) -> Binary64 {
    let t: Binary64 = number(TOPIC_SHARE).spec_times(similarity(incoming.topics@, existing.topics@));
    let i: Binary64 = number(IMPORTANCE_SHARE).spec_times(
        importance_agreement(incoming.importance, existing.importance),
    );
    if incoming.entities@.len() == 0 && existing.entities@.len() == 0 {
        t.spec_plus(i).spec_over(number(SHARES_BUT_ENTITIES))
    } else {
        let e: Binary64 = number(ENTITY_SHARE).spec_times(
            similarity(incoming.entities@, existing.entities@),
        );
        clamped(t.spec_plus(e).spec_plus(i))
    }
}

fn agreement(a: Binary64, b: Binary64) -> (r: Binary64)
    ensures
        r == importance_agreement(a, b),
{
    Binary64::one().minus(a.minus(b).abs())
}

/// Topic and entity overlap, and importance.
#[derive(Debug)]
pub struct SemanticRegime {
    pub threshold: Binary64,
    pub weight: Binary64,
}

impl SemanticRegime {
    /// Threshold 0.55, weight 1.
    pub open spec fn spec_default() -> SemanticRegime {
        SemanticRegime { threshold: number(0x3fe1_9999_9999_999a), weight: Binary64::spec_one() }
    }
}

impl Default for SemanticRegime {
    fn default() -> (r: SemanticRegime)
        ensures
            r == SemanticRegime::spec_default(),
    {
        SemanticRegime { threshold: Binary64::from_bits(0x3fe1_9999_9999_999a), weight: Binary64::one() }
    }
}

impl Regime for SemanticRegime {
    open spec fn may_be_named(&self, name: Seq<char>) -> bool {
        name == "semantic"@
    }

    open spec fn may_score(&self, incoming: IncomingContent, existing: Memory, score: Binary64) -> bool {
        &&& score == semantic_score(incoming, existing)
        &&& is_proper_content(incoming) && is_proper_memory(existing) ==> in_unit_range(score)
    }

    open spec fn may_fire_from(&self, threshold: Binary64) -> bool {
        threshold == self.threshold
    }

    open spec fn may_weigh(&self, weight: Binary64) -> bool {
        weight == self.weight
    }

    open spec fn may_lead_to(&self, next: Option<Seq<char>>) -> bool {
        next matches Some(name) && name == "trait"@
    }

    fn name(&self) -> &str {
        "semantic"
    }

    fn evaluate(&self, incoming: &IncomingContent, existing: &Memory) -> Binary64 {
        let topics: Binary64 = jaccard_similarity(&incoming.topics, &existing.topics);
        let agreed: Binary64 = agreement(incoming.importance, existing.importance);
        let t: Binary64 = Binary64::from_bits(TOPIC_SHARE).times(topics);
        let i: Binary64 = Binary64::from_bits(IMPORTANCE_SHARE).times(agreed);
        proof {
            if is_proper_content(*incoming) && is_proper_memory(*existing) {
                bounds::agreement_is_in_unit_range(incoming.importance, existing.importance);
                bounds::semantic_is_in_unit_range(topics, agreed);
            }
        }
        if incoming.entities.len() == 0 && existing.entities.len() == 0 {
            t.plus(i).over(Binary64::from_bits(SHARES_BUT_ENTITIES))
        } else {
            let entities: Binary64 = jaccard_similarity(&incoming.entities, &existing.entities);
            let e: Binary64 = Binary64::from_bits(ENTITY_SHARE).times(entities);
            proof {
                if is_proper_content(*incoming) && is_proper_memory(*existing) {
                    bounds::semantic_with_entities_is_in_unit_range(topics, entities, agreed);
                }
            }
            clamp_unit(t.plus(e).plus(i))
        }
    }

    fn threshold(&self) -> Binary64 {
        self.threshold
    }

    fn weight(&self) -> Binary64 {
        self.weight
    }

    fn next_on_fail(&self) -> Option<&str> {
        Some("trait")
    }
}

// ---- Trait ----

/// How far two trait vectors agree; a half where there is nothing to compare.
pub open spec fn trait_score(a: Seq<Binary64>, b: Seq<Binary64>) -> Binary64 {
    if a.len() == 0 || b.len() == 0 {
        number(HALF)
    } else {
        clamped(cosine(a, b))
    }
}

fn trait_agreement(a: &Vec<Binary64>, b: &Vec<Binary64>) -> (r: Binary64)
    ensures
        r == trait_score(a@, b@),
        math::within_one(a@) && math::within_one(b@) ==> in_unit_range(r),
{
    proof {
        assert(in_unit_range(number(HALF)));
        if math::within_one(a@) && math::within_one(b@) {
            math::cosine_is_a_number(a@, b@);
            laws::clamp_reaches_unit_range(cosine(a@, b@));
        }
    }
    if a.len() == 0 || b.len() == 0 {
        Binary64::from_bits(HALF)
    } else {
        clamp_unit(cosine_similarity(a, b))
    }
}

/// Consensus of the trait vectors.
#[derive(Debug)]
pub struct TraitRegime {
    pub threshold: Binary64,
    pub weight: Binary64,
}

impl TraitRegime {
    /// Threshold 0.40, weight 1.
    pub open spec fn spec_default() -> TraitRegime {
        TraitRegime { threshold: number(0x3fd9_9999_9999_999a), weight: Binary64::spec_one() }
    }
}

impl Default for TraitRegime {
    fn default() -> (r: TraitRegime)
        ensures
            r == TraitRegime::spec_default(),
    {
        TraitRegime { threshold: Binary64::from_bits(0x3fd9_9999_9999_999a), weight: Binary64::one() }
    }
}

impl Regime for TraitRegime {
    open spec fn may_be_named(&self, name: Seq<char>) -> bool {
        name == "trait"@
    }

    open spec fn may_score(&self, incoming: IncomingContent, existing: Memory, score: Binary64) -> bool {
        &&& score == trait_score(incoming.traits@, existing.traits@)
        &&& is_proper_content(incoming) && is_proper_memory(existing) ==> in_unit_range(score)
    }

    open spec fn may_fire_from(&self, threshold: Binary64) -> bool {
        threshold == self.threshold
    }

    open spec fn may_weigh(&self, weight: Binary64) -> bool {
        weight == self.weight
    }

    open spec fn may_lead_to(&self, next: Option<Seq<char>>) -> bool {
        next matches Some(name) && name == "temporal"@
    }

    fn name(&self) -> &str {
        "trait"
    }

    fn evaluate(&self, incoming: &IncomingContent, existing: &Memory) -> Binary64 {
        trait_agreement(&incoming.traits, &existing.traits)
    }

    fn threshold(&self) -> Binary64 {
        self.threshold
    }

    fn weight(&self) -> Binary64 {
        self.weight
    }

    fn next_on_fail(&self) -> Option<&str> {
        Some("temporal")
    }
}

// ---- Temporal ----

/// The number of characters with which both texts begin.
pub open spec fn shared_prefix(a: Seq<char>, b: Seq<char>) -> nat
    decreases a.len(),
{
    if a.len() > 0 && b.len() > 0 && a[0] == b[0] {
        1 + shared_prefix(a.skip(1), b.skip(1))
    } else {
        0
    }
}

/// How much of two timestamps is the same, from the year down; a half where one is
/// missing.
pub open spec fn temporal_score(created_at: Option<String>, existing: Seq<char>) -> Binary64 {
    match created_at {
        None => number(HALF),
        Some(stamp) => {
            let a: Seq<char> = stamp@;
            if a.len() == 0 || existing.len() == 0 {
                number(HALF)
            } else {
                let longest: nat = if byte_len(a) < byte_len(existing) {
                    byte_len(existing)
                } else {
                    byte_len(a)
                };
                if longest == 0 {
                    number(HALF)
                } else {
                    clamped(
                        Binary64::spec_of(shared_prefix(a, existing)).spec_over(Binary64::spec_of(longest)),
                    )
                }
            }
        },
    }
}

fn count_shared(a: &str, b: &str) -> (r: usize)
    ensures
        r == shared_prefix(a@, b@),
{
    let x: Vec<char> = chars_of(a);
    let y: Vec<char> = chars_of(b);
    let mut n: usize = 0;
    assert(x@.skip(0) =~= x@);
    assert(y@.skip(0) =~= y@);
    while n < x.len() && n < y.len() && x[n] == y[n]
        invariant
            n <= x@.len(),
            n <= y@.len(),
            shared_prefix(x@, y@) == n + shared_prefix(x@.skip(n as int), y@.skip(n as int)),
        decreases x@.len() - n,
    {
        assert(x@.skip(n as int).skip(1) =~= x@.skip(n + 1));
        assert(y@.skip(n as int).skip(1) =~= y@.skip(n + 1));
        n = n + 1;
    }
    n
}

/// Nearness in time.
#[derive(Debug)]
pub struct TemporalRegime {
    pub threshold: Binary64,
    pub weight: Binary64,
}

impl TemporalRegime {
    /// Threshold 0.50, weight 0.6.
    pub open spec fn spec_default() -> TemporalRegime {
        TemporalRegime { threshold: number(HALF), weight: number(0x3fe3_3333_3333_3333) }
    }
}

impl Default for TemporalRegime {
    fn default() -> (r: TemporalRegime)
        ensures
            r == TemporalRegime::spec_default(),
    {
        TemporalRegime {
            threshold: Binary64::from_bits(HALF),
            weight: Binary64::from_bits(0x3fe3_3333_3333_3333),
        }
    }
}

impl Regime for TemporalRegime {
    open spec fn may_be_named(&self, name: Seq<char>) -> bool {
        name == "temporal"@
    }

    open spec fn may_score(&self, incoming: IncomingContent, existing: Memory, score: Binary64) -> bool {
        &&& score == temporal_score(incoming.created_at, existing.created_at@)
        &&& is_proper_content(incoming) && is_proper_memory(existing) ==> in_unit_range(score)
    }

    open spec fn may_fire_from(&self, threshold: Binary64) -> bool {
        threshold == self.threshold
    }

    open spec fn may_weigh(&self, weight: Binary64) -> bool {
        weight == self.weight
    }

    open spec fn may_lead_to(&self, next: Option<Seq<char>>) -> bool {
        next matches Some(name) && name == "provenance"@
    }

    fn name(&self) -> &str {
        "temporal"
    }

    fn evaluate(&self, incoming: &IncomingContent, existing: &Memory) -> Binary64 {
        assert(in_unit_range(number(HALF)));
        match &incoming.created_at {
            None => Binary64::from_bits(HALF),
            Some(stamp) => {
                let a: &str = stamp.as_str();
                let b: &str = existing.created_at.as_str();
                if a.is_empty() || b.is_empty() {
                    return Binary64::from_bits(HALF);
                }
                let la: usize = a.len();
                let lb: usize = b.len();
                let longest: usize = if la < lb {
                    lb
                } else {
                    la
                };
                if longest == 0 {
                    Binary64::from_bits(HALF)
                } else {
                    let shared: usize = count_shared(a, b);
                    proof {
                        bounds::share_of_count_is_in_unit_range(shared as nat, longest as nat);
                    }
                    clamp_unit(Binary64::of(shared).over(Binary64::of(longest)))
                }
            },
        }
    }

    fn threshold(&self) -> Binary64 {
        self.threshold
    }

    fn weight(&self) -> Binary64 {
        self.weight
    }

    fn next_on_fail(&self) -> Option<&str> {
        Some("provenance")
    }
}

// ---- Provenance ----

/// How alike two sources are, whatever the case of their letters: one where they are
/// the same, else by the parts of their paths.
pub open spec fn provenance_score(a: Seq<char>, b: Seq<char>) -> Binary64 {
    let x: Seq<char> = text::lowercase(a);
    let y: Seq<char> = text::lowercase(b);
    if x == y {
        Binary64::spec_one()
    } else {
        jaccard(path_parts(x), path_parts(y))
    }
}

/// Similarity of the sources.
#[derive(Debug)]
pub struct ProvenanceRegime {
    pub threshold: Binary64,
    pub weight: Binary64,
}

impl ProvenanceRegime {
    /// Threshold 0.80, weight 0.8.
    pub open spec fn spec_default() -> ProvenanceRegime {
        ProvenanceRegime { threshold: number(0x3fe9_9999_9999_999a), weight: number(0x3fe9_9999_9999_999a) }
    }
}

impl Default for ProvenanceRegime {
    fn default() -> (r: ProvenanceRegime)
        ensures
            r == ProvenanceRegime::spec_default(),
    {
        ProvenanceRegime {
            threshold: Binary64::from_bits(0x3fe9_9999_9999_999a),
            weight: Binary64::from_bits(0x3fe9_9999_9999_999a),
        }
    }
}

impl Regime for ProvenanceRegime {
    open spec fn may_be_named(&self, name: Seq<char>) -> bool {
        name == "provenance"@
    }

    open spec fn may_score(&self, incoming: IncomingContent, existing: Memory, score: Binary64) -> bool {
        &&& score == provenance_score(incoming.source@, existing.source@)
        &&& in_unit_range(score)
    }

    open spec fn may_fire_from(&self, threshold: Binary64) -> bool {
        threshold == self.threshold
    }

    open spec fn may_weigh(&self, weight: Binary64) -> bool {
        weight == self.weight
    }

    open spec fn may_lead_to(&self, next: Option<Seq<char>>) -> bool {
        next matches Some(name) && name == "narrative"@
    }

    fn name(&self) -> &str {
        "provenance"
    }

    fn evaluate(&self, incoming: &IncomingContent, existing: &Memory) -> Binary64 {
        let a: String = to_lower(incoming.source.as_str());
        let b: String = to_lower(existing.source.as_str());
        if a == b {
            Binary64::one()
        } else {
            jaccard_set(&path_set(a.as_str()), &path_set(b.as_str()))
        }
    }

    fn threshold(&self) -> Binary64 {
        self.threshold
    }

    fn weight(&self) -> Binary64 {
        self.weight
    }

    fn next_on_fail(&self) -> Option<&str> {
        Some("narrative")
    }
}

// ---- Narrative ----

/// How alike two summaries are in words.
pub open spec fn narrative_score(a: Seq<char>, b: Seq<char>) -> Binary64 {
    if a.len() == 0 || b.len() == 0 {
        Binary64::spec_zero()
    } else {
        jaccard(words(a), words(b))
    }
}

/// Similarity of the summaries.
#[derive(Debug)]
pub struct NarrativeRegime {
    pub threshold: Binary64,
    pub weight: Binary64,
}

impl NarrativeRegime {
    /// Threshold 0.50, weight 0.7.
    pub open spec fn spec_default() -> NarrativeRegime {
        NarrativeRegime { threshold: number(HALF), weight: number(0x3fe6_6666_6666_6666) }
    }
}

impl Default for NarrativeRegime {
    fn default() -> (r: NarrativeRegime)
        ensures
            r == NarrativeRegime::spec_default(),
    {
        NarrativeRegime {
            threshold: Binary64::from_bits(HALF),
            weight: Binary64::from_bits(0x3fe6_6666_6666_6666),
        }
    }
}

impl Regime for NarrativeRegime {
    open spec fn may_be_named(&self, name: Seq<char>) -> bool {
        name == "narrative"@
    }

    open spec fn may_score(&self, incoming: IncomingContent, existing: Memory, score: Binary64) -> bool {
        &&& score == narrative_score(incoming.summary@, existing.summary@)
        &&& in_unit_range(score)
    }

    open spec fn may_fire_from(&self, threshold: Binary64) -> bool {
        threshold == self.threshold
    }

    open spec fn may_weigh(&self, weight: Binary64) -> bool {
        weight == self.weight
    }

    open spec fn may_lead_to(&self, next: Option<Seq<char>>) -> bool {
        next matches Some(name) && name == "knowledge"@
    }

    fn name(&self) -> &str {
        "narrative"
    }

    fn evaluate(&self, incoming: &IncomingContent, existing: &Memory) -> Binary64 {
        let a: &str = incoming.summary.as_str();
        let b: &str = existing.summary.as_str();
        if a.is_empty() || b.is_empty() {
            Binary64::zero()
        } else {
            jaccard_set(&word_set(a), &word_set(b))
        }
    }

    fn threshold(&self) -> Binary64 {
        self.threshold
    }

    fn weight(&self) -> Binary64 {
        self.weight
    }

    fn next_on_fail(&self) -> Option<&str> {
        Some("knowledge")
    }
}

// ---- Knowledge ----

/// How many of the first `n` entities the text mentions. Entities are looked for in
/// lower case.
pub open spec fn mentions(entities: Seq<String>, content: Seq<char>, n: nat) -> nat
    decreases n,
{
    if n == 0 {
        0
    } else {
        mentions(entities, content, (n - 1) as nat) + (if text::contains(
            content,
            text::lowercase(entities[n - 1]@),
        ) {
            1nat
        } else {
            0nat
        })
    }
}

/// How much of what one knows the other knows: half by the entities they share, half by
/// the entities of each that the other's content mentions. Where neither has entities,
/// by the words of their contents.
pub open spec fn knowledge_score(incoming: IncomingContent, existing: Memory) -> Binary64 {
    let total: nat = incoming.entities@.len() + existing.entities@.len();
    if total == 0 {
        jaccard(words(incoming.content@), words(existing.content@))
    } else {
        let found: nat = mentions(
            existing.entities@,
            text::lowercase(incoming.content@),
            existing.entities@.len(),
        ) + mentions(incoming.entities@, text::lowercase(existing.content@), incoming.entities@.len());
        clamped(
            number(HALF).spec_times(similarity(incoming.entities@, existing.entities@)).spec_plus(
                number(HALF).spec_times(Binary64::spec_of(found).spec_over(Binary64::spec_of(total))),
            ),
        )
    }
}

fn count_mentions(entities: &Vec<String>, content: &String) -> (r: usize)
    ensures
        r == mentions(entities@, content@, entities@.len()),
        r <= entities@.len(),
{
    let chars: Vec<char> = chars_of(content.as_str());
    let n: usize = entities.len();
    let mut r: usize = 0;
    let mut i: usize = 0;
    while i < n
        invariant
            i <= n == entities@.len(),
            chars@ == content@,
            r == mentions(entities@, content@, i as nat),
            r <= i,
        decreases n - i,
    {
        let entity: String = to_lower(entities[i].as_str());
        if find(&chars, &chars_of(entity.as_str())).is_some() {
            r = r + 1;
        }
        i = i + 1;
    }
    r
}

/// Overlap of what is known: shared entities and mentions.
#[derive(Debug)]
pub struct KnowledgeRegime {
    pub threshold: Binary64,
    pub weight: Binary64,
}

impl KnowledgeRegime {
    /// Threshold 0.45, weight 0.8.
    pub open spec fn spec_default() -> KnowledgeRegime {
        KnowledgeRegime { threshold: number(0x3fdc_cccc_cccc_cccd), weight: number(0x3fe9_9999_9999_999a) }
    }
}

impl Default for KnowledgeRegime {
    fn default() -> (r: KnowledgeRegime)
        ensures
            r == KnowledgeRegime::spec_default(),
    {
        KnowledgeRegime {
            threshold: Binary64::from_bits(0x3fdc_cccc_cccc_cccd),
            weight: Binary64::from_bits(0x3fe9_9999_9999_999a),
        }
    }
}

impl Regime for KnowledgeRegime {
    open spec fn may_be_named(&self, name: Seq<char>) -> bool {
        name == "knowledge"@
    }

    open spec fn may_score(&self, incoming: IncomingContent, existing: Memory, score: Binary64) -> bool {
        &&& score == knowledge_score(incoming, existing)
        &&& is_proper_content(incoming) && is_proper_memory(existing) ==> in_unit_range(score)
    }

    open spec fn may_fire_from(&self, threshold: Binary64) -> bool {
        threshold == self.threshold
    }

    open spec fn may_weigh(&self, weight: Binary64) -> bool {
        weight == self.weight
    }

    open spec fn may_lead_to(&self, next: Option<Seq<char>>) -> bool {
        next matches Some(name) && name == "structural"@
    }

    fn name(&self) -> &str {
        "knowledge"
    }

    fn evaluate(&self, incoming: &IncomingContent, existing: &Memory) -> Binary64 {
        let total: u128 = incoming.entities.len() as u128 + existing.entities.len() as u128;
        if total == 0 {
            return jaccard_set(
                &word_set(incoming.content.as_str()),
                &word_set(existing.content.as_str()),
            );
        }
        proof {
            laws::large_powers();
        }
        let shared: Binary64 = jaccard_similarity(&incoming.entities, &existing.entities);
        let il: String = to_lower(incoming.content.as_str());
        let el: String = to_lower(existing.content.as_str());
        let found: u128 = count_mentions(&existing.entities, &il) as u128 + count_mentions(
            &incoming.entities,
            &el,
        ) as u128;
        proof {
            bounds::knowledge_is_in_unit_range(shared, found as nat, total as nat);
        }
        let cross: Binary64 = Binary64::of_wide(found).over(Binary64::of_wide(total));
        clamp_unit(
            Binary64::from_bits(HALF).times(shared).plus(Binary64::from_bits(HALF).times(cross)),
        )
    }

    fn threshold(&self) -> Binary64 {
        self.threshold
    }

    fn weight(&self) -> Binary64 {
        self.weight
    }

    fn next_on_fail(&self) -> Option<&str> {
        Some("structural")
    }
}

// ---- Structural ----

/// The first position at or after `from` of a text, whatever the case of its letters.
pub open spec fn position_of(list: Seq<String>, word: Seq<char>, from: nat) -> Option<nat>
    decreases list.len() - from,
{
    if from >= list.len() {
        None
    } else if text::lowercase(list[from as int]@) == text::lowercase(word) {
        Some(from)
    } else {
        position_of(list, word, from + 1)
    }
}

/// How much the topic at a position counts: one over its number.
pub open spec fn position_weight(i: nat) -> Binary64 {
    Binary64::spec_one().spec_over(Binary64::spec_of(i).spec_plus(Binary64::spec_one()))
}

/// What the first `n` incoming topics earn: each that the memory has, its weight, less
/// for the distance of their positions.
pub open spec fn alignment(incoming: Seq<String>, existing: Seq<String>, n: nat) -> Binary64
    decreases n,
{
    if n == 0 {
        Binary64::spec_zero()
    } else {
        let sum: Binary64 = alignment(incoming, existing, (n - 1) as nat);
        let longest: nat = if incoming.len() < existing.len() {
            existing.len()
        } else {
            incoming.len()
        };
        match position_of(existing, incoming[n - 1]@, 0) {
            Some(j) => {
                let distance: Binary64 = Binary64::spec_of((n - 1) as nat).spec_minus(
                    Binary64::spec_of(j),
                ).spec_abs().spec_over(Binary64::spec_of(longest));
                sum.spec_plus(
                    position_weight((n - 1) as nat).spec_times(Binary64::spec_one().spec_minus(distance)),
                )
            },
            None => sum,
        }
    }
}

/// What `n` topics can earn at most.
pub open spec fn weight_sum(n: nat) -> Binary64
    decreases n,
{
    if n == 0 {
        Binary64::signed(true, 0)
    } else {
        weight_sum((n - 1) as nat).spec_plus(position_weight((n - 1) as nat))
    }
}

/// How far the topics of two come in the same order.
pub open spec fn structural_score(incoming: Seq<String>, existing: Seq<String>) -> Binary64 {
    if incoming.len() == 0 || existing.len() == 0 {
        Binary64::spec_zero()
    } else if Binary64::spec_zero().spec_lt(weight_sum(incoming.len())) {
        clamped(alignment(incoming, existing, incoming.len()).spec_over(weight_sum(incoming.len())))
    } else {
        Binary64::spec_zero()
    }
}

fn find_topic(list: &Vec<String>, word: &String) -> (r: Option<usize>)
    ensures
        match r {
            Some(j) => position_of(list@, word@, 0) == Some(j as nat),
            None => position_of(list@, word@, 0) is None,
        },
{
    let lower: String = to_lower(word.as_str());
    let mut i: usize = 0;
    while i < list.len()
        invariant
            i <= list@.len(),
            lower@ == text::lowercase(word@),
            position_of(list@, word@, 0) == position_of(list@, word@, i as nat),
        decreases list@.len() - i,
    {
        if to_lower(list[i].as_str()) == lower {
            return Some(i);
        }
        i = i + 1;
    }
    None
}

fn weight_at(i: usize) -> (r: Binary64)
    ensures
        r == position_weight(i as nat),
{
    Binary64::one().over(Binary64::of(i).plus(Binary64::one()))
}

/// Alignment of the topics.
#[derive(Debug)]
pub struct StructuralRegime {
    pub threshold: Binary64,
    pub weight: Binary64,
}

impl StructuralRegime {
    /// Threshold 0.45, weight 0.7.
    pub open spec fn spec_default() -> StructuralRegime {
        StructuralRegime { threshold: number(0x3fdc_cccc_cccc_cccd), weight: number(0x3fe6_6666_6666_6666) }
    }
}

impl Default for StructuralRegime {
    fn default() -> (r: StructuralRegime)
        ensures
            r == StructuralRegime::spec_default(),
    {
        StructuralRegime {
            threshold: Binary64::from_bits(0x3fdc_cccc_cccc_cccd),
            weight: Binary64::from_bits(0x3fe6_6666_6666_6666),
        }
    }
}

impl Regime for StructuralRegime {
    open spec fn may_be_named(&self, name: Seq<char>) -> bool {
        name == "structural"@
    }

    open spec fn may_score(&self, incoming: IncomingContent, existing: Memory, score: Binary64) -> bool {
        &&& score == structural_score(incoming.topics@, existing.topics@)
        &&& is_proper_content(incoming) && is_proper_memory(existing) ==> in_unit_range(score)
    }

    open spec fn may_fire_from(&self, threshold: Binary64) -> bool {
        threshold == self.threshold
    }

    open spec fn may_weigh(&self, weight: Binary64) -> bool {
        weight == self.weight
    }

    open spec fn may_lead_to(&self, next: Option<Seq<char>>) -> bool {
        next matches Some(name) && name == "consensus"@
    }

    fn name(&self) -> &str {
        "structural"
    }

    fn evaluate(&self, incoming: &IncomingContent, existing: &Memory) -> Binary64 {
        let n: usize = incoming.topics.len();
        let m: usize = existing.topics.len();
        if n == 0 || m == 0 {
            return Binary64::zero();
        }
        let longest: usize = if n < m {
            m
        } else {
            n
        };
        let mut earned: Binary64 = Binary64::zero();
        let mut norm: Binary64 = Binary64::negative_zero();
        let mut i: usize = 0;
        while i < n
            invariant
                i <= n == incoming.topics@.len(),
                m == existing.topics@.len(),
                longest == (if n < m {
                    m
                } else {
                    n
                }),
                earned == alignment(incoming.topics@, existing.topics@, i as nat),
                norm == weight_sum(i as nat),
            decreases n - i,
        {
            let weight: Binary64 = weight_at(i);
            if let Some(j) = find_topic(&existing.topics, &incoming.topics[i]) {
                let distance: Binary64 = Binary64::of(i).minus(Binary64::of(j)).abs().over(
                    Binary64::of(longest),
                );
                earned = earned.plus(weight.times(Binary64::one().minus(distance)));
            }
            norm = norm.plus(weight);
            i = i + 1;
        }
        if Binary64::zero().lt(norm) {
            proof {
                if is_proper_content(*incoming) && is_proper_memory(*existing) {
                    bounds::structural_is_in_unit_range(incoming.topics@, existing.topics@);
                }
            }
            clamp_unit(earned.over(norm))
        } else {
            Binary64::zero()
        }
    }

    fn threshold(&self) -> Binary64 {
        self.threshold
    }

    fn weight(&self) -> Binary64 {
        self.weight
    }

    fn next_on_fail(&self) -> Option<&str> {
        Some("consensus")
    }
}

// ---- Consensus ----

/// The signals whose agreement is looked at: topics, entities, traits, importance.
pub open spec fn signals(incoming: IncomingContent, existing: Memory) -> Seq<Binary64> {
    seq![
        similarity(incoming.topics@, existing.topics@),
        similarity(incoming.entities@, existing.entities@),
        trait_score(incoming.traits@, existing.traits@),
        importance_agreement(incoming.importance, existing.importance),
    ]
}

/// How many of the first `n` signals agree.
pub open spec fn agreeing(list: Seq<Binary64>, n: nat) -> nat
    decreases n,
{
    if n == 0 {
        0
    } else {
        agreeing(list, (n - 1) as nat) + (if number(AGREEING_ABOVE).spec_lt(list[n - 1]) {
            1nat
        } else {
            0nat
        })
    }
}

/// The sum of the first `n` signals.
pub open spec fn signal_sum(list: Seq<Binary64>, n: nat) -> Binary64
    decreases n,
{
    if n == 0 {
        Binary64::signed(true, 0)
    } else {
        signal_sum(list, (n - 1) as nat).spec_plus(list[n - 1])
    }
}

/// The share of the signals that agree, times their average.
pub open spec fn consensus_of(list: Seq<Binary64>) -> Binary64 {
    let n: nat = list.len();
    clamped(
        Binary64::spec_of(agreeing(list, n)).spec_over(Binary64::spec_of(n)).spec_times(
            signal_sum(list, n).spec_over(Binary64::spec_of(n)),
        ),
    )
}

/// Agreement of several signals.
#[derive(Debug)]
pub struct ConsensusRegime {
    pub threshold: Binary64,
    pub weight: Binary64,
}

impl ConsensusRegime {
    /// Threshold 0.40, weight 0.5.
    pub open spec fn spec_default() -> ConsensusRegime {
        ConsensusRegime { threshold: number(0x3fd9_9999_9999_999a), weight: number(HALF) }
    }
}

impl Default for ConsensusRegime {
    fn default() -> (r: ConsensusRegime)
        ensures
            r == ConsensusRegime::spec_default(),
    {
        ConsensusRegime {
            threshold: Binary64::from_bits(0x3fd9_9999_9999_999a),
            weight: Binary64::from_bits(HALF),
        }
    }
}

impl Regime for ConsensusRegime {
    open spec fn may_be_named(&self, name: Seq<char>) -> bool {
        name == "consensus"@
    }

    open spec fn may_score(&self, incoming: IncomingContent, existing: Memory, score: Binary64) -> bool {
        &&& score == consensus_of(signals(incoming, existing))
        &&& is_proper_content(incoming) && is_proper_memory(existing) ==> in_unit_range(score)
    }

    open spec fn may_fire_from(&self, threshold: Binary64) -> bool {
        threshold == self.threshold
    }

    open spec fn may_weigh(&self, weight: Binary64) -> bool {
        weight == self.weight
    }

    open spec fn may_lead_to(&self, next: Option<Seq<char>>) -> bool {
        next is None
    }

    fn name(&self) -> &str {
        "consensus"
    }

    fn evaluate(&self, incoming: &IncomingContent, existing: &Memory) -> Binary64 {
        let list: Vec<Binary64> = vec![
            jaccard_similarity(&incoming.topics, &existing.topics),
            jaccard_similarity(&incoming.entities, &existing.entities),
            trait_agreement(&incoming.traits, &existing.traits),
            agreement(incoming.importance, existing.importance),
        ];
        assert(list@ =~= signals(*incoming, *existing));
        proof {
            if is_proper_content(*incoming) && is_proper_memory(*existing) {
                bounds::agreement_is_in_unit_range(incoming.importance, existing.importance);
                bounds::consensus_is_in_unit_range(list@);
            }
        }
        let n: usize = list.len();
        let mut count: usize = 0;
        let mut sum: Binary64 = Binary64::negative_zero();
        let mut i: usize = 0;
        while i < n
            invariant
                i <= n == list@.len(),
                count == agreeing(list@, i as nat),
                count <= i,
                sum == signal_sum(list@, i as nat),
            decreases n - i,
        {
            if Binary64::from_bits(AGREEING_ABOVE).lt(list[i]) {
                count = count + 1;
            }
            sum = sum.plus(list[i]);
            i = i + 1;
        }
        clamp_unit(
            Binary64::of(count).over(Binary64::of(n)).times(sum.over(Binary64::of(n))),
        )
    }

    fn threshold(&self) -> Binary64 {
        self.threshold
    }

    fn weight(&self) -> Binary64 {
        self.weight
    }

    fn next_on_fail(&self) -> Option<&str> {
        None
    }
}

// ---- Laws ----

/// Content is compared by 0.3 of the shorter length over the longer one, in bytes, and 0.7
/// of the words that both have.
pub proof fn content_is_compared_by_lengths_and_words(a: Seq<char>, b: Seq<char>, short: nat, long: nat)
    requires
        bounds::fits(a),
        bounds::fits(b),
        short <= long,
        encode_utf8(a).len() == short && encode_utf8(b).len() == long || encode_utf8(a).len() == long
            && encode_utf8(b).len() == short,
    ensures
        a.len() == 0 || b.len() == 0 ==> content_score(a, b) == (Binary64 { bits: 0 }),
        a.len() > 0 && b.len() > 0 ==> content_score(a, b) == (Binary64 {
            bits: 0x3fd3_3333_3333_3333,
        }).spec_times(Binary64::spec_of(short).spec_over(Binary64::spec_of(long))).spec_plus(
            (Binary64 { bits: 0x3fe6_6666_6666_6666 }).spec_times(jaccard(words(a), words(b))),
        ),
{
}

/// Meaning is compared by 0.45 of the topics, 0.35 of the entities and 0.20 of how near the
/// importances are. Where neither has entities, the other two are taken over 0.65.
pub proof fn meaning_is_compared_by_topics_entities_and_importance(incoming: IncomingContent, existing: Memory)
    ensures
        ({
            let topics: Binary64 = (Binary64 { bits: 0x3fdc_cccc_cccc_cccd }).spec_times(
                similarity(incoming.topics@, existing.topics@),
            );
            let entities: Binary64 = (Binary64 { bits: 0x3fd6_6666_6666_6666 }).spec_times(
                similarity(incoming.entities@, existing.entities@),
            );
            let near: Binary64 = (Binary64 { bits: 0x3ff0_0000_0000_0000 }).spec_minus(
                incoming.importance.spec_minus(existing.importance).spec_abs(),
            );
            let importance: Binary64 = (Binary64 { bits: 0x3fc9_9999_9999_999a }).spec_times(near);
            let all: Binary64 = topics.spec_plus(entities).spec_plus(importance);
            &&& incoming.entities@.len() + existing.entities@.len() == 0 ==> semantic_score(incoming, existing)
                == topics.spec_plus(importance).spec_over(Binary64 { bits: 0x3fe4_cccc_cccc_cccd })
            &&& incoming.entities@.len() + existing.entities@.len() > 0 ==> is_within_one(
                semantic_score(incoming, existing),
                all,
            )
        }),
{
}

/// Is `r` the number moved between zero and one? A NaN stays as it is.
pub open spec fn is_within_one(r: Binary64, x: Binary64) -> bool {
    &&& x.is_nan() ==> r == x
    &&& x.spec_lt(Binary64 { bits: 0 }) ==> r == (Binary64 { bits: 0 })
    &&& (Binary64 { bits: 0x3ff0_0000_0000_0000 }).spec_lt(x) ==> r == (Binary64 { bits: 0x3ff0_0000_0000_0000 })
    &&& in_unit_range(x) ==> r == x
}

/// Traits are compared by their cosine, moved between zero and one; a half where one side
/// has none.
pub proof fn traits_are_compared_by_their_cosine(a: Seq<Binary64>, b: Seq<Binary64>)
    ensures
        a.len() == 0 || b.len() == 0 ==> trait_score(a, b) == (Binary64 { bits: 0x3fe0_0000_0000_0000 }),
        a.len() > 0 && b.len() > 0 ==> is_within_one(trait_score(a, b), cosine(a, b)),
{
}

/// What is shared at the beginning is the same in both texts, and there is no more of it.
pub proof fn shared_prefix_is_the_longest(a: Seq<char>, b: Seq<char>)
    ensures
        shared_prefix(a, b) <= a.len(),
        shared_prefix(a, b) <= b.len(),
        forall|i: int| 0 <= i < shared_prefix(a, b) ==> a[i] == b[i],
        shared_prefix(a, b) < a.len() && shared_prefix(a, b) < b.len() ==> a[shared_prefix(a, b) as int]
            != b[shared_prefix(a, b) as int],
    decreases a.len(),
{
    if a.len() > 0 && b.len() > 0 && a[0] == b[0] {
        let x: Seq<char> = a.skip(1);
        let y: Seq<char> = b.skip(1);
        shared_prefix_is_the_longest(x, y);
        let n: nat = shared_prefix(a, b);
        assert forall|i: int| 0 <= i < n implies a[i] == b[i] by {
            if i > 0 {
                assert(x[i - 1] == y[i - 1]);
            }
        }
        if n < a.len() && n < b.len() {
            assert(x[n - 1] == a[n as int] && y[n - 1] == b[n as int]);
        }
    }
}

/// Times are compared by how many characters they share at the beginning, over the longer
/// length in bytes; a half where one is missing.
pub proof fn times_are_compared_by_what_they_share(stamp: String, existing: Seq<char>, n: int, long: nat)
    requires
        bounds::fits(stamp@),
        bounds::fits(existing),
        0 <= n <= stamp@.len(),
        n <= existing.len(),
        forall|i: int| 0 <= i < n ==> stamp@[i] == existing[i],
        n < stamp@.len() && n < existing.len() ==> stamp@[n] != existing[n],
        long == encode_utf8(stamp@).len() || long == encode_utf8(existing).len(),
        long >= encode_utf8(stamp@).len(),
        long >= encode_utf8(existing).len(),
    ensures
        temporal_score(None, existing) == (Binary64 { bits: 0x3fe0_0000_0000_0000 }),
        stamp@.len() == 0 || existing.len() == 0 ==> temporal_score(Some(stamp), existing) == (Binary64 {
            bits: 0x3fe0_0000_0000_0000,
        }),
        stamp@.len() > 0 && existing.len() > 0 ==> is_within_one(
            temporal_score(Some(stamp), existing),
            Binary64::spec_of(n as nat).spec_over(Binary64::spec_of(long)),
        ),
{
    let s: int = shared_prefix(stamp@, existing) as int;
    shared_prefix_is_the_longest(stamp@, existing);
    if s < n {
        assert(stamp@[s] == existing[s]);
    } else if n < s {
        assert(stamp@[n] == existing[n]);
    }
    if stamp@.len() > 0 {
        bounds::texts_have_bytes(stamp@);
    }
}

/// Sources that are the same in lower case score one, and others by the parts of their paths
/// that they share.
pub proof fn sources_are_compared_by_their_parts(a: Seq<char>, b: Seq<char>)
    ensures
        text::lowercase(a) == text::lowercase(b) ==> provenance_score(a, b) == (Binary64 {
            bits: 0x3ff0_0000_0000_0000,
        }),
        text::lowercase(a) != text::lowercase(b) ==> provenance_score(a, b) == jaccard(
            path_parts(text::lowercase(a)),
            path_parts(text::lowercase(b)),
        ),
{
}

/// Summaries are compared by the words that both have; without a summary there is nothing
/// alike.
pub proof fn summaries_are_compared_by_their_words(a: Seq<char>, b: Seq<char>)
    ensures
        a.len() == 0 || b.len() == 0 ==> narrative_score(a, b) == (Binary64 { bits: 0 }),
        a.len() > 0 && b.len() > 0 ==> narrative_score(a, b) == jaccard(words(a), words(b)),
{
}

/// The mentions of entities are the positions of those that stand in the text in lower case.
pub proof fn mentions_are_counted(entities: Seq<String>, content: Seq<char>, n: nat)
    ensures
        mentions(entities, content, n) == math::those_below(
            n,
            |i: int| text::contains(content, text::lowercase(entities[i]@)),
        ).len(),
        mentions(entities, content, n) <= n,
    decreases n,
{
    let p = |i: int| text::contains(content, text::lowercase(entities[i]@));
    if n > 0 {
        mentions_are_counted(entities, content, (n - 1) as nat);
        math::one_more_below((n - 1) as nat, p);
    } else {
        math::one_more_below(0, p);
    }
}

/// Knowledge is compared half by the entities that both have, and half by the share of all
/// entities that the other's content mentions; without entities by the words of the
/// contents.
pub proof fn knowledge_is_compared_by_entities_and_mentions(incoming: IncomingContent, existing: Memory)
    ensures
        ({
            let total: nat = incoming.entities@.len() + existing.entities@.len();
            let in_incoming: nat = math::those_below(
                existing.entities@.len(),
                |i: int|
                    text::contains(
                        text::lowercase(incoming.content@),
                        text::lowercase(existing.entities@[i]@),
                    ),
            ).len();
            let in_existing: nat = math::those_below(
                incoming.entities@.len(),
                |i: int|
                    text::contains(
                        text::lowercase(existing.content@),
                        text::lowercase(incoming.entities@[i]@),
                    ),
            ).len();
            let half: Binary64 = Binary64 { bits: 0x3fe0_0000_0000_0000 };
            &&& total == 0 ==> knowledge_score(incoming, existing) == jaccard(
                words(incoming.content@),
                words(existing.content@),
            )
            &&& total > 0 ==> is_within_one(
                knowledge_score(incoming, existing),
                half.spec_times(similarity(incoming.entities@, existing.entities@)).spec_plus(
                    half.spec_times(
                        Binary64::spec_of(in_incoming + in_existing).spec_over(Binary64::spec_of(total)),
                    ),
                ),
            )
        }),
{
    mentions_are_counted(existing.entities@, text::lowercase(incoming.content@), existing.entities@.len());
    mentions_are_counted(incoming.entities@, text::lowercase(existing.content@), incoming.entities@.len());
}

/// The position of a topic is the first that holds it, whatever the case of its letters.
pub proof fn position_is_the_first(list: Seq<String>, word: Seq<char>, from: nat)
    ensures
        match position_of(list, word, from) {
            Some(j) => {
                &&& from <= j < list.len()
                &&& text::lowercase(list[j as int]@) == text::lowercase(word)
                &&& forall|k: int| from <= k < j ==> text::lowercase((#[trigger] list[k])@) != text::lowercase(word)
            },
            None => forall|k: int|
                from <= k < list.len() ==> text::lowercase((#[trigger] list[k])@) != text::lowercase(word),
        },
    decreases list.len() - from,
{
    if from < list.len() && text::lowercase(list[from as int]@) != text::lowercase(word) {
        position_is_the_first(list, word, from + 1);
    }
}

/// What the topic at a position counts: one over its number.
pub open spec fn share_of_position(i: int) -> Binary64 {
    (Binary64 { bits: 0x3ff0_0000_0000_0000 }).spec_over(
        Binary64::spec_of(i as nat).spec_plus(Binary64 { bits: 0x3ff0_0000_0000_0000 }),
    )
}

/// What the topic at position `i` earns that stands at `j` in the memory.
pub open spec fn earned_at(i: int, j: int, long: nat) -> Binary64 {
    share_of_position(i).spec_times(
        (Binary64 { bits: 0x3ff0_0000_0000_0000 }).spec_minus(
            Binary64::spec_of(i as nat).spec_minus(Binary64::spec_of(j as nat)).spec_abs().spec_over(
                Binary64::spec_of(long),
            ),
        ),
    )
}

/// Do the sums go through the incoming topics, one by one, and grow by what each earns that
/// the memory has too?
pub open spec fn are_alignment_sums(sums: Seq<Binary64>, incoming: Seq<String>, existing: Seq<String>, long: nat) -> bool {
    &&& sums.len() == incoming.len() + 1
    &&& sums[0] == (Binary64 { bits: 0 })
    &&& forall|i: int|
        0 <= i < incoming.len() ==> match position_of(existing, incoming[i]@, 0) {
            Some(j) => #[trigger] sums[i + 1] == sums[i].spec_plus(earned_at(i, j as int, long)),
            None => sums[i + 1] == sums[i],
        }
}

/// Structure is compared by what the topics earn, over what they can earn at most.
pub proof fn structure_is_compared_by_the_order_of_topics(incoming: Seq<String>, existing: Seq<String>, long: nat)
    requires
        long == incoming.len() || long == existing.len(),
        long >= incoming.len(),
        long >= existing.len(),
    ensures
        incoming.len() == 0 || existing.len() == 0 ==> structural_score(incoming, existing) == (Binary64 {
            bits: 0,
        }),
        ({
            let shares: Seq<Binary64> = Seq::new(incoming.len(), |i: int| share_of_position(i));
            incoming.len() > 0 && existing.len() > 0 ==> exists|sums: Seq<Binary64>, most: Seq<Binary64>|
                {
                    &&& #[trigger] are_alignment_sums(sums, incoming, existing, long)
                    &&& #[trigger] laws::are_running_sums(most, Binary64 { bits: 0x8000_0000_0000_0000 }, shares)
                    &&& (if (Binary64 { bits: 0 }).spec_lt(most.last()) {
                        is_within_one(structural_score(incoming, existing), sums.last().spec_over(most.last()))
                    } else {
                        structural_score(incoming, existing) == (Binary64 { bits: 0 })
                    })
                }
        }),
{
    let n: nat = incoming.len();
    let shares: Seq<Binary64> = Seq::new(n, |i: int| share_of_position(i));
    let sums: Seq<Binary64> = Seq::new(n + 1, |i: int| alignment(incoming, existing, i as nat));
    let most: Seq<Binary64> = Seq::new(n + 1, |i: int| weight_sum(i as nat));
    assert forall|i: int| 0 <= i < n implies #[trigger] most[i + 1] == most[i].spec_plus(shares[i]) by {}
    assert forall|i: int| 0 <= i < n implies match position_of(existing, incoming[i]@, 0) {
        Some(j) => #[trigger] sums[i + 1] == sums[i].spec_plus(earned_at(i, j as int, long)),
        None => sums[i + 1] == sums[i],
    } by {}
    assert(are_alignment_sums(sums, incoming, existing, long));
    assert(laws::are_running_sums(most, Binary64 { bits: 0x8000_0000_0000_0000 }, shares));
}

proof fn agreeing_are_counted(list: Seq<Binary64>, n: nat)
    ensures
        agreeing(list, n) == math::those_below(
            n,
            |i: int| (Binary64 { bits: 0x3fd3_3333_3333_3333 }).spec_lt(list[i]),
        ).len(),
    decreases n,
{
    let p = |i: int| (Binary64 { bits: 0x3fd3_3333_3333_3333 }).spec_lt(list[i]);
    if n > 0 {
        agreeing_are_counted(list, (n - 1) as nat);
        math::one_more_below((n - 1) as nat, p);
    } else {
        math::one_more_below(0, p);
    }
}

/// Consensus is the share of the four signals that lie above 0.3, times their mean.
pub proof fn consensus_is_the_agreement_of_four_signals(incoming: IncomingContent, existing: Memory)
    ensures
        ({
            let four: Seq<Binary64> = seq![
                similarity(incoming.topics@, existing.topics@),
                similarity(incoming.entities@, existing.entities@),
                trait_score(incoming.traits@, existing.traits@),
                (Binary64 { bits: 0x3ff0_0000_0000_0000 }).spec_minus(
                    incoming.importance.spec_minus(existing.importance).spec_abs(),
                ),
            ];
            let count: nat = math::those_below(
                4,
                |i: int| (Binary64 { bits: 0x3fd3_3333_3333_3333 }).spec_lt(four[i]),
            ).len();
            exists|sums: Seq<Binary64>|
                {
                    &&& #[trigger] laws::are_running_sums(sums, Binary64 { bits: 0x8000_0000_0000_0000 }, four)
                    &&& is_within_one(
                        consensus_of(signals(incoming, existing)),
                        Binary64::spec_of(count).spec_over(Binary64::spec_of(4)).spec_times(
                            sums.last().spec_over(Binary64::spec_of(4)),
                        ),
                    )
                }
        }),
{
    let four: Seq<Binary64> = signals(incoming, existing);
    let sums: Seq<Binary64> = Seq::new(5, |i: int| signal_sum(four, i as nat));
    assert forall|i: int| 0 <= i < 4 implies #[trigger] sums[i + 1] == sums[i].spec_plus(four[i]) by {}
    assert(laws::are_running_sums(sums, Binary64 { bits: 0x8000_0000_0000_0000 }, four));
    agreeing_are_counted(four, 4);
}

/// A content regime answers with its name, its own threshold and weight, and the content score of
/// what it is asked about.
pub proof fn the_content_regime_answers_for_itself(
    regime: ContentRegime,
    incoming: IncomingContent,
    existing: Memory,
    name: Seq<char>,
    x: Binary64,
    next: Option<Seq<char>>,
)
    ensures
        regime.may_be_named(name) <==> name == "content"@,
        regime.may_score(incoming, existing, x) ==> x == content_score(incoming.content@, existing.content@),
        regime.may_fire_from(x) <==> x == regime.threshold,
        regime.may_weigh(x) <==> x == regime.weight,
        regime.may_lead_to(next) ==> next == Some("semantic"@),
{
}

/// A semantic regime answers with its name, its own threshold and weight, and the semantic score of
/// what it is asked about.
pub proof fn the_semantic_regime_answers_for_itself(
    regime: SemanticRegime,
    incoming: IncomingContent,
    existing: Memory,
    name: Seq<char>,
    x: Binary64,
    next: Option<Seq<char>>,
)
    ensures
        regime.may_be_named(name) <==> name == "semantic"@,
        regime.may_score(incoming, existing, x) ==> x == semantic_score(incoming, existing),
        regime.may_fire_from(x) <==> x == regime.threshold,
        regime.may_weigh(x) <==> x == regime.weight,
        regime.may_lead_to(next) ==> next == Some("trait"@),
{
}

/// A trait regime answers with its name, its own threshold and weight, and the trait score of
/// what it is asked about.
pub proof fn the_trait_regime_answers_for_itself(
    regime: TraitRegime,
    incoming: IncomingContent,
    existing: Memory,
    name: Seq<char>,
    x: Binary64,
    next: Option<Seq<char>>,
)
    ensures
        regime.may_be_named(name) <==> name == "trait"@,
        regime.may_score(incoming, existing, x) ==> x == trait_score(incoming.traits@, existing.traits@),
        regime.may_fire_from(x) <==> x == regime.threshold,
        regime.may_weigh(x) <==> x == regime.weight,
        regime.may_lead_to(next) ==> next == Some("temporal"@),
{
}

/// A temporal regime answers with its name, its own threshold and weight, and the temporal score of
/// what it is asked about.
pub proof fn the_temporal_regime_answers_for_itself(
    regime: TemporalRegime,
    incoming: IncomingContent,
    existing: Memory,
    name: Seq<char>,
    x: Binary64,
    next: Option<Seq<char>>,
)
    ensures
        regime.may_be_named(name) <==> name == "temporal"@,
        regime.may_score(incoming, existing, x) ==> x == temporal_score(incoming.created_at, existing.created_at@),
        regime.may_fire_from(x) <==> x == regime.threshold,
        regime.may_weigh(x) <==> x == regime.weight,
        regime.may_lead_to(next) ==> next == Some("provenance"@),
{
}

/// A provenance regime answers with its name, its own threshold and weight, and the provenance score of
/// what it is asked about.
pub proof fn the_provenance_regime_answers_for_itself(
    regime: ProvenanceRegime,
    incoming: IncomingContent,
    existing: Memory,
    name: Seq<char>,
    x: Binary64,
    next: Option<Seq<char>>,
)
    ensures
        regime.may_be_named(name) <==> name == "provenance"@,
        regime.may_score(incoming, existing, x) ==> x == provenance_score(incoming.source@, existing.source@),
        regime.may_fire_from(x) <==> x == regime.threshold,
        regime.may_weigh(x) <==> x == regime.weight,
        regime.may_lead_to(next) ==> next == Some("narrative"@),
{
}

/// A narrative regime answers with its name, its own threshold and weight, and the narrative score of
/// what it is asked about.
pub proof fn the_narrative_regime_answers_for_itself(
    regime: NarrativeRegime,
    incoming: IncomingContent,
    existing: Memory,
    name: Seq<char>,
    x: Binary64,
    next: Option<Seq<char>>,
)
    ensures
        regime.may_be_named(name) <==> name == "narrative"@,
        regime.may_score(incoming, existing, x) ==> x == narrative_score(incoming.summary@, existing.summary@),
        regime.may_fire_from(x) <==> x == regime.threshold,
        regime.may_weigh(x) <==> x == regime.weight,
        regime.may_lead_to(next) ==> next == Some("knowledge"@),
{
}

/// A knowledge regime answers with its name, its own threshold and weight, and the knowledge score of
/// what it is asked about.
pub proof fn the_knowledge_regime_answers_for_itself(
    regime: KnowledgeRegime,
    incoming: IncomingContent,
    existing: Memory,
    name: Seq<char>,
    x: Binary64,
    next: Option<Seq<char>>,
)
    ensures
        regime.may_be_named(name) <==> name == "knowledge"@,
        regime.may_score(incoming, existing, x) ==> x == knowledge_score(incoming, existing),
        regime.may_fire_from(x) <==> x == regime.threshold,
        regime.may_weigh(x) <==> x == regime.weight,
        regime.may_lead_to(next) ==> next == Some("structural"@),
{
}

/// A structural regime answers with its name, its own threshold and weight, and the structural score of
/// what it is asked about.
pub proof fn the_structural_regime_answers_for_itself(
    regime: StructuralRegime,
    incoming: IncomingContent,
    existing: Memory,
    name: Seq<char>,
    x: Binary64,
    next: Option<Seq<char>>,
)
    ensures
        regime.may_be_named(name) <==> name == "structural"@,
        regime.may_score(incoming, existing, x) ==> x == structural_score(incoming.topics@, existing.topics@),
        regime.may_fire_from(x) <==> x == regime.threshold,
        regime.may_weigh(x) <==> x == regime.weight,
        regime.may_lead_to(next) ==> next == Some("consensus"@),
{
}

/// A consensus regime answers with its name, its own threshold and weight, and the consensus score of
/// what it is asked about.
pub proof fn the_consensus_regime_answers_for_itself(
    regime: ConsensusRegime,
    incoming: IncomingContent,
    existing: Memory,
    name: Seq<char>,
    x: Binary64,
    next: Option<Seq<char>>,
)
    ensures
        regime.may_be_named(name) <==> name == "consensus"@,
        regime.may_score(incoming, existing, x) ==> x == consensus_of(signals(incoming, existing)),
        regime.may_fire_from(x) <==> x == regime.threshold,
        regime.may_weigh(x) <==> x == regime.weight,
        regime.may_lead_to(next) ==> next is None,
{
}

} // verus!
