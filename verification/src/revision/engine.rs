//! The cascade: regimes in order, and the memory that content matches best.

use crate::binary64::laws::in_unit_range;
use crate::binary64::{Binary64, HIDDEN};
use crate::db::Memory;
use crate::revision::bounds::{is_proper_content, is_proper_memory};
use crate::revision::regimes::{
    consensus_of, content_score, knowledge_score, narrative_score, provenance_score, semantic_score, signals,
    structural_score, temporal_score, trait_score,
};
use crate::revision::regimes::{
    ConsensusRegime, ContentRegime, KnowledgeRegime, NarrativeRegime, ProvenanceRegime, Regime, SemanticRegime,
    StructuralRegime, TemporalRegime, TraitRegime,
};
use crate::revision::verdict::{
    every_regime_is_a_dimension, judge, judged, names_differ, reading_models, score_table,
    the_first_to_reach_its_threshold_fires, total, total_is_in_unit_range, weighted_sum, weights,
};
use crate::revision::verdict::{entries, Reading, ReadingModel, RevisionModel, RevisionResult};
use crate::revision::{Classification, FlightStatus, IncomingContent};
use vstd::prelude::*;

verus! {

/// May the reading be what the regime says of incoming content and a memory?
pub open spec fn may_say<R: Regime + ?Sized>(
    regime: &R,
    incoming: IncomingContent,
    existing: Memory,
    reading: ReadingModel,
) -> bool {
    &&& regime.may_be_named(reading.name)
    &&& regime.may_score(incoming, existing, reading.score)
    &&& regime.may_fire_from(reading.threshold)
    &&& regime.may_weigh(reading.weight)
}

/// May `row` be what the regimes, in their order, say of incoming content and a memory?
pub open spec fn may_read(
    regimes: Seq<Box<dyn Regime>>,
    incoming: IncomingContent,
    existing: Memory,
    row: Seq<ReadingModel>,
) -> bool {
    &&& row.len() == regimes.len()
    &&& forall|i: int|
        0 <= i < regimes.len() ==> may_say(&*regimes[i], incoming, existing, #[trigger] row[i])
}

/// Is there at most one thing that the regime may say of incoming content and a memory?
pub open spec fn is_decided<R: Regime + ?Sized>(
    regime: &R,
    incoming: IncomingContent,
    existing: Memory,
) -> bool {
    forall|x: ReadingModel, y: ReadingModel|
        #[trigger] may_say(regime, incoming, existing, x) && #[trigger] may_say(regime, incoming, existing, y)
            ==> x == y
}

/// Is there for each regime at most one thing that it may say of incoming content and a
/// memory?
pub open spec fn all_decided(
    regimes: Seq<Box<dyn Regime>>,
    incoming: IncomingContent,
    existing: Memory,
) -> bool {
    forall|i: int| 0 <= i < regimes.len() ==> is_decided(&*#[trigger] regimes[i], incoming, existing)
}

/// What decided regimes say of incoming content and a memory.
pub open spec fn decided_row(
    regimes: Seq<Box<dyn Regime>>,
    incoming: IncomingContent,
    existing: Memory,
) -> Seq<ReadingModel> {
    Seq::new(
        regimes.len(),
        |i: int| choose|r: ReadingModel| may_say(&*regimes[i], incoming, existing, r),
    )
}

/// What decided regimes say of incoming content and each memory.
pub open spec fn decided_rows(
    regimes: Seq<Box<dyn Regime>>,
    incoming: IncomingContent,
    existing: Seq<Memory>,
) -> Seq<Seq<ReadingModel>> {
    existing.map_values(|m: Memory| decided_row(regimes, incoming, m))
}

/// Does the regime keep its weight between zero and one, and its scores of proper content
/// and memories too?
pub open spec fn keeps_to_unit_range<R: Regime + ?Sized>(regime: &R) -> bool {
    &&& forall|w: Binary64| #[trigger] regime.may_weigh(w) ==> in_unit_range(w)
    &&& forall|incoming: IncomingContent, existing: Memory, s: Binary64|
        #[trigger] regime.may_score(incoming, existing, s) && is_proper_content(incoming) && is_proper_memory(
            existing,
        ) ==> in_unit_range(s)
}

/// Do all regimes keep to the range from zero to one?
pub open spec fn all_proper(regimes: Seq<Box<dyn Regime>>) -> bool {
    &&& regimes.len() <= 2 * HIDDEN
    &&& forall|i: int| 0 <= i < regimes.len() ==> keeps_to_unit_range(&*#[trigger] regimes[i])
}

/// May two regimes answer the same?
pub open spec fn are_alike<A: Regime + ?Sized, B: Regime + ?Sized>(a: &A, b: &B) -> bool {
    &&& forall|name: Seq<char>| #[trigger] a.may_be_named(name) == b.may_be_named(name)
    &&& forall|incoming: IncomingContent, existing: Memory, score: Binary64|
        #[trigger] a.may_score(incoming, existing, score) == b.may_score(incoming, existing, score)
    &&& forall|threshold: Binary64| #[trigger] a.may_fire_from(threshold) == b.may_fire_from(threshold)
    &&& forall|weight: Binary64| #[trigger] a.may_weigh(weight) == b.may_weigh(weight)
    &&& forall|next: Option<Seq<char>>| #[trigger] a.may_lead_to(next) == b.may_lead_to(next)
}

/// The number of core regimes.
pub const CORE_REGIMES: usize = 9;

/// Are the first nine regimes the core ones, in their order?
#[verifier::opaque]
pub open spec fn begins_with_core(regimes: Seq<Box<dyn Regime>>) -> bool {
    &&& regimes.len() >= CORE_REGIMES
    &&& are_alike(&*regimes[0], &ContentRegime::spec_default())
    &&& are_alike(&*regimes[1], &SemanticRegime::spec_default())
    &&& are_alike(&*regimes[2], &TraitRegime::spec_default())
    &&& are_alike(&*regimes[3], &TemporalRegime::spec_default())
    &&& are_alike(&*regimes[4], &ProvenanceRegime::spec_default())
    &&& are_alike(&*regimes[5], &NarrativeRegime::spec_default())
    &&& are_alike(&*regimes[6], &KnowledgeRegime::spec_default())
    &&& are_alike(&*regimes[7], &StructuralRegime::spec_default())
    &&& are_alike(&*regimes[8], &ConsensusRegime::spec_default())
}

/// Are the regimes the nine core ones, in their order?
pub open spec fn are_core(regimes: Seq<Box<dyn Regime>>) -> bool {
    &&& regimes.len() == CORE_REGIMES
    &&& begins_with_core(regimes)
}

/// What the nine core regimes say of incoming content and a memory.
pub open spec fn core_row(incoming: IncomingContent, existing: Memory) -> Seq<ReadingModel> {
    seq![
        ReadingModel {
            name: "content"@,
            score: content_score(incoming.content@, existing.content@),
            threshold: ContentRegime::spec_default().threshold,
            weight: ContentRegime::spec_default().weight,
        },
        ReadingModel {
            name: "semantic"@,
            score: semantic_score(incoming, existing),
            threshold: SemanticRegime::spec_default().threshold,
            weight: SemanticRegime::spec_default().weight,
        },
        ReadingModel {
            name: "trait"@,
            score: trait_score(incoming.traits@, existing.traits@),
            threshold: TraitRegime::spec_default().threshold,
            weight: TraitRegime::spec_default().weight,
        },
        ReadingModel {
            name: "temporal"@,
            score: temporal_score(incoming.created_at, existing.created_at@),
            threshold: TemporalRegime::spec_default().threshold,
            weight: TemporalRegime::spec_default().weight,
        },
        ReadingModel {
            name: "provenance"@,
            score: provenance_score(incoming.source@, existing.source@),
            threshold: ProvenanceRegime::spec_default().threshold,
            weight: ProvenanceRegime::spec_default().weight,
        },
        ReadingModel {
            name: "narrative"@,
            score: narrative_score(incoming.summary@, existing.summary@),
            threshold: NarrativeRegime::spec_default().threshold,
            weight: NarrativeRegime::spec_default().weight,
        },
        ReadingModel {
            name: "knowledge"@,
            score: knowledge_score(incoming, existing),
            threshold: KnowledgeRegime::spec_default().threshold,
            weight: KnowledgeRegime::spec_default().weight,
        },
        ReadingModel {
            name: "structural"@,
            score: structural_score(incoming.topics@, existing.topics@),
            threshold: StructuralRegime::spec_default().threshold,
            weight: StructuralRegime::spec_default().weight,
        },
        ReadingModel {
            name: "consensus"@,
            score: consensus_of(signals(incoming, existing)),
            threshold: ConsensusRegime::spec_default().threshold,
            weight: ConsensusRegime::spec_default().weight,
        },
    ]
}

/// What the nine core regimes say of incoming content and each memory.
pub open spec fn core_rows(incoming: IncomingContent, existing: Seq<Memory>) -> Seq<Seq<ReadingModel>> {
    existing.map_values(|m: Memory| core_row(incoming, m))
}

/// What a regime says of incoming content and a memory. Each answer is asked for once.
fn read(regime: &Box<dyn Regime>, incoming: &IncomingContent, existing: &Memory) -> (r: Reading)
    ensures
        may_say(&**regime, *incoming, *existing, r@),
{
    Reading {
        name: regime.name().to_string(),
        score: regime.evaluate(incoming, existing),
        threshold: regime.threshold(),
        weight: regime.weight(),
    }
}

/// Which of the first `n` memories matches best: the first with the highest total.
pub open spec fn best(rows: Seq<Seq<ReadingModel>>, n: nat) -> nat
    decreases n,
{
    if n <= 1 {
        0
    } else {
        let b: nat = best(rows, (n - 1) as nat);
        if total(rows[n - 1]).spec_le(total(rows[b as int])) {
            b
        } else {
            (n - 1) as nat
        }
    }
}

/// The result where there is nothing to compare with.
pub open spec fn nothing_to_compare() -> RevisionModel {
    RevisionModel {
        match_id: None,
        classification: Classification::Novel,
        flight_status: FlightStatus::Crashed,
        regime_scores: Seq::empty(),
        total_score: Binary64::spec_zero(),
        fired_regime: None,
        explanation: "no existing memories to compare against"@,
    }
}

/// What readings against each memory come to: the verdict on the one that matches best.
pub open spec fn detected(rows: Seq<Seq<ReadingModel>>, existing: Seq<Memory>) -> RevisionModel {
    if existing.len() == 0 {
        nothing_to_compare()
    } else {
        let b: int = best(rows, existing.len()) as int;
        judged(rows[b], existing[b].id)
    }
}

/// Adds to the end of a list.
fn append<T>(x: T, list: &mut Vec<T>)
    ensures
        final(list)@.len() == old(list)@.len() + 1,
        final(list)@[old(list)@.len() as int] == x,
        forall|i: int| 0 <= i < old(list)@.len() ==> final(list)@[i] == old(list)@[i],
{
    list.push(x);
}

/// Regimes in the order in which they were registered.
pub struct CascadeEngine {
    regimes: Vec<Box<dyn Regime>>,
}

impl CascadeEngine {
    /// The regimes, in their order.
    pub closed spec fn regimes(self) -> Seq<Box<dyn Regime>> {
        self.regimes@
    }

    /// A cascade without regimes.
    pub fn new() -> (r: CascadeEngine)
        ensures
            r.regimes().len() == 0,
    {
        CascadeEngine { regimes: Vec::new() }
    }

    /// A cascade of the nine core regimes.
    pub fn with_core_regimes() -> (r: CascadeEngine)
        ensures
            are_core(r.regimes()),
            all_proper(r.regimes()),
    {
        let mut engine: CascadeEngine = CascadeEngine::new();
        engine.register(Box::new(ContentRegime::default()));
        engine.register(Box::new(SemanticRegime::default()));
        engine.register(Box::new(TraitRegime::default()));
        engine.register(Box::new(TemporalRegime::default()));
        engine.register(Box::new(ProvenanceRegime::default()));
        engine.register(Box::new(NarrativeRegime::default()));
        engine.register(Box::new(KnowledgeRegime::default()));
        engine.register(Box::new(StructuralRegime::default()));
        engine.register(Box::new(ConsensusRegime::default()));
        proof {
            reveal(begins_with_core);
        }
        engine
    }

    /// Adds a regime at the end of the cascade.
    pub fn register(&mut self, regime: Box<dyn Regime>)
        ensures
            final(self).regimes().len() == old(self).regimes().len() + 1,
            final(self).regimes()[old(self).regimes().len() as int] == regime,
            forall|i: int|
                0 <= i < old(self).regimes().len() ==> final(self).regimes()[i] == old(self).regimes()[i],
            begins_with_core(old(self).regimes()) ==> begins_with_core(final(self).regimes()),
    {
        append(regime, &mut self.regimes);
        proof {
            reveal(begins_with_core);
        }
    }

    /// The number of dimensions: one for each regime.
    pub fn dimensions(&self) -> (r: usize)
        ensures
            r == self.regimes().len(),
    {
        self.regimes.len()
    }

    /// What all regimes say of incoming content and a memory.
    fn read_all(&self, incoming: &IncomingContent, existing: &Memory) -> (r: Vec<Reading>)
        ensures
            may_read(self.regimes(), *incoming, *existing, reading_models(r@)),
    {
        let n: usize = self.regimes.len();
        let mut r: Vec<Reading> = Vec::new();
        let mut i: usize = 0;
        while i < n
            invariant
                i <= n == self.regimes@.len(),
                r@.len() == i,
                forall|j: int|
                    0 <= j < i ==> may_say(&*self.regimes@[j], *incoming, *existing, (#[trigger] r@[j])@),
            decreases n - i,
        {
            r.push(read(&self.regimes[i], incoming, existing));
            i = i + 1;
        }
        r
    }

    /// The verdict on incoming content and one memory: every regime is asked about the
    /// two, and the verdict is on what they say.
    pub fn evaluate_pair(&self, incoming: &IncomingContent, existing: &Memory) -> (r: RevisionResult)
        ensures
            exists|row: Seq<ReadingModel>|
                #[trigger] may_read(self.regimes(), *incoming, *existing, row) && r@ == judged(row, existing.id),
            all_decided(self.regimes(), *incoming, *existing) ==> r@ == judged(
                decided_row(self.regimes(), *incoming, *existing),
                existing.id,
            ),
            are_core(self.regimes()) ==> r@ == judged(core_row(*incoming, *existing), existing.id),
            all_proper(self.regimes()) && is_proper_content(*incoming) && is_proper_memory(*existing)
                ==> in_unit_range(r.total_score),
    {
        let readings: Vec<Reading> = self.read_all(incoming, existing);
        proof {
            let row: Seq<ReadingModel> = reading_models(readings@);
            assert(may_read(self.regimes(), *incoming, *existing, row));
            if all_decided(self.regimes(), *incoming, *existing) {
                decided_readings_are_fixed(self.regimes(), *incoming, *existing, row);
            }
            if are_core(self.regimes()) {
                core_readings_are_fixed(self.regimes(), *incoming, *existing, row);
                assert(row.take(CORE_REGIMES as int) =~= row);
            }
            if all_proper(self.regimes()) && is_proper_content(*incoming) && is_proper_memory(*existing) {
                proper_readings_have_a_proper_total(self.regimes(), *incoming, *existing, row);
            }
        }
        judge(&readings, existing.id)
    }

    /// The memory that incoming content matches best, and how: of several with the same
    /// total the first.
    pub fn detect(&self, incoming: &IncomingContent, existing: &Vec<Memory>) -> (r: RevisionResult)
        ensures
            exists|rows: Seq<Seq<ReadingModel>>|
                {
                    &&& rows.len() == existing@.len()
                    &&& forall|i: int|
                        0 <= i < existing@.len() ==> may_read(
                            self.regimes(),
                            *incoming,
                            existing@[i],
                            #[trigger] rows[i],
                        )
                    &&& r@ == #[trigger] detected(rows, existing@)
                },
            (forall|i: int|
                0 <= i < existing@.len() ==> all_decided(self.regimes(), *incoming, #[trigger] existing@[i]))
                ==> r@ == detected(decided_rows(self.regimes(), *incoming, existing@), existing@),
            are_core(self.regimes()) ==> r@ == detected(core_rows(*incoming, existing@), existing@),
            all_proper(self.regimes()) && is_proper_content(*incoming) && (forall|i: int|
                0 <= i < existing@.len() ==> is_proper_memory(#[trigger] existing@[i])) ==> in_unit_range(
                r.total_score,
            ),
    {
        let ghost proper: bool = all_proper(self.regimes()) && is_proper_content(*incoming) && (forall|i: int|
            0 <= i < existing@.len() ==> is_proper_memory(#[trigger] existing@[i]));
        let n: usize = existing.len();
        let ghost mut rows: Seq<Seq<ReadingModel>> = Seq::empty();
        if n == 0 {
            let r: RevisionResult = RevisionResult {
                match_id: None,
                classification: Classification::Novel,
                flight_status: FlightStatus::Crashed,
                regime_scores: Vec::new(),
                total_score: Binary64::zero(),
                fired_regime: None,
                explanation: "no existing memories to compare against".to_string(),
            };
            proof {
                assert(entries(r.regime_scores@) =~= Seq::empty());
                assert(r@ == detected(rows, existing@));
            }
            return r;
        }
        let mut r: RevisionResult = self.evaluate_pair(incoming, &existing[0]);
        proof {
            let row: Seq<ReadingModel> = choose|row: Seq<ReadingModel>|
                #[trigger] may_read(self.regimes(), *incoming, existing@[0], row) && r@ == judged(
                    row,
                    existing@[0].id,
                );
            rows = rows.push(row);
        }
        let mut i: usize = 1;
        while i < n
            invariant
                1 <= i <= n == existing@.len(),
                rows.len() == i,
                forall|j: int|
                    0 <= j < i ==> may_read(self.regimes(), *incoming, existing@[j], #[trigger] rows[j]),
                best(rows, i as nat) < i,
                proper == (all_proper(self.regimes()) && is_proper_content(*incoming) && (forall|j: int|
                    0 <= j < existing@.len() ==> is_proper_memory(#[trigger] existing@[j]))),
                proper ==> in_unit_range(r.total_score),
                r@ == judged(rows[best(rows, i as nat) as int], existing@[best(rows, i as nat) as int].id),
            decreases n - i,
        {
            let next: RevisionResult = self.evaluate_pair(incoming, &existing[i]);
            let ghost before: Seq<Seq<ReadingModel>> = rows;
            proof {
                let row: Seq<ReadingModel> = choose|row: Seq<ReadingModel>|
                    #[trigger] may_read(self.regimes(), *incoming, existing@[i as int], row) && next@ == judged(
                        row,
                        existing@[i as int].id,
                    );
                rows = rows.push(row);
                best_of_prefix(before, rows, i as nat);
            }
            if !next.total_score.le(r.total_score) {
                r = next;
            }
            i = i + 1;
        }
        proof {
            assert(r@ == detected(rows, existing@));
            rows_are_fixed(self.regimes(), *incoming, existing@, rows);
        }
        r
    }
}

/// What comes after the first `n` memories does not matter to which of those is best.
proof fn best_of_prefix(a: Seq<Seq<ReadingModel>>, b: Seq<Seq<ReadingModel>>, n: nat)
    requires
        n <= a.len(),
        n <= b.len(),
        forall|i: int| 0 <= i < n ==> a[i] == b[i],
    ensures
        best(a, n) == best(b, n),
        n > 0 ==> best(a, n) < n,
    decreases n,
{
    if n > 1 {
        best_of_prefix(a, b, (n - 1) as nat);
    }
}

// ---- Laws ----

/// Decided regimes leave one reading.
pub proof fn decided_readings_are_fixed(
    regimes: Seq<Box<dyn Regime>>,
    incoming: IncomingContent,
    existing: Memory,
    row: Seq<ReadingModel>,
)
    requires
        all_decided(regimes, incoming, existing),
        may_read(regimes, incoming, existing, row),
    ensures
        row == decided_row(regimes, incoming, existing),
{
    let fixed: Seq<ReadingModel> = decided_row(regimes, incoming, existing);
    assert forall|i: int| 0 <= i < row.len() implies row[i] == fixed[i] by {
        assert(is_decided(&*regimes[i], incoming, existing));
        assert(may_say(&*regimes[i], incoming, existing, row[i]));
    }
    assert(row =~= fixed);
}

/// What the core regimes say is fixed, whatever regimes a domain registers after them.
pub proof fn core_readings_are_fixed(
    regimes: Seq<Box<dyn Regime>>,
    incoming: IncomingContent,
    existing: Memory,
    row: Seq<ReadingModel>,
)
    requires
        begins_with_core(regimes),
        may_read(regimes, incoming, existing, row),
    ensures
        row.take(CORE_REGIMES as int) == core_row(incoming, existing),
{
    reveal(begins_with_core);
    assert(may_say(&*regimes[0], incoming, existing, row[0]));
    assert(may_say(&*regimes[1], incoming, existing, row[1]));
    assert(may_say(&*regimes[2], incoming, existing, row[2]));
    assert(may_say(&*regimes[3], incoming, existing, row[3]));
    assert(may_say(&*regimes[4], incoming, existing, row[4]));
    assert(may_say(&*regimes[5], incoming, existing, row[5]));
    assert(may_say(&*regimes[6], incoming, existing, row[6]));
    assert(may_say(&*regimes[7], incoming, existing, row[7]));
    assert(may_say(&*regimes[8], incoming, existing, row[8]));
    assert(row.take(CORE_REGIMES as int) =~= core_row(incoming, existing));
}

/// Decided regimes leave one reading against each memory, and so do the core ones.
proof fn rows_are_fixed(
    regimes: Seq<Box<dyn Regime>>,
    incoming: IncomingContent,
    existing: Seq<Memory>,
    rows: Seq<Seq<ReadingModel>>,
)
    requires
        rows.len() == existing.len(),
        forall|i: int|
            0 <= i < existing.len() ==> may_read(regimes, incoming, existing[i], #[trigger] rows[i]),
    ensures
        (forall|i: int| 0 <= i < existing.len() ==> all_decided(regimes, incoming, #[trigger] existing[i]))
            ==> rows == decided_rows(regimes, incoming, existing),
        are_core(regimes) ==> rows == core_rows(incoming, existing),
{
    if forall|i: int| 0 <= i < existing.len() ==> all_decided(regimes, incoming, #[trigger] existing[i]) {
        let fixed: Seq<Seq<ReadingModel>> = decided_rows(regimes, incoming, existing);
        assert forall|i: int| 0 <= i < rows.len() implies rows[i] == fixed[i] by {
            assert(all_decided(regimes, incoming, existing[i]));
            decided_readings_are_fixed(regimes, incoming, existing[i], rows[i]);
        }
        assert(rows =~= fixed);
    }
    if are_core(regimes) {
        let fixed: Seq<Seq<ReadingModel>> = core_rows(incoming, existing);
        assert forall|i: int| 0 <= i < rows.len() implies rows[i] == fixed[i] by {
            core_readings_are_fixed(regimes, incoming, existing[i], rows[i]);
            assert(rows[i].take(CORE_REGIMES as int) =~= rows[i]);
        }
        assert(rows =~= fixed);
    }
}

/// All regimes count, those of a domain too: where they have names of their own, the
/// scores are what each says of the two, under its name, and the total is the mean of all
/// of them by their weights.
pub proof fn every_registered_regime_counts(
    regimes: Seq<Box<dyn Regime>>,
    incoming: IncomingContent,
    existing: Memory,
    row: Seq<ReadingModel>,
)
    requires
        may_read(regimes, incoming, existing, row),
        names_differ(row),
    ensures
        ({
            let r: RevisionModel = judged(row, existing.id);
            &&& r.regime_scores.len() == regimes.len()
            &&& forall|i: int|
                0 <= i < regimes.len() ==> regimes[i].may_be_named((#[trigger] r.regime_scores[i]).0)
                    && regimes[i].may_score(incoming, existing, r.regime_scores[i].1)
            &&& r.total_score == (if Binary64::spec_zero().spec_lt(weights(row, regimes.len())) {
                weighted_sum(row, regimes.len()).spec_over(weights(row, regimes.len()))
            } else {
                Binary64::spec_zero()
            })
        }),
{
    every_regime_is_a_dimension(row, row.len());
    let scores: Seq<(Seq<char>, Binary64)> = judged(row, existing.id).regime_scores;
    assert forall|i: int| 0 <= i < regimes.len() implies regimes[i].may_be_named((#[trigger] scores[i]).0)
        && regimes[i].may_score(incoming, existing, scores[i].1) by {
        assert(may_say(&*regimes[i], incoming, existing, row[i]));
    }
}

/// The regime that fired is the first registered one whose score reaches its threshold,
/// where the regimes have names of their own.
pub proof fn the_first_registered_regime_fires(
    regimes: Seq<Box<dyn Regime>>,
    incoming: IncomingContent,
    existing: Memory,
    row: Seq<ReadingModel>,
)
    requires
        may_read(regimes, incoming, existing, row),
        names_differ(row),
    ensures
        match judged(row, existing.id).fired_regime {
            Some(name) => exists|i: int|
                {
                    &&& 0 <= i < regimes.len()
                    &&& (#[trigger] row[i]).threshold.spec_le(row[i].score)
                    &&& regimes[i].may_be_named(name)
                    &&& regimes[i].may_fire_from(row[i].threshold)
                    &&& regimes[i].may_score(incoming, existing, row[i].score)
                    &&& forall|j: int| 0 <= j < i ==> !(#[trigger] row[j]).threshold.spec_le(row[j].score)
                },
            None => forall|j: int|
                0 <= j < regimes.len() ==> !(#[trigger] row[j]).threshold.spec_le(row[j].score),
        },
{
    the_first_to_reach_its_threshold_fires(row, existing.id);
    if let Some(name) = judged(row, existing.id).fired_regime {
        let i: int = choose|i: int|
            {
                &&& 0 <= i < row.len()
                &&& (#[trigger] row[i]).threshold.spec_le(row[i].score)
                &&& row[i].name == name
                &&& forall|j: int| 0 <= j < i ==> !(#[trigger] row[j]).threshold.spec_le(row[j].score)
            };
        assert(may_say(&*regimes[i], incoming, existing, row[i]));
        assert(row[i].threshold.spec_le(row[i].score));
    }
}

/// Regimes that keep to the range from zero to one have a total there.
pub proof fn proper_readings_have_a_proper_total(
    regimes: Seq<Box<dyn Regime>>,
    incoming: IncomingContent,
    existing: Memory,
    row: Seq<ReadingModel>,
)
    requires
        all_proper(regimes),
        is_proper_content(incoming),
        is_proper_memory(existing),
        may_read(regimes, incoming, existing, row),
    ensures
        in_unit_range(total(row)),
{
    assert forall|i: int| 0 <= i < row.len() implies in_unit_range((#[trigger] row[i]).score) && in_unit_range(
        row[i].weight,
    ) by {
        assert(keeps_to_unit_range(&*regimes[i]));
        assert(may_say(&*regimes[i], incoming, existing, row[i]));
    }
    total_is_in_unit_range(row);
}

/// The nine core regimes have names of their own, so that content compared with a memory
/// gets nine scores, one for each.
pub proof fn core_regimes_are_nine_dimensions(incoming: IncomingContent, existing: Memory)
    ensures
        ({
            let row: Seq<ReadingModel> = core_row(incoming, existing);
            &&& row.len() == 9
            &&& names_differ(row)
            &&& judged(row, existing.id).regime_scores.len() == 9
            &&& forall|i: int|
                0 <= i < 9 ==> #[trigger] judged(row, existing.id).regime_scores[i] == (
                    row[i].name,
                    row[i].score,
                )
        }),
{
    let row: Seq<ReadingModel> = core_row(incoming, existing);
    assert(row.len() == 9);
    assert forall|i: int| 0 <= i < 9 implies (#[trigger] row[i]).name == core_names()[i] by {
        core_name_at(incoming, existing, i);
    }
    core_names_make_nine_scores(row);
}

proof fn core_names_make_nine_scores(row: Seq<ReadingModel>)
    requires
        row.len() == 9,
        forall|i: int| 0 <= i < 9 ==> (#[trigger] row[i]).name == core_names()[i],
    ensures
        names_differ(row),
        score_table(row, 9) == Seq::new(9, |i: int| (row[i].name, row[i].score)),
{
    let names: Seq<Seq<char>> = core_names();
    core_names_differ();
    assert forall|i: int, j: int| 0 <= i < j < row.len() implies (#[trigger] row[i]).name
        != (#[trigger] row[j]).name by {
        assert(names[i] != names[j]);
    }
    every_regime_is_a_dimension(row, 9);
}

/// The names of the core regimes, in their order.
pub open spec fn core_names() -> Seq<Seq<char>> {
    seq![
        "content"@,
        "semantic"@,
        "trait"@,
        "temporal"@,
        "provenance"@,
        "narrative"@,
        "knowledge"@,
        "structural"@,
        "consensus"@,
    ]
}

proof fn core_name_at(incoming: IncomingContent, existing: Memory, i: int)
    requires
        0 <= i < 9,
    ensures
        core_row(incoming, existing)[i].name == core_names()[i],
{
}

proof fn core_names_differ()
    ensures
        core_names().no_duplicates(),
{
    reveal_strlit("content");
    reveal_strlit("semantic");
    reveal_strlit("trait");
    reveal_strlit("temporal");
    reveal_strlit("provenance");
    reveal_strlit("narrative");
    reveal_strlit("knowledge");
    reveal_strlit("structural");
    reveal_strlit("consensus");
    let names: Seq<Seq<char>> = core_names();
    // Names of the same length begin with different letters.
    assert(names[0].len() == 7 && names[1].len() == 8 && names[2].len() == 5);
    assert(names[3].len() == 8 && names[4].len() == 10 && names[5].len() == 9);
    assert(names[6].len() == 9 && names[7].len() == 10 && names[8].len() == 9);
    assert(names[1][0] == 's' && names[3][0] == 't' && names[4][0] == 'p' && names[5][0] == 'n');
    assert(names[6][0] == 'k' && names[7][0] == 's' && names[8][0] == 'c');
}

/// The memory that matches best has the highest total, and is the first that has it,
/// where all totals are numbers.
pub proof fn best_has_the_highest_total(rows: Seq<Seq<ReadingModel>>, n: nat, i: int)
    requires
        0 <= i < n <= rows.len(),
        forall|j: int| 0 <= j < rows.len() ==> !total(#[trigger] rows[j]).is_nan(),
    ensures
        best(rows, n) < n,
        total(rows[i]).spec_le(total(rows[best(rows, n) as int])),
        i < best(rows, n) ==> total(rows[i]).spec_lt(total(rows[best(rows, n) as int])),
    decreases n,
{
    best_of_prefix(rows, rows, n);
    if n > 1 {
        let b: nat = best(rows, (n - 1) as nat);
        best_of_prefix(rows, rows, (n - 1) as nat);
        assert(!total(rows[n - 1]).is_nan());
        assert(!total(rows[b as int]).is_nan());
        if i < n - 1 {
            best_has_the_highest_total(rows, (n - 1) as nat, i);
        }
    } else {
        assert(!total(rows[0]).is_nan());
    }
}

/// What is found of content is the verdict on one of the memories: of those with the
/// highest total the first, where all totals are numbers.
pub proof fn the_earliest_of_the_best_is_found(rows: Seq<Seq<ReadingModel>>, existing: Seq<Memory>)
    requires
        rows.len() == existing.len(),
        existing.len() > 0,
        forall|j: int| 0 <= j < rows.len() ==> !total(#[trigger] rows[j]).is_nan(),
    ensures
        exists|i: int|
            {
                &&& 0 <= i < existing.len()
                &&& detected(rows, existing) == judged(#[trigger] rows[i], existing[i].id)
                &&& detected(rows, existing).total_score == total(rows[i])
                &&& forall|j: int|
                    0 <= j < existing.len() ==> total(#[trigger] rows[j]).spec_le(total(rows[i]))
                &&& forall|j: int| 0 <= j < i ==> total(#[trigger] rows[j]).spec_lt(total(rows[i]))
            },
{
    let n: nat = existing.len();
    best_has_the_highest_total(rows, n, 0);
    let b: int = best(rows, n) as int;
    assert forall|j: int| 0 <= j < n implies total(#[trigger] rows[j]).spec_le(total(rows[b])) && (j < b
        ==> total(rows[j]).spec_lt(total(rows[b]))) by {
        best_has_the_highest_total(rows, n, j);
    }
    assert(detected(rows, existing) == judged(rows[b], existing[b].id));
}

/// Content that is not novel matches one of the memories; novel content matches none.
pub proof fn detected_content_matches_unless_novel(rows: Seq<Seq<ReadingModel>>, existing: Seq<Memory>)
    requires
        rows.len() == existing.len(),
    ensures
        match detected(rows, existing).match_id {
            Some(id) => detected(rows, existing).classification != Classification::Novel && exists|i: int|
                0 <= i < existing.len() && (#[trigger] existing[i]).id == id,
            None => detected(rows, existing).classification == Classification::Novel,
        },
{
    if existing.len() > 0 {
        best_of_prefix(rows, rows, existing.len());
        let b: int = best(rows, existing.len()) as int;
        assert(existing[b].id == existing[b].id);
    }
}

/// Without memories to compare with, content is novel, nothing fired, and the total is zero.
pub proof fn without_memories_content_is_novel(rows: Seq<Seq<ReadingModel>>)
    ensures
        ({
            let r: RevisionModel = detected(rows, Seq::empty());
            &&& r.match_id is None
            &&& r.classification == Classification::Novel
            &&& r.flight_status == FlightStatus::Crashed
            &&& r.regime_scores.len() == 0
            &&& r.total_score == (Binary64 { bits: 0 })
            &&& r.fired_regime is None
            &&& r.explanation == "no existing memories to compare against"@
        }),
{
}

/// The core regimes, in their order: what each is called, what it compares, the score from
/// which it fires, and how much it counts.
pub proof fn the_core_regimes_are_these(incoming: IncomingContent, existing: Memory)
    ensures
        ({
            let row: Seq<ReadingModel> = core_row(incoming, existing);
            &&& row.len() == 9
            &&& row[0].name == "content"@ && row[0].score == content_score(incoming.content@, existing.content@)
            &&& row[0].threshold.bits == 0x3feb_3333_3333_3333 && row[0].weight.bits == 0x3ff0_0000_0000_0000
            &&& row[1].name == "semantic"@ && row[1].score == semantic_score(incoming, existing)
            &&& row[1].threshold.bits == 0x3fe1_9999_9999_999a && row[1].weight.bits == 0x3ff0_0000_0000_0000
            &&& row[2].name == "trait"@ && row[2].score == trait_score(incoming.traits@, existing.traits@)
            &&& row[2].threshold.bits == 0x3fd9_9999_9999_999a && row[2].weight.bits == 0x3ff0_0000_0000_0000
            &&& row[3].name == "temporal"@ && row[3].score == temporal_score(
                incoming.created_at,
                existing.created_at@,
            )
            &&& row[3].threshold.bits == 0x3fe0_0000_0000_0000 && row[3].weight.bits == 0x3fe3_3333_3333_3333
            &&& row[4].name == "provenance"@ && row[4].score == provenance_score(
                incoming.source@,
                existing.source@,
            )
            &&& row[4].threshold.bits == 0x3fe9_9999_9999_999a && row[4].weight.bits == 0x3fe9_9999_9999_999a
            &&& row[5].name == "narrative"@ && row[5].score == narrative_score(
                incoming.summary@,
                existing.summary@,
            )
            &&& row[5].threshold.bits == 0x3fe0_0000_0000_0000 && row[5].weight.bits == 0x3fe6_6666_6666_6666
            &&& row[6].name == "knowledge"@ && row[6].score == knowledge_score(incoming, existing)
            &&& row[6].threshold.bits == 0x3fdc_cccc_cccc_cccd && row[6].weight.bits == 0x3fe9_9999_9999_999a
            &&& row[7].name == "structural"@ && row[7].score == structural_score(
                incoming.topics@,
                existing.topics@,
            )
            &&& row[7].threshold.bits == 0x3fdc_cccc_cccc_cccd && row[7].weight.bits == 0x3fe6_6666_6666_6666
            &&& row[8].name == "consensus"@ && row[8].score == consensus_of(signals(incoming, existing))
            &&& row[8].threshold.bits == 0x3fd9_9999_9999_999a && row[8].weight.bits == 0x3fe0_0000_0000_0000
        }),
{
}

/// Each memory is compared with the content, and with nothing else.
pub proof fn the_core_rows_compare_each_memory(incoming: IncomingContent, existing: Seq<Memory>, i: int)
    requires
        0 <= i < existing.len(),
    ensures
        core_rows(incoming, existing).len() == existing.len(),
        core_rows(incoming, existing)[i] == core_row(incoming, existing[i]),
{
}

/// What is read of the regimes is what each answers, in their order: its name, what it says
/// of the content and the memory, its threshold and its weight.
pub proof fn every_answer_is_that_of_its_regime(
    regimes: Seq<Box<dyn Regime>>,
    incoming: IncomingContent,
    existing: Memory,
    row: Seq<ReadingModel>,
    i: int,
)
    requires
        may_read(regimes, incoming, existing, row),
        0 <= i < regimes.len(),
    ensures
        row.len() == regimes.len(),
        regimes[i].may_be_named(row[i].name),
        regimes[i].may_score(incoming, existing, row[i].score),
        regimes[i].may_fire_from(row[i].threshold),
        regimes[i].may_weigh(row[i].weight),
{
    assert(may_say(&*regimes[i], incoming, existing, row[i]));
}

/// With one memory more, that memory is the one that matches best, unless its total is no
/// higher than that of the one that matched best before.
pub proof fn a_memory_takes_over_unless_its_total_is_no_higher(rows: Seq<Seq<ReadingModel>>, existing: Seq<Memory>)
    requires
        rows.len() == existing.len(),
        existing.len() > 1,
    ensures
        ({
            let before: RevisionModel = detected(rows.drop_last(), existing.drop_last());
            let last: RevisionModel = judged(rows.last(), existing.last().id);
            detected(rows, existing) == (if last.total_score.spec_le(before.total_score) {
                before
            } else {
                last
            })
        }),
{
    let n: nat = existing.len();
    let m: nat = (n - 1) as nat;
    best_of_prefix(rows, rows.drop_last(), m);
    let b: int = best(rows, m) as int;
    assert(rows.drop_last()[b] == rows[b]);
    assert(existing.drop_last()[b] == existing[b]);
    assert(detected(rows.drop_last(), existing.drop_last()) == judged(rows[b], existing[b].id));
    assert(judged(rows[b], existing[b].id).total_score == total(rows[b]));
    assert(judged(rows[n - 1], existing[n - 1].id).total_score == total(rows[n - 1]));
}

/// With one memory, the verdict is that on it.
pub proof fn one_memory_is_the_best_match(rows: Seq<Seq<ReadingModel>>, existing: Seq<Memory>)
    requires
        rows.len() == existing.len(),
        existing.len() == 1,
    ensures
        detected(rows, existing) == judged(rows[0], existing[0].id),
{
}

} // verus!
