//! What the readings of the regimes come to.

use crate::binary64::laws::in_unit_range;
use crate::binary64::{laws, Binary64, HIDDEN};
use crate::decimal::{fixed, integer, push_fixed, push_integer};
use crate::ranking::{positions, rank_top, top};
use crate::ranking;
use crate::revision::{Classification, FlightStatus};
use crate::text::{joined, push_joined, same_text, text_if_any, texts};
use vstd::prelude::*;

verus! {

/// 0.85: the least total of a strong match.
pub const STRONG_FLOOR: u64 = 0x3feb_3333_3333_3333;

/// 0.55: the least total of a semantic match.
pub const SEMANTIC_FLOOR: u64 = 0x3fe1_9999_9999_999a;

/// 0.35: the least total of a drift.
pub const DRIFT_FLOOR: u64 = 0x3fd6_6666_6666_6666;

/// 0.9: the least total of a landed pair.
pub const LANDED_MIN: u64 = 0x3fec_cccc_cccc_cccd;

/// 0.5: the least total of a falling pair.
pub const FALLING_MIN: u64 = 0x3fe0_0000_0000_0000;

/// The number of scores that an explanation names.
pub const TOP_SCORES: usize = 3;

/// What a regime says of incoming content and a memory.
#[derive(Debug)]
pub struct Reading {
    pub name: String,
    pub score: Binary64,
    pub threshold: Binary64,
    pub weight: Binary64,
}

/// What a `Reading` says.
#[verifier::ext_equal]
pub struct ReadingModel {
    pub name: Seq<char>,
    pub score: Binary64,
    pub threshold: Binary64,
    pub weight: Binary64,
}

impl View for Reading {
    type V = ReadingModel;

    open spec fn view(&self) -> ReadingModel {
        ReadingModel {
            name: self.name@,
            score: self.score,
            threshold: self.threshold,
            weight: self.weight,
        }
    }
}

/// What readings say.
pub open spec fn reading_models(list: Seq<Reading>) -> Seq<ReadingModel> {
    list.map_values(|r: Reading| r@)
}

/// What a cascade finds of incoming content.
#[derive(Debug)]
pub struct RevisionResult {
    /// The memory that the content matches, unless it is novel.
    pub match_id: Option<i64>,
    pub classification: Classification,
    pub flight_status: FlightStatus,
    /// The score of each regime by its name, in the order of the regimes.
    pub regime_scores: Vec<(String, Binary64)>,
    pub total_score: Binary64,
    pub fired_regime: Option<String>,
    pub explanation: String,
}

/// What a `RevisionResult` says.
#[verifier::ext_equal]
pub struct RevisionModel {
    pub match_id: Option<i64>,
    pub classification: Classification,
    pub flight_status: FlightStatus,
    pub regime_scores: Seq<(Seq<char>, Binary64)>,
    pub total_score: Binary64,
    pub fired_regime: Option<Seq<char>>,
    pub explanation: Seq<char>,
}

/// The names and scores of a table.
pub open spec fn entries(table: Seq<(String, Binary64)>) -> Seq<(Seq<char>, Binary64)> {
    table.map_values(|e: (String, Binary64)| (e.0@, e.1))
}

impl View for RevisionResult {
    type V = RevisionModel;

    open spec fn view(&self) -> RevisionModel {
        RevisionModel {
            match_id: self.match_id,
            classification: self.classification,
            flight_status: self.flight_status,
            regime_scores: entries(self.regime_scores@),
            total_score: self.total_score,
            fired_regime: text_if_any(self.fired_regime),
            explanation: self.explanation@,
        }
    }
}

// ---- The table of scores ----

/// The position of a name in a table, or the table's length where it is not in it.
pub open spec fn slot(table: Seq<(Seq<char>, Binary64)>, name: Seq<char>) -> nat
    decreases table.len(),
{
    if table.len() == 0 {
        0
    } else {
        let before: nat = slot(table.drop_last(), name);
        if before < table.len() - 1 {
            before
        } else if table.last().0 == name {
            (table.len() - 1) as nat
        } else {
            table.len()
        }
    }
}

/// The table of the scores of the first `n` readings by their names. A later reading of
/// the same name takes the place of the earlier one.
pub open spec fn score_table(readings: Seq<ReadingModel>, n: nat) -> Seq<(Seq<char>, Binary64)>
    decreases n,
{
    if n == 0 {
        Seq::empty()
    } else {
        let table: Seq<(Seq<char>, Binary64)> = score_table(readings, (n - 1) as nat);
        let r: ReadingModel = readings[n - 1];
        let at: nat = slot(table, r.name);
        if at < table.len() {
            table.update(at as int, (r.name, r.score))
        } else {
            table.push((r.name, r.score))
        }
    }
}

/// The position of a name in a table, or the table's length where it is not in it.
fn find_slot(table: &Vec<(String, Binary64)>, name: &String) -> (r: usize)
    ensures
        r == slot(entries(table@), name@),
        r <= table@.len(),
{
    let n: usize = table.len();
    let mut i: usize = 0;
    assert(entries(table@).take(0) =~= Seq::empty());
    while i < n
        invariant
            i <= n == table@.len(),
            slot(entries(table@).take(i as int), name@) == i,
        decreases n - i,
    {
        let ghost next: Seq<(Seq<char>, Binary64)> = entries(table@).take(i + 1);
        assert(next.drop_last() =~= entries(table@).take(i as int));
        assert(next.last().0 == table@[i as int].0@);
        if table[i].0 == *name {
            proof {
                slot_of_prefix(entries(table@), name@, i + 1);
            }
            return i;
        }
        i = i + 1;
    }
    assert(entries(table@).take(n as int) =~= entries(table@));
    n
}

/// What is found in the beginning of a table is found in the whole.
proof fn slot_of_prefix(table: Seq<(Seq<char>, Binary64)>, name: Seq<char>, n: int)
    requires
        0 <= n <= table.len(),
        slot(table.take(n), name) < n,
    ensures
        slot(table, name) == slot(table.take(n), name),
    decreases table.len(),
{
    if n < table.len() {
        assert(table.drop_last().take(n) =~= table.take(n));
        slot_of_prefix(table.drop_last(), name, n);
    } else {
        assert(table.take(n) =~= table);
    }
}

/// What stands in the slot of a name has that name.
proof fn slot_holds_name(table: Seq<(Seq<char>, Binary64)>, name: Seq<char>)
    ensures
        slot(table, name) <= table.len(),
        slot(table, name) < table.len() ==> table[slot(table, name) as int].0 == name,
        forall|i: int| 0 <= i < slot(table, name) ==> (#[trigger] table[i]).0 != name,
    decreases table.len(),
{
    if table.len() > 0 {
        let rest: Seq<(Seq<char>, Binary64)> = table.drop_last();
        slot_holds_name(rest, name);
        assert forall|i: int| 0 <= i < slot(table, name) implies (#[trigger] table[i]).0 != name by {
            if i < rest.len() {
                assert(rest[i] == table[i]);
            }
        }
    }
}

/// The scores of the readings by their names.
fn tabulate(readings: &Vec<Reading>) -> (r: Vec<(String, Binary64)>)
    ensures
        entries(r@) == score_table(reading_models(readings@), readings@.len()),
{
    let n: usize = readings.len();
    let ghost models: Seq<ReadingModel> = reading_models(readings@);
    let mut table: Vec<(String, Binary64)> = Vec::new();
    let mut i: usize = 0;
    assert(entries(table@) =~= Seq::empty());
    while i < n
        invariant
            i <= n == readings@.len(),
            models == reading_models(readings@),
            entries(table@) == score_table(models, i as nat),
        decreases n - i,
    {
        let reading: &Reading = &readings[i];
        let at: usize = find_slot(&table, &reading.name);
        let ghost before: Seq<(Seq<char>, Binary64)> = entries(table@);
        assert(models[i as int] == reading@);
        if at < table.len() {
            table.set(at, (reading.name.clone(), reading.score));
            assert(entries(table@) =~= before.update(at as int, (reading.name@, reading.score)));
        } else {
            table.push((reading.name.clone(), reading.score));
            assert(entries(table@) =~= before.push((reading.name@, reading.score)));
        }
        i = i + 1;
    }
    table
}

// ---- The total ----

/// The weighted sum of the scores of the first `n` readings.
pub open spec fn weighted_sum(readings: Seq<ReadingModel>, n: nat) -> Binary64
    decreases n,
{
    if n == 0 {
        Binary64::spec_zero()
    } else {
        weighted_sum(readings, (n - 1) as nat).spec_plus(
            readings[n - 1].score.spec_times(readings[n - 1].weight),
        )
    }
}

/// The sum of the weights of the first `n` readings.
pub open spec fn weights(readings: Seq<ReadingModel>, n: nat) -> Binary64
    decreases n,
{
    if n == 0 {
        Binary64::spec_zero()
    } else {
        weights(readings, (n - 1) as nat).spec_plus(readings[n - 1].weight)
    }
}

/// The weighted mean of the scores; zero where they have no weight.
pub open spec fn total(readings: Seq<ReadingModel>) -> Binary64 {
    if Binary64::spec_zero().spec_lt(weights(readings, readings.len())) {
        weighted_sum(readings, readings.len()).spec_over(weights(readings, readings.len()))
    } else {
        Binary64::spec_zero()
    }
}

fn total_of(readings: &Vec<Reading>) -> (r: Binary64)
    ensures
        r == total(reading_models(readings@)),
{
    let n: usize = readings.len();
    let ghost models: Seq<ReadingModel> = reading_models(readings@);
    let mut sum: Binary64 = Binary64::zero();
    let mut weight: Binary64 = Binary64::zero();
    let mut i: usize = 0;
    while i < n
        invariant
            i <= n == readings@.len(),
            models == reading_models(readings@),
            sum == weighted_sum(models, i as nat),
            weight == weights(models, i as nat),
        decreases n - i,
    {
        assert(models[i as int] == readings@[i as int]@);
        sum = sum.plus(readings[i].score.times(readings[i].weight));
        weight = weight.plus(readings[i].weight);
        i = i + 1;
    }
    if Binary64::zero().lt(weight) {
        sum.over(weight)
    } else {
        Binary64::zero()
    }
}

// ---- The regime that fired ----

/// The score of a name in a table; zero where it is not in it.
pub open spec fn lookup(table: Seq<(Seq<char>, Binary64)>, name: Seq<char>) -> Binary64 {
    if slot(table, name) < table.len() {
        table[slot(table, name) as int].1
    } else {
        Binary64::spec_zero()
    }
}

/// Does the score of a reading's regime reach its threshold?
pub open spec fn fires(table: Seq<(Seq<char>, Binary64)>, r: ReadingModel) -> bool {
    r.threshold.spec_le(lookup(table, r.name))
}

/// The name of the first regime, from the `from`th on, that fires.
pub open spec fn first_fired(
    readings: Seq<ReadingModel>,
    table: Seq<(Seq<char>, Binary64)>,
    from: nat,
) -> Option<Seq<char>>
    decreases readings.len() - from,
{
    if from >= readings.len() {
        None
    } else if fires(table, readings[from as int]) {
        Some(readings[from as int].name)
    } else {
        first_fired(readings, table, from + 1)
    }
}

fn find_fired(readings: &Vec<Reading>, table: &Vec<(String, Binary64)>) -> (r: Option<String>)
    ensures
        text_if_any(r) == first_fired(reading_models(readings@), entries(table@), 0),
{
    let n: usize = readings.len();
    let ghost models: Seq<ReadingModel> = reading_models(readings@);
    let mut i: usize = 0;
    while i < n
        invariant
            i <= n == readings@.len(),
            models == reading_models(readings@),
            first_fired(models, entries(table@), 0) == first_fired(models, entries(table@), i as nat),
        decreases n - i,
    {
        let reading: &Reading = &readings[i];
        assert(models[i as int] == reading@);
        let at: usize = find_slot(table, &reading.name);
        let score: Binary64 = if at < table.len() {
            assert(entries(table@)[at as int].1 == table@[at as int].1);
            table[at].1
        } else {
            Binary64::zero()
        };
        if reading.threshold.le(score) {
            return Some(reading.name.clone());
        }
        i = i + 1;
    }
    None
}

// ---- Classes ----

/// Is the regime one of content: content or provenance?
pub open spec fn content_class(name: Seq<char>) -> bool {
    name == "content"@ || name == "provenance"@
}

/// Is the regime one of meaning: semantic, knowledge, structural or narrative?
pub open spec fn semantic_class(name: Seq<char>) -> bool {
    name == "semantic"@ || name == "knowledge"@ || name == "structural"@ || name == "narrative"@
}

/// Is the regime one of content: content or provenance?
pub fn is_content_class(name: &str) -> (r: bool)
    ensures
        r == content_class(name@),
{
    same_text(name, "content") || same_text(name, "provenance")
}

/// Is the regime one of meaning: semantic, knowledge, structural or narrative?
pub fn is_semantic_class(name: &str) -> (r: bool)
    ensures
        r == semantic_class(name@),
{
    same_text(name, "semantic") || same_text(name, "knowledge") || same_text(name, "structural")
        || same_text(name, "narrative")
}

/// What content is, by the regime that fired and the total.
pub open spec fn class_of(fired: Option<Seq<char>>, total: Binary64) -> Classification {
    if (fired matches Some(name) && content_class(name)) && (Binary64 { bits: STRONG_FLOOR }).spec_le(total) {
        Classification::StrongMatch
    } else if (fired matches Some(name) && semantic_class(name)) && (Binary64 {
        bits: SEMANTIC_FLOOR,
    }).spec_le(total) {
        Classification::SemanticMatch
    } else if (Binary64 { bits: DRIFT_FLOOR }).spec_le(total) {
        Classification::DriftMatch
    } else {
        Classification::Novel
    }
}

/// How settled a pair is, by the total.
pub open spec fn status_of(total: Binary64) -> FlightStatus {
    if (Binary64 { bits: LANDED_MIN }).spec_le(total) {
        FlightStatus::Landed
    } else if (Binary64 { bits: FALLING_MIN }).spec_le(total) {
        FlightStatus::Falling
    } else {
        FlightStatus::Crashed
    }
}

fn classify_match(fired: &Option<String>, total: Binary64) -> (r: Classification)
    ensures
        r == class_of(text_if_any(*fired), total),
{
    let content: bool = match fired {
        Some(name) => is_content_class(name.as_str()),
        None => false,
    };
    let semantic: bool = match fired {
        Some(name) => is_semantic_class(name.as_str()),
        None => false,
    };
    if content && Binary64::from_bits(STRONG_FLOOR).le(total) {
        Classification::StrongMatch
    } else if semantic && Binary64::from_bits(SEMANTIC_FLOOR).le(total) {
        Classification::SemanticMatch
    } else if Binary64::from_bits(DRIFT_FLOOR).le(total) {
        Classification::DriftMatch
    } else {
        Classification::Novel
    }
}

fn flight_of(total: Binary64) -> (r: FlightStatus)
    ensures
        r == status_of(total),
{
    if Binary64::from_bits(LANDED_MIN).le(total) {
        FlightStatus::Landed
    } else if Binary64::from_bits(FALLING_MIN).le(total) {
        FlightStatus::Falling
    } else {
        FlightStatus::Crashed
    }
}

// ---- The explanation ----

/// The highest scores of a table, each as its name and its score.
pub open spec fn top_scores(table: Seq<(Seq<char>, Binary64)>) -> Seq<Seq<char>> {
    let keys: Seq<Binary64> = table.map_values(|e: (Seq<char>, Binary64)| e.1);
    top(keys, TOP_SCORES as nat).map_values(|p: int| table[p].0 + "="@ + fixed(table[p].1, 2))
}

/// What was found, in words.
pub open spec fn explanation_of(
    class: Classification,
    fired: Option<Seq<char>>,
    memory_id: i64,
    table: Seq<(Seq<char>, Binary64)>,
    total: Binary64,
) -> Seq<char> {
    let tail: Seq<char> = "total="@ + fixed(total, 3) + ", top: "@ + joined(top_scores(table), ", "@) + ")"@;
    if class == Classification::Novel {
        "novel content ("@ + tail
    } else {
        (match class {
            Classification::StrongMatch => "near-duplicate of #"@,
            Classification::SemanticMatch => "revision of #"@,
            _ => "drift from #"@,
        }) + integer(memory_id as int) + " (fired="@ + (match fired {
            Some(name) => name,
            None => "none"@,
        }) + ", "@ + tail
    }
}

fn list_top_scores(table: &Vec<(String, Binary64)>) -> (r: Vec<String>)
    ensures
        texts(r@) == top_scores(entries(table@)),
{
    let n: usize = table.len();
    let ghost model: Seq<(Seq<char>, Binary64)> = entries(table@);
    let mut keys: Vec<Binary64> = Vec::new();
    let mut i: usize = 0;
    while i < n
        invariant
            i <= n == table@.len(),
            keys@.len() == i,
            forall|j: int| 0 <= j < i ==> #[trigger] keys@[j] == table@[j].1,
        decreases n - i,
    {
        keys.push(table[i].1);
        i = i + 1;
    }
    let order: Vec<usize> = rank_top(&keys, TOP_SCORES);
    proof {
        assert(keys@ =~= model.map_values(|e: (Seq<char>, Binary64)| e.1));
    }
    let mut r: Vec<String> = Vec::new();
    let mut p: usize = 0;
    while p < order.len()
        invariant
            p <= order@.len(),
            model == entries(table@),
            forall|q: int| 0 <= q < order@.len() ==> #[trigger] order@[q] < table@.len(),
            r@.len() == p,
            forall|q: int|
                0 <= q < p ==> (#[trigger] r@[q])@ == model[order@[q] as int].0 + "="@ + fixed(
                    model[order@[q] as int].1,
                    2,
                ),
        decreases order@.len() - p,
    {
        let at: usize = order[p];
        let mut entry: String = table[at].0.clone();
        entry.append("=");
        push_fixed(&mut entry, table[at].1, 2);
        assert(model[at as int] == (table@[at as int].0@, table@[at as int].1));
        r.push(entry);
        p = p + 1;
    }
    proof {
        let want: Seq<Seq<char>> = top_scores(model);
        assert(positions(order@).len() == order@.len());
        assert forall|q: int| 0 <= q < r@.len() implies texts(r@)[q] == want[q] by {
            assert(positions(order@)[q] == order@[q]);
        }
        assert(texts(r@) =~= want);
    }
    r
}

/// What was found, in words.
fn build_explanation(
    class: Classification,
    fired: &Option<String>,
    memory_id: i64,
    table: &Vec<(String, Binary64)>,
    total: Binary64,
) -> (r: String)
    ensures
        r@ == explanation_of(class, text_if_any(*fired), memory_id, entries(table@), total),
{
    let scores: Vec<String> = list_top_scores(table);
    let ghost tail: Seq<char> = "total="@ + fixed(total, 3) + ", top: "@ + joined(
        top_scores(entries(table@)),
        ", "@,
    ) + ")"@;
    let mut r: String = match class {
        Classification::StrongMatch => "near-duplicate of #".to_string(),
        Classification::SemanticMatch => "revision of #".to_string(),
        Classification::DriftMatch => "drift from #".to_string(),
        Classification::Novel => "novel content (".to_string(),
    };
    match class {
        Classification::Novel => {},
        _ => {
            push_integer(&mut r, memory_id);
            r.append(" (fired=");
            match fired {
                Some(name) => r.append(name.as_str()),
                None => r.append("none"),
            }
            r.append(", ");
        },
    }
    let ghost head: Seq<char> = r@;
    r.append("total=");
    push_fixed(&mut r, total, 3);
    r.append(", top: ");
    push_joined(&mut r, &scores, ", ");
    r.append(")");
    assert(r@ =~= head + tail);
    r
}

// ---- The verdict ----

/// What the readings of incoming content against a memory come to.
pub open spec fn judged(readings: Seq<ReadingModel>, memory_id: i64) -> RevisionModel {
    let table: Seq<(Seq<char>, Binary64)> = score_table(readings, readings.len());
    let fired: Option<Seq<char>> = first_fired(readings, table, 0);
    let class: Classification = class_of(fired, total(readings));
    RevisionModel {
        match_id: if class == Classification::Novel {
            None
        } else {
            Some(memory_id)
        },
        classification: class,
        flight_status: status_of(total(readings)),
        regime_scores: table,
        total_score: total(readings),
        fired_regime: fired,
        explanation: explanation_of(class, fired, memory_id, table, total(readings)),
    }
}

/// What the readings of incoming content against a memory come to: the class by the
/// regime that fired and the total, with all scores and an explanation.
pub fn judge(readings: &Vec<Reading>, memory_id: i64) -> (r: RevisionResult)
    ensures
        r@ == judged(reading_models(readings@), memory_id),
{
    let table: Vec<(String, Binary64)> = tabulate(readings);
    let total_score: Binary64 = total_of(readings);
    let fired_regime: Option<String> = find_fired(readings, &table);
    let classification: Classification = classify_match(&fired_regime, total_score);
    let explanation: String = build_explanation(
        classification,
        &fired_regime,
        memory_id,
        &table,
        total_score,
    );
    assert(reading_models(readings@).len() == readings@.len());
    RevisionResult {
        match_id: match classification {
            Classification::Novel => None,
            _ => Some(memory_id),
        },
        classification,
        flight_status: flight_of(total_score),
        regime_scores: table,
        total_score,
        fired_regime,
        explanation,
    }
}

// ---- Laws ----

/// Content matches a memory if and only if it is not novel.
pub proof fn novel_content_has_no_match(readings: Seq<ReadingModel>, memory_id: i64)
    ensures
        judged(readings, memory_id).match_id == (if judged(readings, memory_id).classification
            == Classification::Novel {
            None
        } else {
            Some(memory_id)
        }),
{
}

/// A match of each kind takes a total that reaches the floor of its kind.
pub proof fn matches_reach_their_floor(readings: Seq<ReadingModel>, memory_id: i64)
    ensures
        ({
            let r: RevisionModel = judged(readings, memory_id);
            &&& r.classification == Classification::StrongMatch ==> (Binary64 {
                bits: STRONG_FLOOR,
            }).spec_le(r.total_score) && (r.fired_regime matches Some(name) && content_class(name))
            &&& r.classification == Classification::SemanticMatch ==> (Binary64 {
                bits: SEMANTIC_FLOOR,
            }).spec_le(r.total_score) && (r.fired_regime matches Some(name) && semantic_class(name))
            &&& r.classification == Classification::DriftMatch ==> (Binary64 {
                bits: DRIFT_FLOOR,
            }).spec_le(r.total_score)
            &&& r.classification == Classification::Novel <==> !(Binary64 { bits: DRIFT_FLOOR }).spec_le(
                r.total_score,
            )
        }),
{
}

/// The regime that fired is the first whose score reaches its threshold; none fired if
/// and only if no score does.
pub proof fn the_first_regime_fires(readings: Seq<ReadingModel>, from: nat)
    ensures
        ({
            let table: Seq<(Seq<char>, Binary64)> = score_table(readings, readings.len());
            match first_fired(readings, table, from) {
                Some(name) => exists|i: int|
                    {
                        &&& from <= i < readings.len()
                        &&& #[trigger] fires(table, readings[i])
                        &&& readings[i].name == name
                        &&& forall|j: int| from <= j < i ==> !#[trigger] fires(table, readings[j])
                    },
                None => forall|j: int| from <= j < readings.len() ==> !#[trigger] fires(table, readings[j]),
            }
        }),
    decreases readings.len() - from,
{
    let table: Seq<(Seq<char>, Binary64)> = score_table(readings, readings.len());
    if from < readings.len() && !fires(table, readings[from as int]) {
        the_first_regime_fires(readings, from + 1);
        if first_fired(readings, table, from) is Some {
            let name: Seq<char> = first_fired(readings, table, from).unwrap();
            let i: int = choose|i: int|
                {
                    &&& from + 1 <= i < readings.len()
                    &&& #[trigger] fires(table, readings[i])
                    &&& readings[i].name == name
                    &&& forall|j: int| from + 1 <= j < i ==> !#[trigger] fires(table, readings[j])
                };
            assert(forall|j: int| from <= j < i ==> !#[trigger] fires(table, readings[j]));
        }
    }
}

/// Do no two readings have the same name?
pub open spec fn names_differ(readings: Seq<ReadingModel>) -> bool {
    forall|i: int, j: int|
        0 <= i < j < readings.len() ==> (#[trigger] readings[i]).name != (#[trigger] readings[j]).name
}

/// Every regime contributes a dimension: with names of their own, the table holds the
/// score of each, in their order.
pub proof fn every_regime_is_a_dimension(readings: Seq<ReadingModel>, n: nat)
    requires
        names_differ(readings),
        n <= readings.len(),
    ensures
        score_table(readings, n) == Seq::new(n, |i: int| (readings[i].name, readings[i].score)),
    decreases n,
{
    let want: Seq<(Seq<char>, Binary64)> = Seq::new(n, |i: int| (readings[i].name, readings[i].score));
    if n == 0 {
        assert(score_table(readings, n) =~= want);
    } else {
        every_regime_is_a_dimension(readings, (n - 1) as nat);
        let table: Seq<(Seq<char>, Binary64)> = score_table(readings, (n - 1) as nat);
        slot_holds_name(table, readings[n - 1].name);
        let at: nat = slot(table, readings[n - 1].name);
        if at < table.len() {
            assert(table[at as int].0 == readings[at as int].name);
        }
        assert(score_table(readings, n) =~= want);
    }
}

/// With names of their own, each regime fires by its own score.
pub proof fn each_regime_fires_by_its_own_score(readings: Seq<ReadingModel>, i: int)
    requires
        names_differ(readings),
        0 <= i < readings.len(),
    ensures
        fires(score_table(readings, readings.len()), readings[i]) == readings[i].threshold.spec_le(
            readings[i].score,
        ),
{
    let table: Seq<(Seq<char>, Binary64)> = score_table(readings, readings.len());
    every_regime_is_a_dimension(readings, readings.len());
    slot_holds_name(table, readings[i].name);
    let at: nat = slot(table, readings[i].name);
    assert(table[i].0 == readings[i].name);
    assert(at <= i);
    assert(table[at as int].0 == readings[at as int].name);
}

/// With names of their own, the regime that fired is the first whose own score reaches its
/// own threshold; none fired if and only if no regime's score does.
pub proof fn the_first_to_reach_its_threshold_fires(readings: Seq<ReadingModel>, memory_id: i64)
    requires
        names_differ(readings),
    ensures
        match judged(readings, memory_id).fired_regime {
            Some(name) => exists|i: int|
                {
                    &&& 0 <= i < readings.len()
                    &&& (#[trigger] readings[i]).threshold.spec_le(readings[i].score)
                    &&& readings[i].name == name
                    &&& forall|j: int|
                        0 <= j < i ==> !(#[trigger] readings[j]).threshold.spec_le(readings[j].score)
                },
            None => forall|j: int|
                0 <= j < readings.len() ==> !(#[trigger] readings[j]).threshold.spec_le(readings[j].score),
        },
{
    let table: Seq<(Seq<char>, Binary64)> = score_table(readings, readings.len());
    the_first_regime_fires(readings, 0);
    assert forall|j: int| 0 <= j < readings.len() implies fires(table, readings[j]) == (
    #[trigger] readings[j]).threshold.spec_le(readings[j].score) by {
        each_regime_fires_by_its_own_score(readings, j);
    }
    if let Some(name) = judged(readings, memory_id).fired_regime {
        let i: int = choose|i: int|
            {
                &&& 0 <= i < readings.len()
                &&& #[trigger] fires(table, readings[i])
                &&& readings[i].name == name
                &&& forall|j: int| 0 <= j < i ==> !#[trigger] fires(table, readings[j])
            };
        assert(readings[i].threshold.spec_le(readings[i].score));
        assert forall|j: int| 0 <= j < i implies !(#[trigger] readings[j]).threshold.spec_le(
            readings[j].score,
        ) by {
            assert(!fires(table, readings[j]));
        }
    } else {
        assert forall|j: int| 0 <= j < readings.len() implies !(#[trigger] readings[j]).threshold.spec_le(
            readings[j].score,
        ) by {
            assert(!fires(table, readings[j]));
        }
    }
}

/// The total lies between zero and one where the scores and the weights do.
pub proof fn total_is_in_unit_range(readings: Seq<ReadingModel>)
    requires
        readings.len() <= 2 * HIDDEN,
        forall|i: int|
            0 <= i < readings.len() ==> in_unit_range((#[trigger] readings[i]).score) && in_unit_range(
                readings[i].weight,
            ),
    ensures
        in_unit_range(total(readings)),
{
    sums_are_bounded(readings, readings.len());
    if Binary64::spec_zero().spec_lt(weights(readings, readings.len())) {
        laws::part_of_whole_in_unit_range(
            weighted_sum(readings, readings.len()),
            weights(readings, readings.len()),
        );
    }
}

proof fn sums_are_bounded(readings: Seq<ReadingModel>, n: nat)
    requires
        n <= readings.len() <= 2 * HIDDEN,
        forall|i: int|
            0 <= i < readings.len() ==> in_unit_range((#[trigger] readings[i]).score) && in_unit_range(
                readings[i].weight,
            ),
    ensures
        laws::at_most(weighted_sum(readings, n), n),
        laws::at_most(weights(readings, n), n),
        weighted_sum(readings, n).units() <= weights(readings, n).units(),
    decreases n,
{
    if n == 0 {
        laws::zero_in_units();
    } else {
        let m: nat = (n - 1) as nat;
        let r: ReadingModel = readings[n - 1];
        sums_are_bounded(readings, m);
        laws::share_is_no_larger(r.score, r.weight);
        laws::sum_is_at_most(weighted_sum(readings, m), m, r.score.spec_times(r.weight));
        laws::sum_is_at_most(weights(readings, m), m, r.weight);
        laws::sums_are_monotone(
            weighted_sum(readings, m),
            r.score.spec_times(r.weight),
            m,
            weights(readings, m),
            r.weight,
        );
    }
}

/// The class is decided by the regime that fired and the total, in both directions: a
/// regime of content and a total from 0.85 on make a strong match, a regime of meaning and
/// a total from 0.55 on a semantic match, any other total from 0.35 on a drift, and a total
/// below that is novel.
pub proof fn the_class_is_decided(readings: Seq<ReadingModel>, memory_id: i64)
    ensures
        ({
            let r: RevisionModel = judged(readings, memory_id);
            let strong: bool = (r.fired_regime == Some("content"@) || r.fired_regime == Some("provenance"@))
                && (Binary64 { bits: 0x3feb_3333_3333_3333 }).spec_le(r.total_score);
            let semantic: bool = (r.fired_regime == Some("semantic"@) || r.fired_regime == Some("knowledge"@)
                || r.fired_regime == Some("structural"@) || r.fired_regime == Some("narrative"@)) && (Binary64 {
                bits: 0x3fe1_9999_9999_999a,
            }).spec_le(r.total_score);
            let drift: bool = (Binary64 { bits: 0x3fd6_6666_6666_6666 }).spec_le(r.total_score);
            &&& r.classification == Classification::StrongMatch <==> strong
            &&& r.classification == Classification::SemanticMatch <==> semantic
            &&& r.classification == Classification::DriftMatch <==> drift && !strong && !semantic
            &&& r.classification == Classification::Novel <==> !drift
            &&& r.match_id == (if drift {
                Some(memory_id)
            } else {
                None
            })
        }),
{
    reveal_strlit("content");
    reveal_strlit("provenance");
    reveal_strlit("semantic");
    reveal_strlit("knowledge");
    reveal_strlit("structural");
    reveal_strlit("narrative");
    assert("provenance"@[0] != "structural"@[0]);
}

/// A pair has landed from a total of 0.9 on, falls from 0.5 on, and has crashed below.
pub proof fn the_status_is_decided_by_the_total(readings: Seq<ReadingModel>, memory_id: i64)
    ensures
        ({
            let r: RevisionModel = judged(readings, memory_id);
            let high: bool = (Binary64 { bits: 0x3fec_cccc_cccc_cccd }).spec_le(r.total_score);
            let middle: bool = (Binary64 { bits: 0x3fe0_0000_0000_0000 }).spec_le(r.total_score);
            &&& r.flight_status == FlightStatus::Landed <==> high
            &&& r.flight_status == FlightStatus::Falling <==> middle && !high
            &&& r.flight_status == FlightStatus::Crashed <==> !middle
        }),
{
}

/// The total is what the products of scores and weights add up to, one by one, over what
/// the weights add up to; zero where the weights come to no more than zero.
pub proof fn the_total_is_the_weighted_mean(readings: Seq<ReadingModel>, memory_id: i64)
    ensures
        ({
            let products: Seq<Binary64> = Seq::new(
                readings.len(),
                |i: int| readings[i].score.spec_times(readings[i].weight),
            );
            let weighed: Seq<Binary64> = Seq::new(readings.len(), |i: int| readings[i].weight);
            exists|sums: Seq<Binary64>, counts: Seq<Binary64>|
                {
                    &&& #[trigger] laws::are_running_sums(sums, Binary64 { bits: 0 }, products)
                    &&& #[trigger] laws::are_running_sums(counts, Binary64 { bits: 0 }, weighed)
                    &&& judged(readings, memory_id).total_score == (if (Binary64 { bits: 0 }).spec_lt(
                        counts.last(),
                    ) {
                        sums.last().spec_over(counts.last())
                    } else {
                        Binary64 { bits: 0 }
                    })
                }
        }),
{
    let n: nat = readings.len();
    let sums: Seq<Binary64> = Seq::new(n + 1, |i: int| weighted_sum(readings, i as nat));
    let counts: Seq<Binary64> = Seq::new(n + 1, |i: int| weights(readings, i as nat));
    let terms: Seq<Binary64> = Seq::new(n, |i: int| readings[i].score.spec_times(readings[i].weight));
    let weighed: Seq<Binary64> = Seq::new(n, |i: int| readings[i].weight);
    assert forall|i: int| 0 <= i < n implies #[trigger] sums[i + 1] == sums[i].spec_plus(terms[i]) by {}
    assert forall|i: int| 0 <= i < n implies #[trigger] counts[i + 1] == counts[i].spec_plus(weighed[i]) by {}
    assert(laws::are_running_sums(sums, Binary64 { bits: 0 }, terms));
    assert(laws::are_running_sums(counts, Binary64 { bits: 0 }, weighed));
}

/// Is `i` the last of the first `n` readings with the name of the entry, and is its score
/// that of the entry?
pub open spec fn is_last_of_its_name(
    readings: Seq<ReadingModel>,
    n: int,
    i: int,
    entry: (Seq<char>, Binary64),
) -> bool {
    &&& 0 <= i < n
    &&& readings[i].name == entry.0
    &&& readings[i].score == entry.1
    &&& forall|j: int| i < j < n ==> (#[trigger] readings[j]).name != entry.0
}

proof fn names_stand_once(readings: Seq<ReadingModel>, n: nat, x: int, y: int)
    requires
        n <= readings.len(),
        0 <= x < y < score_table(readings, n).len(),
    ensures
        score_table(readings, n)[x].0 != score_table(readings, n)[y].0,
    decreases n,
{
    let m: nat = (n - 1) as nat;
    let before: Seq<(Seq<char>, Binary64)> = score_table(readings, m);
    slot_holds_name(before, readings[m as int].name);
    if y < before.len() {
        names_stand_once(readings, m, x, y);
    }
}

proof fn entry_is_of_a_reading(readings: Seq<ReadingModel>, n: nat, x: int) -> (i: int)
    requires
        n <= readings.len(),
        0 <= x < score_table(readings, n).len(),
    ensures
        is_last_of_its_name(readings, n as int, i, score_table(readings, n)[x]),
    decreases n,
{
    let m: nat = (n - 1) as nat;
    let before: Seq<(Seq<char>, Binary64)> = score_table(readings, m);
    let table: Seq<(Seq<char>, Binary64)> = score_table(readings, n);
    let name: Seq<char> = readings[m as int].name;
    slot_holds_name(before, name);
    let at: int = slot(before, name) as int;
    if x == at {
        m as int
    } else {
        let i: int = entry_is_of_a_reading(readings, m, x);
        assert(table[at].0 == name);
        if x < at {
            names_stand_once(readings, n, x, at);
        } else {
            names_stand_once(readings, n, at, x);
        }
        i
    }
}

proof fn readings_have_an_entry(readings: Seq<ReadingModel>, n: nat, i: int) -> (x: int)
    requires
        0 <= i < n <= readings.len(),
    ensures
        0 <= x < score_table(readings, n).len(),
        score_table(readings, n)[x].0 == readings[i].name,
    decreases n,
{
    let m: nat = (n - 1) as nat;
    let before: Seq<(Seq<char>, Binary64)> = score_table(readings, m);
    slot_holds_name(before, readings[m as int].name);
    if i == m {
        slot(before, readings[i].name) as int
    } else {
        readings_have_an_entry(readings, m, i)
    }
}

/// A score stands under each name once, and it is what the last regime of that name said.
pub proof fn the_scores_are_those_of_the_regimes(readings: Seq<ReadingModel>, memory_id: i64, x: int)
    requires
        0 <= x < judged(readings, memory_id).regime_scores.len(),
    ensures
        exists|i: int|
            #[trigger] is_last_of_its_name(
                readings,
                readings.len() as int,
                i,
                judged(readings, memory_id).regime_scores[x],
            ),
        forall|y: int|
            0 <= y < judged(readings, memory_id).regime_scores.len() && y != x ==> (
            #[trigger] judged(readings, memory_id).regime_scores[y]).0 != judged(
                readings,
                memory_id,
            ).regime_scores[x].0,
{
    let table: Seq<(Seq<char>, Binary64)> = judged(readings, memory_id).regime_scores;
    let i: int = entry_is_of_a_reading(readings, readings.len(), x);
    assert(is_last_of_its_name(readings, readings.len() as int, i, table[x]));
    assert forall|y: int| 0 <= y < table.len() && y != x implies (#[trigger] table[y]).0 != table[x].0 by {
        if x < y {
            names_stand_once(readings, readings.len(), x, y);
        } else {
            names_stand_once(readings, readings.len(), y, x);
        }
    }
}

/// Every regime has a score under its name.
pub proof fn every_regime_has_a_score(readings: Seq<ReadingModel>, memory_id: i64, i: int)
    requires
        0 <= i < readings.len(),
    ensures
        exists|x: int|
            0 <= x < judged(readings, memory_id).regime_scores.len() && (
            #[trigger] judged(readings, memory_id).regime_scores[x]).0 == readings[i].name,
{
    let x: int = readings_have_an_entry(readings, readings.len(), i);
    assert(judged(readings, memory_id).regime_scores[x].0 == readings[i].name);
}

/// Does the score that stands under the name of a regime reach its threshold?
pub open spec fn reaches(scores: Seq<(Seq<char>, Binary64)>, r: ReadingModel) -> bool {
    exists|x: int|
        0 <= x < scores.len() && (#[trigger] scores[x]).0 == r.name && r.threshold.spec_le(scores[x].1)
}

/// The regime that fired is the first for which the score under its name reaches its
/// threshold, and none fired where that is so for none.
pub proof fn the_first_that_reaches_its_threshold_fires(readings: Seq<ReadingModel>, memory_id: i64)
    ensures
        ({
            let r: RevisionModel = judged(readings, memory_id);
            match r.fired_regime {
                Some(name) => exists|i: int|
                    {
                        &&& 0 <= i < readings.len()
                        &&& (#[trigger] readings[i]).name == name
                        &&& reaches(r.regime_scores, readings[i])
                        &&& forall|j: int| 0 <= j < i ==> !reaches(r.regime_scores, #[trigger] readings[j])
                    },
                None => forall|j: int|
                    0 <= j < readings.len() ==> !reaches(r.regime_scores, #[trigger] readings[j]),
            }
        }),
{
    let table: Seq<(Seq<char>, Binary64)> = score_table(readings, readings.len());
    the_first_regime_fires(readings, 0);
    assert forall|j: int| 0 <= j < readings.len() implies fires(table, readings[j]) == reaches(
        table,
        #[trigger] readings[j],
    ) by {
        fires_where_the_threshold_is_reached(readings, j);
    }
    if let Some(name) = judged(readings, memory_id).fired_regime {
        let i: int = choose|i: int|
            {
                &&& 0 <= i < readings.len()
                &&& #[trigger] fires(table, readings[i])
                &&& readings[i].name == name
                &&& forall|j: int| 0 <= j < i ==> !#[trigger] fires(table, readings[j])
            };
        assert(readings[i].name == name);
        assert forall|j: int| 0 <= j < i implies !reaches(table, #[trigger] readings[j]) by {
            assert(!fires(table, readings[j]));
        }
    } else {
        assert forall|j: int| 0 <= j < readings.len() implies !reaches(table, #[trigger] readings[j]) by {
            assert(!fires(table, readings[j]));
        }
    }
}

proof fn fires_where_the_threshold_is_reached(readings: Seq<ReadingModel>, j: int)
    requires
        0 <= j < readings.len(),
    ensures
        fires(score_table(readings, readings.len()), readings[j]) == reaches(
            score_table(readings, readings.len()),
            readings[j],
        ),
{
    let table: Seq<(Seq<char>, Binary64)> = score_table(readings, readings.len());
    slot_holds_name(table, readings[j].name);
    let at: int = slot(table, readings[j].name) as int;
    let x: int = readings_have_an_entry(readings, readings.len(), j);
    assert(at <= x);
    assert(table[at].0 == readings[j].name);
    if reaches(table, readings[j]) {
        let y: int = choose|y: int|
            0 <= y < table.len() && (#[trigger] table[y]).0 == readings[j].name
                && readings[j].threshold.spec_le(table[y].1);
        if y != at {
            names_stand_once(readings, readings.len(), at, y);
        }
    }
}

/// The explanation says what was found, which memory and which regime made it so, the total
/// with three digits, and the three highest scores, with two digits each.
pub proof fn the_explanation_names_what_was_found(readings: Seq<ReadingModel>, memory_id: i64)
    ensures
        ({
            let r: RevisionModel = judged(readings, memory_id);
            let keys: Seq<Binary64> = Seq::new(r.regime_scores.len(), |x: int| r.regime_scores[x].1);
            let of_memory: Seq<char> = integer(memory_id as int) + " (fired="@ + (match r.fired_regime {
                Some(name) => name,
                None => "none"@,
            }) + ", total="@;
            exists|at: Seq<int>|
                {
                    &&& #[trigger] ranking::are_highest(keys, 3, at)
                    &&& r.explanation == (match r.classification {
                        Classification::StrongMatch => "near-duplicate of #"@ + of_memory,
                        Classification::SemanticMatch => "revision of #"@ + of_memory,
                        Classification::DriftMatch => "drift from #"@ + of_memory,
                        Classification::Novel => "novel content (total="@,
                    }) + fixed(r.total_score, 3) + ", top: "@ + joined(
                        Seq::new(
                            at.len(),
                            |q: int| r.regime_scores[at[q]].0 + "="@ + fixed(r.regime_scores[at[q]].1, 2),
                        ),
                        ", "@,
                    ) + ")"@
                }
        }),
{
    let r: RevisionModel = judged(readings, memory_id);
    explanation_in_parts(r.classification, r.fired_regime, memory_id, r.regime_scores, r.total_score);
    let keys: Seq<Binary64> = Seq::new(r.regime_scores.len(), |x: int| r.regime_scores[x].1);
    assert(ranking::are_highest(keys, 3, top(keys, 3)));
}

#[verifier::rlimit(50)]
proof fn explanation_in_parts(
    class: Classification,
    fired: Option<Seq<char>>,
    memory_id: i64,
    table: Seq<(Seq<char>, Binary64)>,
    total: Binary64,
)
    ensures
        ({
            let keys: Seq<Binary64> = Seq::new(table.len(), |x: int| table[x].1);
            let at: Seq<int> = top(keys, 3);
            let of_memory: Seq<char> = integer(memory_id as int) + " (fired="@ + (match fired {
                Some(name) => name,
                None => "none"@,
            }) + ", total="@;
            &&& ranking::are_highest(keys, 3, at)
            &&& explanation_of(class, fired, memory_id, table, total) == (match class {
                Classification::StrongMatch => "near-duplicate of #"@ + of_memory,
                Classification::SemanticMatch => "revision of #"@ + of_memory,
                Classification::DriftMatch => "drift from #"@ + of_memory,
                Classification::Novel => "novel content (total="@,
            }) + fixed(total, 3) + ", top: "@ + joined(
                Seq::new(at.len(), |q: int| table[at[q]].0 + "="@ + fixed(table[at[q]].1, 2)),
                ", "@,
            ) + ")"@
        }),
{
    let keys: Seq<Binary64> = Seq::new(table.len(), |x: int| table[x].1);
    let at: Seq<int> = top(keys, 3);
    ranking::the_highest_are_taken(keys, 3);
    assert(table.map_values(|e: (Seq<char>, Binary64)| e.1) =~= keys);
    let shown: Seq<Seq<char>> = Seq::new(at.len(), |q: int| table[at[q]].0 + "="@ + fixed(table[at[q]].1, 2));
    assert(top_scores(table) =~= shown);
    let name: Seq<char> = match fired {
        Some(name) => name,
        None => "none"@,
    };
    let id: Seq<char> = integer(memory_id as int);
    let number: Seq<char> = fixed(total, 3);
    let scores: Seq<char> = joined(shown, ", "@);
    reveal_strlit(", ");
    reveal_strlit("total=");
    reveal_strlit(", total=");
    reveal_strlit("novel content (");
    reveal_strlit("novel content (total=");
    assert(", "@ + "total="@ =~= ", total="@);
    assert("novel content ("@ + "total="@ =~= "novel content (total="@);
    parts_in_a_row("near-duplicate of #"@, id, name, number, scores);
    parts_in_a_row("revision of #"@, id, name, number, scores);
    parts_in_a_row("drift from #"@, id, name, number, scores);
    assert("novel content ("@ + ("total="@ + number + ", top: "@ + scores + ")"@) =~= "novel content ("@
        + "total="@ + number + ", top: "@ + scores + ")"@);
}

proof fn parts_in_a_row(
    head: Seq<char>,
    id: Seq<char>,
    name: Seq<char>,
    number: Seq<char>,
    scores: Seq<char>,
)
    ensures
        head + id + " (fired="@ + name + ", "@ + ("total="@ + number + ", top: "@ + scores + ")"@) == head + (id
            + " (fired="@ + name + (", "@ + "total="@)) + number + ", top: "@ + scores + ")"@,
{
    assert(head + id + " (fired="@ + name + ", "@ + ("total="@ + number + ", top: "@ + scores + ")"@) =~= head + (
    id + " (fired="@ + name + (", "@ + "total="@)) + number + ", top: "@ + scores + ")"@);
}

/// A reading and a result say what stands in their fields.
pub proof fn results_say_what_they_hold(reading: Reading, r: RevisionResult, x: int)
    ensures
        reading@.name == reading.name@,
        reading@.score == reading.score,
        reading@.threshold == reading.threshold,
        reading@.weight == reading.weight,
        r@.match_id == r.match_id,
        r@.classification == r.classification,
        r@.flight_status == r.flight_status,
        r@.total_score == r.total_score,
        r@.explanation == r.explanation@,
        r.fired_regime is None <==> r@.fired_regime is None,
        r.fired_regime matches Some(name) ==> r@.fired_regime == Some(name@),
        r@.regime_scores.len() == r.regime_scores@.len(),
        0 <= x < r.regime_scores@.len() ==> r@.regime_scores[x].0 == r.regime_scores@[x].0@
            && r@.regime_scores[x].1 == r.regime_scores@[x].1,
{
}

/// Readings are judged as they stand, one by one.
pub proof fn readings_are_taken_as_they_stand(list: Seq<Reading>, i: int)
    requires
        0 <= i < list.len(),
    ensures
        reading_models(list).len() == list.len(),
        reading_models(list)[i] == list[i]@,
{
}

} // verus!
