//! Country-keyed datasets: joining two of them into derived scores and
//! rescaling the scores to the unit range.

use vstd::prelude::*;
use crate::error::GraphError;
use crate::fixed::{SCALE, span, scale_fraction};

verus! {

/// One row of a dataset: a country and its metric, in fixed-point units.
#[derive(Clone, Debug, PartialEq, Eq)]
pub struct MetricRecord {
    pub country: String,
    pub value: i64,
}

/// A country present in both datasets with its derived score.
#[derive(Clone, Debug, PartialEq, Eq)]
pub struct MergedRecord {
    pub country: String,
    pub score: i128,
}

/// A country with its score rescaled to `0..=SCALE`.
#[derive(Clone, Debug, PartialEq, Eq)]
pub struct NormalizedRecord {
    pub country: String,
    pub score: i64,
}

/// The value that `name` is keyed to: where a name occurs more than once,
/// the last row wins.
pub open spec fn lookup(rows: Seq<MetricRecord>, name: Seq<char>) -> Option<i64>
    decreases rows.len(),
{
    if rows.len() == 0 {
        None
    } else if rows.last().country@ == name {
        Some(rows.last().value)
    } else {
        lookup(rows.drop_last(), name)
    }
}

/// Fixed-point quotient of two positive fixed-point values, rounded down.
pub open spec fn ratio(primary: int, secondary: int) -> int {
    primary * SCALE / secondary
}

/// The score that a primary row gets against the secondary dataset: the
/// ratio of the two values where the key is in both and both are positive.
pub open spec fn derived(row: MetricRecord, secondary: Seq<MetricRecord>) -> Option<int> {
    match lookup(secondary, row.country@) {
        Some(s) => if row.value > 0 && s > 0 {
            Some(ratio(row.value as int, s as int))
        } else {
            None
        },
        None => None,
    }
}

/// The inner join of two datasets, in the order of the primary one.
pub open spec fn merged(primary: Seq<MetricRecord>, secondary: Seq<MetricRecord>) -> Seq<
    (Seq<char>, int),
>
    decreases primary.len(),
{
    if primary.len() == 0 {
        Seq::empty()
    } else {
        let rest = merged(primary.drop_last(), secondary);
        match derived(primary.last(), secondary) {
            Some(score) => rest.push((primary.last().country@, score)),
            None => rest,
        }
    }
}

/// A record that names a country and scores it.
pub trait Scored {
    /// The country.
    spec fn name(&self) -> Seq<char>;

    /// The score.
    spec fn points(&self) -> int;

    /// The country.
    fn country(&self) -> (country: &String)
        ensures
            country@ == self.name(),
    ;

    /// The score.
    fn score(&self) -> (score: i128)
        ensures
            score == self.points(),
    ;
}

impl Scored for MetricRecord {
    open spec fn name(&self) -> Seq<char> {
        self.country@
    }

    open spec fn points(&self) -> int {
        self.value as int
    }

    fn country(&self) -> (country: &String) {
        &self.country
    }

    fn score(&self) -> (score: i128) {
        self.value as i128
    }
}

impl Scored for MergedRecord {
    open spec fn name(&self) -> Seq<char> {
        self.country@
    }

    open spec fn points(&self) -> int {
        self.score as int
    }

    fn country(&self) -> (country: &String) {
        &self.country
    }

    fn score(&self) -> (score: i128) {
        self.score
    }
}

impl Scored for NormalizedRecord {
    open spec fn name(&self) -> Seq<char> {
        self.country@
    }

    open spec fn points(&self) -> int {
        self.score as int
    }

    fn country(&self) -> (country: &String) {
        &self.country
    }

    fn score(&self) -> (score: i128) {
        self.score as i128
    }
}

/// Countries and scores of records as plain values.
pub open spec fn record_view<R: Scored>(records: Seq<R>) -> Seq<(Seq<char>, int)> {
    Seq::new(records.len(), |i: int| (records[i].name(), records[i].points()))
}

/// Largest score a ratio of two `i64` values can reach.
pub open spec fn max_ratio() -> int {
    0x7fff_ffff_ffff_ffff * SCALE
}

/// Looks `name` up in `rows`; the last row with that name wins.
pub fn find_value(rows: &Vec<MetricRecord>, name: &String) -> (found: Option<i64>)
    ensures
        found == lookup(rows@, name@),
{
    let mut i: usize = rows.len();
    proof {
        assert(rows@.take(rows.len() as int) =~= rows@);
    }
    while i > 0
        invariant
            i <= rows.len(),
            lookup(rows@, name@) == lookup(rows@.take(i as int), name@),
        decreases i,
    {
        proof {
            let prefix = rows@.take(i as int);
            assert(prefix.last() == rows@[i - 1]);
            assert(prefix.drop_last() =~= rows@.take(i - 1));
        }
        if rows[i - 1].country == *name {
            return Some(rows[i - 1].value);
        }
        i -= 1;
    }
    proof {
        assert(rows@.take(0).len() == 0);
    }
    None
}

/// Joins two datasets by country. Each primary row whose country is also in
/// `secondary`, with both values positive, yields the ratio of primary to
/// secondary value; all other rows are dropped. The order is that of
/// `primary`.
pub fn merge(primary: &Vec<MetricRecord>, secondary: &Vec<MetricRecord>) -> (out: Vec<MergedRecord>)
    ensures
        record_view(out@) == merged(primary@, secondary@),
        forall|k: int| 0 <= k < out.len() ==> 0 <= #[trigger] out[k].score <= max_ratio(),
{
    let mut out: Vec<MergedRecord> = Vec::new();
    let mut i: usize = 0;
    proof {
        assert(primary@.take(0).len() == 0);
        assert(record_view(out@) =~= merged(primary@.take(0), secondary@));
    }
    while i < primary.len()
        invariant
            i <= primary.len(),
            record_view(out@) == merged(primary@.take(i as int), secondary@),
            forall|k: int| 0 <= k < out.len() ==> 0 <= #[trigger] out[k].score <= max_ratio(),
        decreases primary.len() - i,
    {
        let row = &primary[i];
        proof {
            let prefix = primary@.take(i + 1);
            assert(prefix.last() == primary@[i as int]);
            assert(prefix.drop_last() =~= primary@.take(i as int));
        }
        let ghost before = out@;
        match find_value(secondary, &row.country) {
            Some(s) => {
                if row.value > 0 && s > 0 {
                    let score = quotient(row.value, s);
                    out.push(MergedRecord { country: row.country.clone(), score });
                    proof {
                        assert(record_view(out@) =~= record_view(before).push(
                            (row.country@, score as int),
                        ));
                    }
                }
            },
            None => {},
        }
        i += 1;
    }
    proof {
        assert(primary@.take(primary.len() as int) =~= primary@);
    }
    out
}

/// Computes [`ratio`] for two positive values.
pub fn quotient(primary: i64, secondary: i64) -> (q: i128)
    requires
        primary > 0,
        secondary > 0,
    ensures
        q == ratio(primary as int, secondary as int),
        0 <= q <= max_ratio(),
{
    let p: u128 = primary as u128;
    let s: u128 = secondary as u128;
    let scaled: u128 = p * 1_000_000;
    let q: u128 = scaled / s;
    proof {
        assert(q <= scaled) by (nonlinear_arith)
            requires
                q == scaled / s,
                s >= 1,
        ;
    }
    q as i128
}

/// Smallest score of a non-empty sequence.
pub open spec fn least(scores: Seq<(Seq<char>, int)>) -> int
    decreases scores.len(),
{
    if scores.len() <= 1 {
        scores[0].1
    } else {
        let rest = least(scores.drop_last());
        if scores.last().1 < rest { scores.last().1 } else { rest }
    }
}

/// Largest score of a non-empty sequence.
pub open spec fn greatest(scores: Seq<(Seq<char>, int)>) -> int
    decreases scores.len(),
{
    if scores.len() <= 1 {
        scores[0].1
    } else {
        let rest = greatest(scores.drop_last());
        if scores.last().1 > rest { scores.last().1 } else { rest }
    }
}

/// Where `score` lies between `lo` and `hi`, as a fixed-point fraction
/// rounded down.
pub open spec fn rescaled(score: int, lo: int, hi: int) -> int {
    (score - lo) * SCALE / (hi - lo)
}

/// Every score rescaled against the smallest and largest of them.
pub open spec fn normalized(scores: Seq<(Seq<char>, int)>) -> Seq<(Seq<char>, int)> {
    Seq::new(
        scores.len(),
        |i: int| (scores[i].0, rescaled(scores[i].1, least(scores), greatest(scores))),
    )
}

/// `least` is a lower bound that some entry attains, and `greatest` an
/// upper bound that some entry attains.
pub proof fn lemma_extremes(scores: Seq<(Seq<char>, int)>)
    requires
        scores.len() > 0,
    ensures
        forall|k: int| 0 <= k < scores.len() ==> least(scores) <= (#[trigger] scores[k]).1 <= greatest(scores),
        exists|k: int| 0 <= k < scores.len() && (#[trigger] scores[k]).1 == least(scores),
        exists|k: int| 0 <= k < scores.len() && (#[trigger] scores[k]).1 == greatest(scores),
    decreases scores.len(),
{
    if scores.len() <= 1 {
        assert(scores[0].1 == least(scores));
        assert(scores[0].1 == greatest(scores));
    } else {
        let front = scores.drop_last();
        lemma_extremes(front);
        let last = scores.len() - 1;
        assert forall|k: int| 0 <= k < scores.len() implies least(scores) <= (#[trigger] scores[k]).1
            <= greatest(scores) by {
            if k < last {
                assert(front[k] == scores[k]);
            }
        }
        let a = choose|k: int| 0 <= k < front.len() && (#[trigger] front[k]).1 == least(front);
        let b = choose|k: int| 0 <= k < front.len() && (#[trigger] front[k]).1 == greatest(front);
        assert(front[a] == scores[a]);
        assert(front[b] == scores[b]);
        if scores.last().1 < least(front) {
            assert(scores[last].1 == least(scores));
        } else {
            assert(scores[a].1 == least(scores));
        }
        if scores.last().1 > greatest(front) {
            assert(scores[last].1 == greatest(scores));
        } else {
            assert(scores[b].1 == greatest(scores));
        }
    }
}

/// A rescaled score lies in the unit range.
pub proof fn lemma_rescaled_in_unit_range(score: int, lo: int, hi: int)
    requires
        lo <= score <= hi,
        lo < hi,
    ensures
        0 <= rescaled(score, lo, hi) <= SCALE,
{
    let num = score - lo;
    let den = hi - lo;
    assert(0 <= num * 1_000_000 / den <= 1_000_000) by (nonlinear_arith)
        requires
            0 <= num <= den,
            0 < den,
    ;
}

/// Rescales the scores to `0..=SCALE` against their smallest and largest
/// value, keeping the order of the records. An empty input gives an empty
/// output. Where all scores are equal there is no range to rescale to, and
/// the result is [`GraphError::DegenerateDataset`].
pub fn normalize(records: &Vec<MergedRecord>) -> (r: Result<Vec<NormalizedRecord>, GraphError>)
    ensures
        match r {
            Ok(out) => {
                &&& records.len() > 0 ==> least(record_view(records@)) < greatest(record_view(records@))
                &&& record_view(out@) == normalized(record_view(records@))
                &&& forall|k: int| 0 <= k < out.len() ==> 0 <= #[trigger] out[k].score <= SCALE
            },
            Err(e) => {
                &&& e == GraphError::DegenerateDataset
                &&& records.len() > 0
                &&& least(record_view(records@)) == greatest(record_view(records@))
            },
        },
{
    let n = records.len();
    let ghost scores = record_view(records@);
    if n == 0 {
        let out: Vec<NormalizedRecord> = Vec::new();
        proof {
            assert(record_view(out@) =~= normalized(scores));
        }
        return Ok(out);
    }
    let mut lo: i128 = records[0].score;
    let mut hi: i128 = records[0].score;
    let mut i: usize = 1;
    proof {
        assert(scores.take(1).len() == 1);
    }
    while i < n
        invariant
            1 <= i <= n,
            n == records.len(),
            scores == record_view(records@),
            lo == least(scores.take(i as int)),
            hi == greatest(scores.take(i as int)),
        decreases n - i,
    {
        proof {
            let prefix = scores.take(i + 1);
            assert(prefix.last() == scores[i as int]);
            assert(prefix.drop_last() =~= scores.take(i as int));
        }
        let score = records[i].score;
        if score < lo {
            lo = score;
        }
        if score > hi {
            hi = score;
        }
        i += 1;
    }
    proof {
        assert(scores.take(n as int) =~= scores);
        lemma_extremes(scores);
    }
    if lo == hi {
        return Err(GraphError::DegenerateDataset);
    }
    let range: u128 = span(hi, lo);
    let mut out: Vec<NormalizedRecord> = Vec::new();
    let mut j: usize = 0;
    while j < n
        invariant
            j <= n,
            n == records.len(),
            out.len() == j,
            scores == record_view(records@),
            lo == least(scores),
            hi == greatest(scores),
            lo < hi,
            range == hi - lo,
            forall|k: int| 0 <= k < scores.len() ==> lo <= (#[trigger] scores[k]).1 <= hi,
            forall|k: int| 0 <= k < j ==> (#[trigger] out[k]).country@ == records[k].country@,
            forall|k: int| 0 <= k < j ==> (#[trigger] out[k]).score == rescaled(records[k].score as int, lo as int, hi as int),
            forall|k: int| 0 <= k < j ==> 0 <= (#[trigger] out[k]).score <= SCALE,
        decreases n - j,
    {
        let score = records[j].score;
        proof {
            assert(scores[j as int].1 == score);
            lemma_rescaled_in_unit_range(score as int, lo as int, hi as int);
        }
        let scaled = scale_fraction(span(score, lo), range);
        out.push(NormalizedRecord { country: records[j].country.clone(), score: scaled });
        j += 1;
    }
    proof {
        assert(record_view(out@) =~= normalized(scores));
    }
    Ok(out)
}

/// The countries of a dataset, row by row.
pub open spec fn countries(rows: Seq<MetricRecord>) -> Seq<Seq<char>> {
    Seq::new(rows.len(), |i: int| rows[i].country@)
}

/// The countries of a join, entry by entry.
pub open spec fn merged_countries(entries: Seq<(Seq<char>, int)>) -> Seq<Seq<char>> {
    Seq::new(entries.len(), |k: int| entries[k].0)
}

/// Number of rows with a positive value.
pub open spec fn positive_rows(rows: Seq<MetricRecord>) -> nat
    decreases rows.len(),
{
    if rows.len() == 0 {
        0
    } else {
        positive_rows(rows.drop_last()) + if rows.last().value > 0 {
            1nat
        } else {
            0nat
        }
    }
}

/// A value that is looked up belongs to a row of that name, and a name
/// that some row has is found.
pub proof fn lemma_lookup(rows: Seq<MetricRecord>, name: Seq<char>)
    ensures
        lookup(rows, name) is Some <==> countries(rows).contains(name),
        lookup(rows, name) is Some ==> exists|j: int|
            0 <= j < rows.len() && (#[trigger] rows[j]).country@ == name && rows[j].value == lookup(
                rows,
                name,
            )->0,
    decreases rows.len(),
{
    if rows.len() > 0 {
        let front = rows.drop_last();
        let last = rows.len() - 1;
        lemma_lookup(front, name);
        if rows.last().country@ == name {
            assert(countries(rows)[last] == name);
            assert(rows[last].country@ == name);
        } else {
            if lookup(front, name) is Some {
                let j = choose|j: int|
                    0 <= j < front.len() && (#[trigger] front[j]).country@ == name && front[j].value
                        == lookup(front, name)->0;
                assert(rows[j] == front[j]);
                assert(countries(rows)[j] == name);
            }
            if countries(rows).contains(name) {
                let j = choose|j: int| 0 <= j < rows.len() && countries(rows)[j] == name;
                assert(countries(front)[j] == name);
            }
        }
    }
}

/// The join is an inner join: each entry names a country of a primary row
/// with a positive value, scored against the secondary dataset, and the
/// secondary dataset has a row of that country with a positive value.
pub proof fn lemma_merged_in_both(primary: Seq<MetricRecord>, secondary: Seq<MetricRecord>)
    ensures
        forall|k: int|
            0 <= k < merged(primary, secondary).len() ==> {
                &&& countries(primary).contains((#[trigger] merged(primary, secondary)[k]).0)
                &&& countries(secondary).contains(merged(primary, secondary)[k].0)
                &&& exists|i: int|
                    0 <= i < primary.len() && (#[trigger] primary[i]).country@ == merged(
                        primary,
                        secondary,
                    )[k].0 && primary[i].value > 0 && derived(primary[i], secondary) == Some(
                        merged(primary, secondary)[k].1,
                    )
                &&& exists|j: int|
                    0 <= j < secondary.len() && (#[trigger] secondary[j]).country@ == merged(
                        primary,
                        secondary,
                    )[k].0 && secondary[j].value > 0
            },
    decreases primary.len(),
{
    let all = merged(primary, secondary);
    if primary.len() > 0 {
        let front = primary.drop_last();
        let last = primary.len() - 1;
        let rest = merged(front, secondary);
        lemma_merged_in_both(front, secondary);
        assert forall|k: int| 0 <= k < all.len() implies {
            &&& countries(primary).contains((#[trigger] all[k]).0)
            &&& countries(secondary).contains(all[k].0)
            &&& exists|i: int|
                0 <= i < primary.len() && (#[trigger] primary[i]).country@ == all[k].0
                    && primary[i].value > 0 && derived(primary[i], secondary) == Some(all[k].1)
            &&& exists|j: int|
                0 <= j < secondary.len() && (#[trigger] secondary[j]).country@ == all[k].0
                    && secondary[j].value > 0
        } by {
            if k < rest.len() {
                assert(all[k] == rest[k]);
                let i = choose|i: int|
                    0 <= i < front.len() && (#[trigger] front[i]).country@ == rest[k].0
                        && front[i].value > 0 && derived(front[i], secondary) == Some(rest[k].1);
                assert(primary[i] == front[i]);
                assert(countries(primary)[i] == all[k].0);
            } else {
                assert(all[k].0 == primary[last].country@);
                assert(countries(primary)[last] == all[k].0);
                lemma_lookup(secondary, primary[last].country@);
            }
        }
    }
}

/// The join has no more entries than the primary dataset has rows with a
/// positive value.
pub proof fn lemma_merged_within_primary(primary: Seq<MetricRecord>, secondary: Seq<MetricRecord>)
    ensures
        merged(primary, secondary).len() <= positive_rows(primary) <= primary.len(),
    decreases primary.len(),
{
    if primary.len() > 0 {
        lemma_merged_within_primary(primary.drop_last(), secondary);
    }
}

/// Where no country occurs twice in the primary dataset, none occurs
/// twice in the join.
pub proof fn lemma_merged_distinct(primary: Seq<MetricRecord>, secondary: Seq<MetricRecord>)
    requires
        countries(primary).no_duplicates(),
    ensures
        merged_countries(merged(primary, secondary)).no_duplicates(),
    decreases primary.len(),
{
    let all = merged(primary, secondary);
    if primary.len() > 0 {
        let front = primary.drop_last();
        let last = primary.len() - 1;
        let rest = merged(front, secondary);
        assert forall|i: int, j: int| 0 <= i < front.len() && 0 <= j < front.len() && i != j implies countries(
            front,
        )[i] != countries(front)[j] by {
            assert(countries(primary)[i] != countries(primary)[j]);
        }
        lemma_merged_distinct(front, secondary);
        lemma_merged_in_both(front, secondary);
        assert forall|a: int, b: int| 0 <= a < all.len() && 0 <= b < all.len() && a != b implies merged_countries(
            all,
        )[a] != merged_countries(all)[b] by {
            if a < rest.len() && b < rest.len() {
                assert(merged_countries(rest)[a] != merged_countries(rest)[b]);
            } else {
                let old = if a < rest.len() { a } else { b };
                assert(countries(front).contains(rest[old].0));
                let i = choose|i: int| 0 <= i < front.len() && countries(front)[i] == rest[old].0;
                assert(countries(primary)[i] != countries(primary)[last]);
            }
        }
    }
}

/// Where no country occurs twice in the primary dataset, the join has no
/// more entries than the secondary dataset has rows.
pub proof fn lemma_merged_within_secondary(
    primary: Seq<MetricRecord>,
    secondary: Seq<MetricRecord>,
)
    requires
        countries(primary).no_duplicates(),
    ensures
        merged(primary, secondary).len() <= secondary.len(),
{
    let names = merged_countries(merged(primary, secondary));
    let offered = countries(secondary);
    lemma_merged_distinct(primary, secondary);
    lemma_merged_in_both(primary, secondary);
    names.unique_seq_to_set();
    offered.lemma_cardinality_of_set();
    vstd::seq_lib::seq_to_set_is_finite(offered);
    assert(names.to_set().subset_of(offered.to_set())) by {
        assert forall|name: Seq<char>| names.to_set().contains(name) implies offered.to_set().contains(
            name,
        ) by {
            let k = choose|k: int| 0 <= k < names.len() && names[k] == name;
            assert(countries(secondary).contains(merged(primary, secondary)[k].0));
        }
    }
    vstd::set_lib::lemma_len_subset(names.to_set(), offered.to_set());
}

/// Rescaled scores lie in the unit range, the smallest at zero and the
/// largest at one whole, unless all scores are the same.
pub proof fn lemma_normalized_in_unit_range(scores: Seq<(Seq<char>, int)>)
    requires
        scores.len() > 0,
        least(scores) < greatest(scores),
    ensures
        normalized(scores).len() == scores.len(),
        forall|k: int|
            0 <= k < scores.len() ==> {
                &&& (#[trigger] normalized(scores)[k]).0 == scores[k].0
                &&& 0 <= normalized(scores)[k].1 <= SCALE
                &&& scores[k].1 == least(scores) ==> normalized(scores)[k].1 == 0
                &&& scores[k].1 == greatest(scores) ==> normalized(scores)[k].1 == SCALE
            },
{
    lemma_extremes(scores);
    let lo = least(scores);
    let hi = greatest(scores);
    assert forall|k: int| 0 <= k < scores.len() implies {
        &&& (#[trigger] normalized(scores)[k]).0 == scores[k].0
        &&& 0 <= normalized(scores)[k].1 <= SCALE
        &&& scores[k].1 == least(scores) ==> normalized(scores)[k].1 == 0
        &&& scores[k].1 == greatest(scores) ==> normalized(scores)[k].1 == SCALE
    } by {
        lemma_rescaled_in_unit_range(scores[k].1, lo, hi);
        let den = hi - lo;
        assert(0int * 1_000_000 / den == 0) by (nonlinear_arith)
            requires
                den > 0,
        ;
        assert(den * 1_000_000 / den == 1_000_000) by (nonlinear_arith)
            requires
                den > 0,
        ;
    }
}

} // verus!
