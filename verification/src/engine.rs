//! All-pairs comparison of two ordered lists of records.
//!
//! A comparison scores each pair that [`cells`] lists and keeps the pairs
//! whose score reaches the threshold, by ascending row and within a row by
//! ascending column.
//!
//! [`compare`] does all rows in turn. A caller that works on several threads
//! calls [`compare_row`] for each row and joins what comes back with
//! [`merge_rows`]; [`lemma_merged_rows_are_hits`] says that both ways give
//! the same list. [`select_row`] is the part of a row's work that follows
//! the scoring.

use crate::digest::record_views;
use crate::digest::DigestRecord;
use crate::digest::RecordView;
use crate::score::score;
use crate::score::score_of;
use crate::text::decimal;
use crate::text::decimal3;
use crate::text::push_decimal3;
use vstd::prelude::*;
use vstd::seq_lib::lemma_no_dup_in_concat;
use vstd::string::StringExecFns;

verus! {

/// One comparison that reached the threshold.
#[derive(Debug, Clone, PartialEq, Eq)]
pub struct SimilarityResult {
    pub name_a: String,
    pub name_b: String,
    pub score: u32,
}

/// What a result is, mathematically.
pub struct ResultView {
    pub name_a: Seq<char>,
    pub name_b: Seq<char>,
    pub score: u32,
}

impl View for SimilarityResult {
    type V = ResultView;

    open spec fn view(&self) -> ResultView {
        ResultView { name_a: self.name_a@, name_b: self.name_b@, score: self.score }
    }
}

/// The views of a list of results.
pub open spec fn result_views(results: Seq<SimilarityResult>) -> Seq<ResultView> {
    results.map_values(|r: SimilarityResult| r@)
}

/// The names of a list of records, given by their views.
pub open spec fn names_in(records: Seq<RecordView>) -> Seq<Seq<char>> {
    records.map_values(|r: RecordView| r.name)
}

/// The names of a list of records.
pub open spec fn names_of(records: Seq<DigestRecord>) -> Seq<Seq<char>> {
    names_in(record_views(records))
}

// What a comparison is.

/// The first column that is compared in a row. When a list is compared with
/// itself, row `i` starts behind the diagonal, at column `i + 1`; otherwise
/// every row starts at column 0.
pub open spec fn first_column(row: int, columns: int, same: bool) -> int {
    if !same {
        0
    } else if row + 1 < columns {
        row + 1
    } else {
        columns
    }
}

/// The pairs of one row that are compared, by ascending column.
pub open spec fn row_cells(row: int, columns: int, same: bool) -> Seq<(int, int)> {
    let start = first_column(row, columns, same);
    Seq::new((columns - start) as nat, |k: int| (row, start + k))
}

/// The pairs of the first `rows` rows that are compared: by ascending row,
/// and within a row by ascending column.
pub open spec fn cells(rows: int, columns: int, same: bool) -> Seq<(int, int)>
    decreases rows,
{
    if rows <= 0 {
        Seq::empty()
    } else {
        cells(rows - 1, columns, same) + row_cells(rows - 1, columns, same)
    }
}

/// A table has one row for each record of the first list, and each row has
/// one score for each pair of [`row_cells`].
pub open spec fn table_shape(table: Seq<Seq<u32>>, rows: int, columns: int, same: bool) -> bool {
    &&& table.len() == rows
    &&& forall|i: int|
        0 <= i < rows ==> (#[trigger] table[i]).len() == columns - first_column(i, columns, same)
}

/// The score that the table holds for a pair.
pub open spec fn score_at(table: Seq<Seq<u32>>, columns: int, same: bool, cell: (int, int)) -> u32 {
    table[cell.0][cell.1 - first_column(cell.0, columns, same)]
}

/// The scores of one record against the records of `others` from column
/// `start` on.
pub open spec fn score_row(left: RecordView, others: Seq<RecordView>, start: int) -> Seq<u32> {
    Seq::new((others.len() - start) as nat, |k: int| score_of(left, others[start + k]))
}

/// The scores of a comparison: a row for each record of `a`, with the
/// scores of that record against the records of `b` that it is compared
/// with.
pub open spec fn score_table(a: Seq<RecordView>, b: Seq<RecordView>, same: bool) -> Seq<
    Seq<u32>,
> {
    Seq::new(a.len(), |i: int| score_row(a[i], b, first_column(i, b.len() as int, same)))
}

/// Whether a pair's score reaches the threshold.
pub open spec fn reaches(table: Seq<Seq<u32>>, columns: int, same: bool, threshold: u32) -> spec_fn(
    (int, int),
) -> bool {
    |cell: (int, int)| score_at(table, columns, same, cell) >= threshold
}

/// The result that stands for a pair.
pub open spec fn result_of(
    names_a: Seq<Seq<char>>,
    names_b: Seq<Seq<char>>,
    table: Seq<Seq<u32>>,
    same: bool,
) -> spec_fn((int, int)) -> ResultView {
    |cell: (int, int)|
        ResultView {
            name_a: names_a[cell.0],
            name_b: names_b[cell.1],
            score: score_at(table, names_b.len() as int, same, cell),
        }
}

/// The pairs, among the given ones, whose score reaches the threshold.
pub open spec fn selected_from(
    pairs: Seq<(int, int)>,
    table: Seq<Seq<u32>>,
    columns: int,
    same: bool,
    threshold: u32,
) -> Seq<(int, int)> {
    pairs.filter(reaches(table, columns, same, threshold))
}

/// The pairs of a comparison whose score reaches the threshold, in the order
/// of [`cells`].
pub open spec fn selected(
    table: Seq<Seq<u32>>,
    rows: int,
    columns: int,
    same: bool,
    threshold: u32,
) -> Seq<(int, int)> {
    selected_from(cells(rows, columns, same), table, columns, same, threshold)
}

/// The results for the given pairs.
pub open spec fn hits_from(
    pairs: Seq<(int, int)>,
    names_a: Seq<Seq<char>>,
    names_b: Seq<Seq<char>>,
    table: Seq<Seq<u32>>,
    same: bool,
    threshold: u32,
) -> Seq<ResultView> {
    selected_from(pairs, table, names_b.len() as int, same, threshold).map_values(
        result_of(names_a, names_b, table, same),
    )
}

/// The results of a comparison: one for each pair of [`selected`], in that
/// order.
pub open spec fn hits(
    names_a: Seq<Seq<char>>,
    names_b: Seq<Seq<char>>,
    table: Seq<Seq<u32>>,
    same: bool,
    threshold: u32,
) -> Seq<ResultView> {
    hits_from(
        cells(names_a.len() as int, names_b.len() as int, same),
        names_a,
        names_b,
        table,
        same,
        threshold,
    )
}

/// The results of comparing the records of `a` with those of `b`: the pairs
/// of [`cells`] whose score reaches the threshold, in that order, each with
/// its two names and its score.
pub open spec fn comparison(
    a: Seq<RecordView>,
    b: Seq<RecordView>,
    same: bool,
    threshold: u32,
) -> Seq<ResultView> {
    hits(names_in(a), names_in(b), score_table(a, b, same), same, threshold)
}

/// Whether a result's score is at least `threshold`.
pub open spec fn scores_at_least(threshold: u32) -> spec_fn(ResultView) -> bool {
    |result: ResultView| result.score >= threshold
}

/// One result for each score of a row: the name of the row's record, the
/// name of the record in the score's column, and the score. The first score
/// belongs to column `start`.
pub open spec fn row_candidates(
    name_a: Seq<char>,
    names_b: Seq<Seq<char>>,
    start: int,
    scores: Seq<u32>,
) -> Seq<ResultView> {
    Seq::new(
        scores.len(),
        |k: int| ResultView { name_a, name_b: names_b[start + k], score: scores[k] },
    )
}

/// The results of one row: its candidates whose score reaches the
/// threshold, by ascending column.
pub open spec fn row_hits(
    name_a: Seq<char>,
    names_b: Seq<Seq<char>>,
    start: int,
    scores: Seq<u32>,
    threshold: u32,
) -> Seq<ResultView> {
    row_candidates(name_a, names_b, start, scores).filter(scores_at_least(threshold))
}

/// The results of each row of a comparison.
pub open spec fn hits_by_row(
    names_a: Seq<Seq<char>>,
    names_b: Seq<Seq<char>>,
    table: Seq<Seq<u32>>,
    same: bool,
    threshold: u32,
) -> Seq<Seq<ResultView>> {
    Seq::new(
        names_a.len(),
        |i: int|
            row_hits(
                names_a[i],
                names_b,
                first_column(i, names_b.len() as int, same),
                table[i],
                threshold,
            ),
    )
}

/// The lists of results that a list of rows holds.
pub open spec fn row_views(rows: Seq<Vec<SimilarityResult>>) -> Seq<Seq<SimilarityResult>> {
    rows.map_values(|row: Vec<SimilarityResult>| row@)
}

/// The views of the results of each row.
pub open spec fn views_by_row(rows: Seq<Vec<SimilarityResult>>) -> Seq<Seq<ResultView>> {
    rows.map_values(|row: Vec<SimilarityResult>| result_views(row@))
}

/// The line that reports a result: the two names and the score, separated
/// by `|`, the score with zeros in front up to three digits.
pub open spec fn result_line(result: ResultView) -> Seq<char> {
    result.name_a + seq!['|'] + result.name_b + seq!['|'] + decimal3(result.score as nat)
}

// What the engine does.

/// The column at which the caller starts to score a row.
pub fn row_start(row: usize, columns: usize, same: bool) -> (start: usize)
    ensures
        start == first_column(row as int, columns as int, same),
        start <= columns,
{
    if !same {
        0
    } else if row < columns {
        row + 1
    } else {
        columns
    }
}

/// Given the scores of one record against the records of `others` from
/// column `start` on, returns the pairs whose score is at least `threshold`,
/// by ascending column.
pub fn select_row(
    left: &DigestRecord,
    others: &Vec<DigestRecord>,
    start: usize,
    scores: &Vec<u32>,
    threshold: u32,
) -> (results: Vec<SimilarityResult>)
    requires
        start + scores.len() == others.len(),
    ensures
        result_views(results@) == row_hits(
            left@.name,
            names_of(others@),
            start as int,
            scores@,
            threshold,
        ),
{
    let ghost candidates = row_candidates(left@.name, names_of(others@), start as int, scores@);
    let ghost keep = scores_at_least(threshold);
    let mut results: Vec<SimilarityResult> = Vec::new();
    let mut k: usize = 0;
    proof {
        reveal(Seq::filter);
        assert(candidates.take(0) =~= Seq::<ResultView>::empty());
        assert(result_views(results@) =~= candidates.take(0).filter(keep));
    }
    while k < scores.len()
        invariant
            k <= scores.len(),
            start + scores.len() == others.len(),
            candidates == row_candidates(left@.name, names_of(others@), start as int, scores@),
            keep == scores_at_least(threshold),
            result_views(results@) == candidates.take(k as int).filter(keep),
        decreases scores.len() - k,
    {
        let score = scores[k];
        let ghost before = result_views(results@);
        proof {
            reveal(Seq::filter);
            assert(candidates.take(k + 1).drop_last() =~= candidates.take(k as int));
            assert(candidates.take(k + 1).last() == candidates[k as int]);
        }
        if score >= threshold {
            let result = SimilarityResult {
                name_a: left.name().clone(),
                name_b: others[start + k].name().clone(),
                score,
            };
            assert(result@ == candidates[k as int]);
            results.push(result);
            assert(result_views(results@) =~= before.push(candidates[k as int]));
        }
        k += 1;
    }
    assert(candidates.take(k as int) =~= candidates);
    results
}

/// Joins the results of the rows, in the order of the rows.
pub fn merge_rows(rows: Vec<Vec<SimilarityResult>>) -> (merged: Vec<SimilarityResult>)
    ensures
        merged@ == row_views(rows@).flatten(),
        result_views(merged@) == views_by_row(rows@).flatten(),
{
    let ghost lists = row_views(rows@);
    let ghost owned = rows@;
    let mut merged: Vec<SimilarityResult> = Vec::new();
    assert(lists.take(0) =~= Seq::<Seq<SimilarityResult>>::empty());
    for row in it: rows
        invariant
            it.seq() == owned,
            lists == row_views(owned),
            merged@ == lists.take(it.index() as int).flatten(),
    {
        let mut row = row;
        proof {
            lemma_flatten_take_next(lists, it.index() as int);
        }
        merged.append(&mut row);
    }
    assert(lists.take(lists.len() as int) =~= lists);
    proof {
        lemma_views_of_joined_rows(owned);
    }
    merged
}

/// Compares one record with the records of `others` from column `start` on,
/// and returns the pairs whose score is at least `threshold`, by ascending
/// column.
pub fn compare_row(
    left: &DigestRecord,
    others: &Vec<DigestRecord>,
    start: usize,
    threshold: u32,
) -> (results: Vec<SimilarityResult>)
    requires
        start <= others.len(),
    ensures
        result_views(results@) == row_hits(
            left@.name,
            names_of(others@),
            start as int,
            score_row(left@, record_views(others@), start as int),
            threshold,
        ),
        forall|k: int| 0 <= k < results.len() ==> threshold <= (#[trigger] results[k]).score <= 100,
{
    let ghost row = score_row(left@, record_views(others@), start as int);
    let mut scores: Vec<u32> = Vec::new();
    let mut column: usize = start;
    while column < others.len()
        invariant
            start <= column <= others.len(),
            row == score_row(left@, record_views(others@), start as int),
            scores.len() == column - start,
            forall|k: int| 0 <= k < scores.len() ==> #[trigger] scores[k] == row[k] && row[k] <= 100,
        decreases others.len() - column,
    {
        scores.push(score(left, &others[column]));
        column += 1;
    }
    assert(scores@ =~= row);
    let results = select_row(left, others, start, &scores, threshold);
    proof {
        let candidates = row_candidates(left@.name, names_of(others@), start as int, row);
        let found = result_views(results@);
        assert forall|k: int| 0 <= k < results.len() implies threshold <= (
        #[trigger] results[k]).score <= 100 by {
            assert(found[k] == results[k]@);
            candidates.lemma_filter_pred(scores_at_least(threshold), k);
            assert(found.contains(found[k]));
            candidates.lemma_filter_contains_rev(scores_at_least(threshold), found[k]);
            let at = choose|at: int| 0 <= at < candidates.len() && candidates[at] == found[k];
            assert(candidates[at].score == row[at]);
        }
    }
    results
}

/// Compares the records of `a` with those of `b` and returns the pairs whose
/// score is at least `threshold`: by ascending row, and within a row by
/// ascending column.
///
/// With `same` set, `b` is the list `a` itself and only the pairs above the
/// diagonal are looked at.
pub fn compare(
    a: &Vec<DigestRecord>,
    b: &Vec<DigestRecord>,
    same: bool,
    threshold: u32,
) -> (results: Vec<SimilarityResult>)
    ensures
        result_views(results@) == comparison(record_views(a@), record_views(b@), same, threshold),
        forall|k: int| 0 <= k < results.len() ==> threshold <= (#[trigger] results[k]).score <= 100,
        !same && threshold == 0 ==> results.len() == a.len() * b.len(),
{
    let ghost names_a = names_of(a@);
    let ghost names_b = names_of(b@);
    let ghost table = score_table(record_views(a@), record_views(b@), same);
    let columns = b.len();
    let mut results: Vec<SimilarityResult> = Vec::new();
    let mut i: usize = 0;
    proof {
        lemma_score_table_shape(record_views(a@), record_views(b@), same);
        reveal(Seq::filter);
        assert(result_views(results@) =~= hits_from(
            cells(0, columns as int, same),
            names_a,
            names_b,
            table,
            same,
            threshold,
        ));
    }
    while i < a.len()
        invariant
            i <= a.len(),
            columns == b.len(),
            names_a == names_of(a@),
            names_b == names_of(b@),
            table == score_table(record_views(a@), record_views(b@), same),
            table_shape(table, a.len() as int, columns as int, same),
            result_views(results@) == hits_from(
                cells(i as int, columns as int, same),
                names_a,
                names_b,
                table,
                same,
                threshold,
            ),
            forall|k: int|
                0 <= k < results.len() ==> threshold <= (#[trigger] results[k]).score <= 100,
        decreases a.len() - i,
    {
        let start = row_start(i, columns, same);
        let mut row = compare_row(&a[i], b, start, threshold);
        proof {
            assert(table[i as int] == score_row(a[i as int]@, record_views(b@), start as int));
            lemma_hits_from_add(
                cells(i as int, columns as int, same),
                row_cells(i as int, columns as int, same),
                names_a,
                names_b,
                table,
                same,
                threshold,
            );
            lemma_hits_of_row(names_a, names_b, table, same, threshold, i as int);
        }
        let ghost before = results@;
        let ghost added = row@;
        results.append(&mut row);
        assert(result_views(results@) =~= result_views(before) + result_views(added));
        i += 1;
    }
    proof {
        if !same && threshold == 0 {
            lemma_cross_compare_count(names_a, names_b, table);
        }
    }
    results
}

/// Writes a result as a line of text, without a line terminator.
pub fn format_result(result: &SimilarityResult) -> (line: String)
    ensures
        line@ == result_line(result@),
{
    proof {
        reveal_strlit("|");
    }
    let mut line = result.name_a.clone();
    line.append("|");
    line.append(result.name_b.as_str());
    line.append("|");
    push_decimal3(&mut line, result.score);
    assert(line@ =~= result_line(result@));
    line
}

// What holds of every comparison.

/// The scores of a comparison have the shape of a table.
pub proof fn lemma_score_table_shape(a: Seq<RecordView>, b: Seq<RecordView>, same: bool)
    ensures
        table_shape(score_table(a, b, same), a.len() as int, b.len() as int, same),
{
}

/// The line of a result with score 100 ends in `|100`.
pub proof fn lemma_line_of_score_100(name_a: Seq<char>, name_b: Seq<char>)
    ensures
        result_line(ResultView { name_a, name_b, score: 100 }) == name_a + seq!['|'] + name_b
            + seq!['|', '1', '0', '0'],
{
    reveal_with_fuel(decimal, 3);
    assert(decimal(100) =~= seq!['1', '0', '0']);
    assert(result_line(ResultView { name_a, name_b, score: 100 }) =~= name_a + seq!['|'] + name_b
        + seq!['|', '1', '0', '0']);
}

/// Two records that hold the same hashes, and at least one, are reported
/// with score 100 wherever they are compared and the threshold is at most
/// 100.
pub proof fn lemma_equal_digests_are_reported(
    a: Seq<RecordView>,
    b: Seq<RecordView>,
    same: bool,
    threshold: u32,
    i: int,
    j: int,
)
    requires
        0 <= i < a.len(),
        first_column(i, b.len() as int, same) <= j < b.len(),
        a[i].entries == b[j].entries,
        a[i].entries.len() > 0,
        threshold <= 100,
    ensures
        comparison(a, b, same, threshold).contains(
            ResultView { name_a: a[i].name, name_b: b[j].name, score: 100 },
        ),
{
    let table = score_table(a, b, same);
    let rows = a.len() as int;
    let columns = b.len() as int;
    let kept = selected(table, rows, columns, same, threshold);
    let make = result_of(names_in(a), names_in(b), table, same);
    assert(score_at(table, columns, same, (i, j)) == score_of(a[i], b[j]));
    lemma_selected_contains(table, rows, columns, same, threshold, (i, j));
    let k = choose|k: int| 0 <= k < kept.len() && kept[k] == (i, j);
    assert(kept.map_values(make)[k] == make((i, j)));
}

/// Where a list of at least two records is compared with itself, its first
/// two records hold the same hashes, and at least one, and the threshold is
/// at most 100, the first result is the pair of the first two records, with
/// score 100.
pub proof fn lemma_alike_pair_comes_first(records: Seq<RecordView>, threshold: u32)
    requires
        records.len() >= 2,
        records[0].entries == records[1].entries,
        records[0].entries.len() > 0,
        threshold <= 100,
    ensures
        comparison(records, records, true, threshold).len() > 0,
        comparison(records, records, true, threshold)[0] == (ResultView {
            name_a: records[0].name,
            name_b: records[1].name,
            score: 100,
        }),
{
    let n = records.len() as int;
    let table = score_table(records, records, true);
    let pairs = cells(n, n, true);
    let keep = reaches(table, n, true, threshold);
    lemma_first_cell(n, n);
    assert(score_at(table, n, true, (0, 1)) == score_of(records[0], records[1]));
    lemma_filter_first(pairs, keep);
}

/// Where three records are compared with one another, the first two hold
/// the same hashes, and at least one, and the third scores below the
/// threshold against both, the pair of the first two, with score 100, is all
/// that is reported.
pub proof fn lemma_two_alike_and_one_apart(records: Seq<RecordView>, threshold: u32)
    requires
        records.len() == 3,
        records[0].entries == records[1].entries,
        records[0].entries.len() > 0,
        threshold <= 100,
        score_of(records[0], records[2]) < threshold,
        score_of(records[1], records[2]) < threshold,
    ensures
        comparison(records, records, true, threshold) == seq![
            ResultView { name_a: records[0].name, name_b: records[1].name, score: 100 },
        ],
{
    let table = score_table(records, records, true);
    reveal_with_fuel(cells, 4);
    reveal_with_fuel(Seq::filter, 4);
    let pairs = cells(3, 3, true);
    assert(pairs =~= seq![(0int, 1int), (0int, 2int), (1int, 2int)]);
    assert(score_at(table, 3, true, (0, 1)) == score_of(records[0], records[1]));
    assert(score_at(table, 3, true, (0, 2)) == score_of(records[0], records[2]));
    assert(score_at(table, 3, true, (1, 2)) == score_of(records[1], records[2]));
    let keep = reaches(table, 3, true, threshold);
    assert(pairs.drop_last() =~= seq![(0int, 1int), (0int, 2int)]);
    assert(pairs.drop_last().drop_last() =~= seq![(0int, 1int)]);
    assert(pairs.drop_last().drop_last().drop_last() =~= Seq::<(int, int)>::empty());
    assert(pairs.filter(keep) =~= seq![(0int, 1int)]);
    assert(comparison(records, records, true, threshold) =~= seq![
        ResultView { name_a: records[0].name, name_b: records[1].name, score: 100 },
    ]);
}

/// The pairs that a comparison looks at are exactly those of a row of the
/// first list and a column of the second, from the row's first column on.
pub proof fn lemma_cells_contains(rows: int, columns: int, same: bool, cell: (int, int))
    requires
        0 <= columns,
    ensures
        cells(rows, columns, same).contains(cell) <==> (0 <= cell.0 < rows && first_column(
            cell.0,
            columns,
            same,
        ) <= cell.1 < columns),
    decreases rows,
{
    if rows > 0 {
        let before = cells(rows - 1, columns, same);
        let row = row_cells(rows - 1, columns, same);
        let start = first_column(rows - 1, columns, same);
        lemma_cells_contains(rows - 1, columns, same, cell);
        if cell.0 == rows - 1 && start <= cell.1 < columns {
            assert(row[cell.1 - start] == cell);
            assert((before + row)[before.len() + cell.1 - start] == cell);
        }
        if before.contains(cell) {
            let k = choose|k: int| 0 <= k < before.len() && before[k] == cell;
            assert((before + row)[k] == cell);
        }
        if (before + row).contains(cell) {
            let k = choose|k: int| 0 <= k < (before + row).len() && (before + row)[k] == cell;
            if k < before.len() {
                assert(before[k] == cell);
            } else {
                assert(row[k - before.len()] == cell);
            }
        }
    }
}

/// No pair is looked at twice.
pub proof fn lemma_cells_no_duplicates(rows: int, columns: int, same: bool)
    requires
        0 <= columns,
    ensures
        cells(rows, columns, same).no_duplicates(),
    decreases rows,
{
    if rows > 0 {
        let before = cells(rows - 1, columns, same);
        let row = row_cells(rows - 1, columns, same);
        lemma_cells_no_duplicates(rows - 1, columns, same);
        assert forall|i: int, j: int| 0 <= i < before.len() && 0 <= j < row.len() implies before[i]
            != row[j] by {
            lemma_cells_contains(rows - 1, columns, same, before[i]);
        }
        lemma_no_dup_in_concat(before, row);
    }
}

/// A pair is kept exactly if it is looked at and its score reaches the
/// threshold.
pub proof fn lemma_selected_contains(
    table: Seq<Seq<u32>>,
    rows: int,
    columns: int,
    same: bool,
    threshold: u32,
    cell: (int, int),
)
    requires
        0 <= columns,
    ensures
        selected(table, rows, columns, same, threshold).contains(cell) <==> (0 <= cell.0 < rows
            && first_column(cell.0, columns, same) <= cell.1 < columns && score_at(
            table,
            columns,
            same,
            cell,
        ) >= threshold),
{
    let all = cells(rows, columns, same);
    let pred = reaches(table, columns, same, threshold);
    lemma_cells_contains(rows, columns, same, cell);
    if all.filter(pred).contains(cell) {
        all.lemma_filter_contains_rev(pred, cell);
        let k = choose|k: int| 0 <= k < all.filter(pred).len() && all.filter(pred)[k] == cell;
        all.lemma_filter_pred(pred, k);
    }
    if all.contains(cell) && pred(cell) {
        let k = choose|k: int| 0 <= k < all.len() && all[k] == cell;
        all.lemma_filter_contains(pred, k);
    }
}

/// When a list is compared with itself, each pair that is kept lies above
/// the diagonal and is kept once: no record is paired with itself, and of a
/// pair and its mirror image at most one is kept.
pub proof fn lemma_self_compare_pairs(table: Seq<Seq<u32>>, n: int, threshold: u32)
    requires
        0 <= n,
    ensures
        ({
            let kept = selected(table, n, n, true, threshold);
            &&& kept.no_duplicates()
            &&& forall|i: int, j: int| #[trigger] kept.contains((i, j)) ==> 0 <= i < j < n
            &&& forall|i: int| !kept.contains((i, i))
            &&& forall|i: int, j: int| !(kept.contains((i, j)) && kept.contains((j, i)))
        }),
{
    let kept = selected(table, n, n, true, threshold);
    lemma_cells_no_duplicates(n, n, true);
    lemma_filter_no_duplicates(cells(n, n, true), reaches(table, n, true, threshold));
    assert forall|i: int, j: int| #[trigger] kept.contains((i, j)) implies 0 <= i < j < n by {
        lemma_selected_contains(table, n, n, true, threshold, (i, j));
    }
}

/// When a list of records with distinct names is compared with itself, no
/// result pairs a name with itself, and no two results hold the same two
/// names, in the same order or mirrored.
pub proof fn lemma_self_compare_results(
    names: Seq<Seq<char>>,
    table: Seq<Seq<u32>>,
    threshold: u32,
)
    requires
        names.no_duplicates(),
    ensures
        ({
            let found = hits(names, names, table, true, threshold);
            &&& forall|k: int| 0 <= k < found.len() ==> (#[trigger] found[k]).name_a != found[k].name_b
            &&& forall|k: int, l: int|
                0 <= k < found.len() && 0 <= l < found.len() && k != l ==> !((#[trigger] found[k]).name_a
                    == (#[trigger] found[l]).name_a && found[k].name_b == found[l].name_b)
            &&& forall|k: int, l: int|
                0 <= k < found.len() && 0 <= l < found.len() ==> !((#[trigger] found[k]).name_a
                    == (#[trigger] found[l]).name_b && found[k].name_b == found[l].name_a)
        }),
{
    let n = names.len() as int;
    let kept = selected(table, n, n, true, threshold);
    let found = hits(names, names, table, true, threshold);
    lemma_self_compare_pairs(table, n, threshold);
    assert forall|k: int| 0 <= k < kept.len() implies 0 <= (#[trigger] kept[k]).0 < kept[k].1 < n by {
        assert(kept.contains(kept[k]));
        assert(kept.contains((kept[k].0, kept[k].1)));
    }
    assert forall|k: int| 0 <= k < found.len() implies (#[trigger] found[k]).name_a
        != found[k].name_b by {
        assert(0 <= kept[k].0 < kept[k].1 < n);
    }
    assert forall|k: int, l: int|
        0 <= k < found.len() && 0 <= l < found.len() && k != l implies !((#[trigger] found[k]).name_a
        == (#[trigger] found[l]).name_a && found[k].name_b == found[l].name_b) by {
        assert(0 <= kept[k].0 < kept[k].1 < n);
        assert(0 <= kept[l].0 < kept[l].1 < n);
        assert(kept[k] != kept[l]);
    }
    assert forall|k: int, l: int| 0 <= k < found.len() && 0 <= l < found.len() implies !((
    #[trigger] found[k]).name_a == (#[trigger] found[l]).name_b && found[k].name_b
        == found[l].name_a) by {
        assert(0 <= kept[k].0 < kept[k].1 < n);
        assert(0 <= kept[l].0 < kept[l].1 < n);
    }
}

/// A row that starts at column 0 has one pair for each column, so the first
/// `rows` rows of a comparison of two distinct lists hold `rows * columns`
/// pairs.
pub proof fn lemma_cross_cells_len(rows: int, columns: int)
    requires
        0 <= rows,
        0 <= columns,
    ensures
        cells(rows, columns, false).len() == rows * columns,
    decreases rows,
{
    if rows > 0 {
        lemma_cross_cells_len(rows - 1, columns);
        assert(row_cells(rows - 1, columns, false).len() == columns);
        assert((rows - 1) * columns + columns == rows * columns) by (nonlinear_arith);
    } else {
        assert(rows * columns == 0) by (nonlinear_arith)
            requires
                rows == 0,
        ;
    }
}

/// When two distinct lists are compared, every pair of a record of the first
/// and a record of the second is looked at: with threshold 0, which no score
/// fails, there is one result for each of them.
pub proof fn lemma_cross_compare_count(
    names_a: Seq<Seq<char>>,
    names_b: Seq<Seq<char>>,
    table: Seq<Seq<u32>>,
)
    ensures
        hits(names_a, names_b, table, false, 0).len() == names_a.len() * names_b.len(),
{
    let rows = names_a.len() as int;
    let columns = names_b.len() as int;
    lemma_cross_cells_len(rows, columns);
    lemma_filter_keeps_all(cells(rows, columns, false), reaches(table, columns, false, 0));
}

/// Raising the threshold only removes results: what a comparison reports at
/// the higher threshold is what it reports at the lower one without the
/// results whose score is below the higher threshold, in the same order.
pub proof fn lemma_threshold_monotone(
    names_a: Seq<Seq<char>>,
    names_b: Seq<Seq<char>>,
    table: Seq<Seq<u32>>,
    same: bool,
    low: u32,
    high: u32,
)
    requires
        low <= high,
    ensures
        hits(names_a, names_b, table, same, high) == hits(
            names_a,
            names_b,
            table,
            same,
            low,
        ).filter(scores_at_least(high)),
        hits(names_a, names_b, table, same, high).len() <= hits(
            names_a,
            names_b,
            table,
            same,
            low,
        ).len(),
        forall|result: ResultView| #[trigger]
            hits(names_a, names_b, table, same, high).contains(result) ==> hits(
                names_a,
                names_b,
                table,
                same,
                low,
            ).contains(result),
{
    let pairs = cells(names_a.len() as int, names_b.len() as int, same);
    lemma_hits_from_monotone(pairs, names_a, names_b, table, same, low, high);
    let at_low = hits(names_a, names_b, table, same, low);
    at_low.lemma_filter_len(scores_at_least(high));
    assert forall|result: ResultView| #[trigger]
        hits(names_a, names_b, table, same, high).contains(result) implies at_low.contains(
        result,
    ) by {
        at_low.lemma_filter_contains_rev(scores_at_least(high), result);
    }
}

/// The results of a comparison are the results of its rows, joined in the
/// order of the rows.
pub proof fn lemma_hits_are_rows_in_order(
    names_a: Seq<Seq<char>>,
    names_b: Seq<Seq<char>>,
    table: Seq<Seq<u32>>,
    same: bool,
    threshold: u32,
)
    requires
        table_shape(table, names_a.len() as int, names_b.len() as int, same),
    ensures
        hits(names_a, names_b, table, same, threshold) == hits_by_row(
            names_a,
            names_b,
            table,
            same,
            threshold,
        ).flatten(),
{
    let rows = hits_by_row(names_a, names_b, table, same, threshold);
    lemma_hits_of_first_rows(names_a, names_b, table, same, threshold, names_a.len() as int);
    assert(rows.take(names_a.len() as int) =~= rows);
}

/// Rows that were compared one by one and then joined are the results of
/// the comparison as a whole.
pub proof fn lemma_merged_rows_are_hits(
    rows: Seq<Vec<SimilarityResult>>,
    names_a: Seq<Seq<char>>,
    names_b: Seq<Seq<char>>,
    table: Seq<Seq<u32>>,
    same: bool,
    threshold: u32,
)
    requires
        table_shape(table, names_a.len() as int, names_b.len() as int, same),
        views_by_row(rows) == hits_by_row(names_a, names_b, table, same, threshold),
    ensures
        result_views(row_views(rows).flatten()) == hits(names_a, names_b, table, same, threshold),
{
    lemma_views_of_joined_rows(rows);
    lemma_hits_are_rows_in_order(names_a, names_b, table, same, threshold);
}

// Lemmas that the proofs above rest on.

/// Where a list of at least two records is compared with itself, the first
/// pair that is looked at is that of the first two records.
proof fn lemma_first_cell(rows: int, columns: int)
    requires
        rows >= 1,
        columns >= 2,
    ensures
        cells(rows, columns, true).len() > 0,
        cells(rows, columns, true)[0] == (0int, 1int),
    decreases rows,
{
    if rows == 1 {
        assert(cells(0, columns, true) =~= Seq::<(int, int)>::empty());
        assert(row_cells(0, columns, true)[0] == (0int, 1int));
    } else {
        lemma_first_cell(rows - 1, columns);
    }
}

/// What is kept of a list whose first element passes begins with that
/// element.
proof fn lemma_filter_first<A>(s: Seq<A>, pred: spec_fn(A) -> bool)
    requires
        s.len() > 0,
        pred(s[0]),
    ensures
        s.filter(pred).len() > 0,
        s.filter(pred)[0] == s[0],
    decreases s.len(),
{
    reveal(Seq::filter);
    if s.len() > 1 {
        let rest = s.drop_last();
        assert(rest[0] == s[0]);
        lemma_filter_first(rest, pred);
    } else {
        assert(s.drop_last().filter(pred) =~= Seq::<A>::empty());
    }
}

/// The views of the joined rows are the joined views of the rows.
proof fn lemma_views_of_joined_rows(rows: Seq<Vec<SimilarityResult>>)
    ensures
        result_views(row_views(rows).flatten()) == views_by_row(rows).flatten(),
    decreases rows.len(),
{
    if rows.len() == 0 {
        assert(result_views(row_views(rows).flatten()) =~= views_by_row(rows).flatten());
    } else {
        lemma_views_of_joined_rows(rows.drop_first());
        assert(row_views(rows).drop_first() =~= row_views(rows.drop_first()));
        assert(views_by_row(rows).drop_first() =~= views_by_row(rows.drop_first()));
        assert(result_views(row_views(rows).first() + row_views(rows).drop_first().flatten())
            =~= result_views(row_views(rows).first()) + result_views(
            row_views(rows).drop_first().flatten(),
        ));
    }
}

/// Joining one list more joins it behind the others.
proof fn lemma_flatten_take_next<A>(lists: Seq<Seq<A>>, n: int)
    requires
        0 <= n < lists.len(),
    ensures
        lists.take(n + 1).flatten() == lists.take(n).flatten() + lists[n],
{
    vstd::seq_lib::lemma_flatten_concat(lists.take(n), seq![lists[n]]);
    seq![lists[n]].lemma_flatten_one_element();
    assert(lists.take(n + 1) =~= lists.take(n) + seq![lists[n]]);
}

/// Filtering and then converting is converting and then filtering, where
/// the two filters agree.
proof fn lemma_filter_then_map<A, B>(
    s: Seq<A>,
    keep: spec_fn(A) -> bool,
    convert: spec_fn(A) -> B,
    keep_converted: spec_fn(B) -> bool,
)
    requires
        forall|i: int| 0 <= i < s.len() ==> keep_converted(convert(#[trigger] s[i])) == keep(s[i]),
    ensures
        s.filter(keep).map_values(convert) == s.map_values(convert).filter(keep_converted),
    decreases s.len(),
{
    reveal(Seq::filter);
    if s.len() == 0 {
        assert(s.filter(keep).map_values(convert) =~= s.map_values(convert).filter(
            keep_converted,
        ));
    } else {
        let rest = s.drop_last();
        assert forall|i: int| 0 <= i < rest.len() implies keep_converted(
            convert(#[trigger] rest[i]),
        ) == keep(rest[i]) by {
            assert(rest[i] == s[i]);
        }
        lemma_filter_then_map(rest, keep, convert, keep_converted);
        assert(s.map_values(convert).drop_last() =~= rest.map_values(convert));
        assert(s.map_values(convert).last() == convert(s.last()));
        assert(keep_converted(convert(s[s.len() - 1])) == keep(s[s.len() - 1]));
        if keep(s.last()) {
            assert(rest.filter(keep).push(s.last()).map_values(convert) =~= rest.filter(
                keep,
            ).map_values(convert).push(convert(s.last())));
        }
    }
}

/// The results for the pairs of one row are the results of that row.
proof fn lemma_hits_of_row(
    names_a: Seq<Seq<char>>,
    names_b: Seq<Seq<char>>,
    table: Seq<Seq<u32>>,
    same: bool,
    threshold: u32,
    row: int,
)
    requires
        table[row].len() == names_b.len() - first_column(row, names_b.len() as int, same),
    ensures
        hits_from(
            row_cells(row, names_b.len() as int, same),
            names_a,
            names_b,
            table,
            same,
            threshold,
        ) == row_hits(
            names_a[row],
            names_b,
            first_column(row, names_b.len() as int, same),
            table[row],
            threshold,
        ),
{
    let columns = names_b.len() as int;
    let pairs = row_cells(row, columns, same);
    let convert = result_of(names_a, names_b, table, same);
    lemma_filter_then_map(
        pairs,
        reaches(table, columns, same, threshold),
        convert,
        scores_at_least(threshold),
    );
    assert(pairs.map_values(convert) =~= row_candidates(
        names_a[row],
        names_b,
        first_column(row, columns, same),
        table[row],
    ));
}

/// The results for two lists of pairs in a row are the results for the
/// first and then those for the second.
proof fn lemma_hits_from_add(
    first: Seq<(int, int)>,
    second: Seq<(int, int)>,
    names_a: Seq<Seq<char>>,
    names_b: Seq<Seq<char>>,
    table: Seq<Seq<u32>>,
    same: bool,
    threshold: u32,
)
    ensures
        hits_from(first + second, names_a, names_b, table, same, threshold) == hits_from(
            first,
            names_a,
            names_b,
            table,
            same,
            threshold,
        ) + hits_from(second, names_a, names_b, table, same, threshold),
{
    let keep = reaches(table, names_b.len() as int, same, threshold);
    let convert = result_of(names_a, names_b, table, same);
    Seq::filter_distributes_over_add(first, second, keep);
    assert((first.filter(keep) + second.filter(keep)).map_values(convert) =~= first.filter(
        keep,
    ).map_values(convert) + second.filter(keep).map_values(convert));
}

/// The results for the pairs of the first `n` rows are the results of these
/// rows, joined in the order of the rows.
proof fn lemma_hits_of_first_rows(
    names_a: Seq<Seq<char>>,
    names_b: Seq<Seq<char>>,
    table: Seq<Seq<u32>>,
    same: bool,
    threshold: u32,
    n: int,
)
    requires
        0 <= n <= names_a.len(),
        table_shape(table, names_a.len() as int, names_b.len() as int, same),
    ensures
        hits_from(
            cells(n, names_b.len() as int, same),
            names_a,
            names_b,
            table,
            same,
            threshold,
        ) == hits_by_row(names_a, names_b, table, same, threshold).take(n).flatten(),
    decreases n,
{
    let rows = hits_by_row(names_a, names_b, table, same, threshold);
    let columns = names_b.len() as int;
    if n == 0 {
        reveal(Seq::filter);
        assert(rows.take(0) =~= Seq::<Seq<ResultView>>::empty());
        assert(hits_from(cells(0, columns, same), names_a, names_b, table, same, threshold)
            =~= Seq::<ResultView>::empty());
    } else {
        lemma_hits_of_first_rows(names_a, names_b, table, same, threshold, n - 1);
        lemma_hits_from_add(
            cells(n - 1, columns, same),
            row_cells(n - 1, columns, same),
            names_a,
            names_b,
            table,
            same,
            threshold,
        );
        lemma_hits_of_row(names_a, names_b, table, same, threshold, n - 1);
        lemma_flatten_take_next(rows, n - 1);
    }
}

/// What is kept of a list without duplicates has none either.
proof fn lemma_filter_no_duplicates<A>(s: Seq<A>, pred: spec_fn(A) -> bool)
    requires
        s.no_duplicates(),
    ensures
        s.filter(pred).no_duplicates(),
    decreases s.len(),
{
    reveal(Seq::filter);
    if s.len() > 0 {
        let rest = s.drop_last();
        lemma_filter_no_duplicates(rest, pred);
        if pred(s.last()) {
            let kept = rest.filter(pred);
            assert forall|i: int| 0 <= i < kept.len() implies kept[i] != s.last() by {
                rest.lemma_filter_contains_rev(pred, kept[i]);
                let k = choose|k: int| 0 <= k < rest.len() && rest[k] == kept[i];
                assert(s[k] == kept[i]);
            }
        }
    }
}

/// A filter that everything passes keeps the whole list.
proof fn lemma_filter_keeps_all<A>(s: Seq<A>, pred: spec_fn(A) -> bool)
    requires
        forall|i: int| 0 <= i < s.len() ==> pred(#[trigger] s[i]),
    ensures
        s.filter(pred) == s,
    decreases s.len(),
{
    reveal(Seq::filter);
    if s.len() > 0 {
        let rest = s.drop_last();
        assert forall|i: int| 0 <= i < rest.len() implies pred(#[trigger] rest[i]) by {
            assert(rest[i] == s[i]);
        }
        lemma_filter_keeps_all(rest, pred);
        assert(rest.push(s.last()) =~= s);
    }
}

proof fn lemma_hits_from_monotone(
    pairs: Seq<(int, int)>,
    names_a: Seq<Seq<char>>,
    names_b: Seq<Seq<char>>,
    table: Seq<Seq<u32>>,
    same: bool,
    low: u32,
    high: u32,
)
    requires
        low <= high,
    ensures
        hits_from(pairs, names_a, names_b, table, same, high) == hits_from(
            pairs,
            names_a,
            names_b,
            table,
            same,
            low,
        ).filter(scores_at_least(high)),
    decreases pairs.len(),
{
    reveal(Seq::filter);
    let columns = names_b.len() as int;
    let make = result_of(names_a, names_b, table, same);
    let keep = scores_at_least(high);
    if pairs.len() > 0 {
        let rest = pairs.drop_last();
        let cell = pairs.last();
        lemma_hits_from_monotone(rest, names_a, names_b, table, same, low, high);
        let rest_low = rest.filter(reaches(table, columns, same, low));
        let rest_high = rest.filter(reaches(table, columns, same, high));
        if score_at(table, columns, same, cell) >= low {
            assert(rest_low.push(cell).map_values(make) =~= rest_low.map_values(make).push(
                make(cell),
            ));
            assert(rest_low.map_values(make).push(make(cell)).drop_last() =~= rest_low.map_values(
                make,
            ));
        }
        if score_at(table, columns, same, cell) >= high {
            assert(rest_high.push(cell).map_values(make) =~= rest_high.map_values(make).push(
                make(cell),
            ));
        }
    } else {
        assert(pairs.filter(reaches(table, columns, same, high)).map_values(make) =~= Seq::<
            ResultView,
        >::empty());
    }
}

} // verus!
