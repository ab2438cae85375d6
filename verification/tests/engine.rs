use lzjd_batch::codec::{decode_lines, encode_records};
use lzjd_batch::digest::DigestRecord;
use lzjd_batch::engine::{
    compare, compare_row, format_result, merge_rows, row_start, select_row, SimilarityResult,
};
use lzjd_batch::score::score;
use malwaredb_lzjd::LZDict;
use murmurhash3::Murmur3HashState;

fn record(name: &str, entries: Vec<i32>) -> DigestRecord {
    DigestRecord::new(LZDict::from(entries), String::from(name)).unwrap()
}

fn digest_of(name: &str, content: &[u8]) -> DigestRecord {
    let hasher = Murmur3HashState::default();
    let digest = LZDict::from_bytes_stream(content.iter().cloned(), &hasher);
    DigestRecord::new(digest, String::from(name)).unwrap()
}

fn by_floating_point(a: &DigestRecord, b: &DigestRecord) -> u32 {
    (a.digest().similarity(b.digest()) * 100.).round() as u32
}

fn by_rows(
    a: &Vec<DigestRecord>,
    b: &Vec<DigestRecord>,
    same: bool,
    threshold: u32,
) -> Vec<SimilarityResult> {
    let mut rows = Vec::new();
    for (i, left) in a.iter().enumerate() {
        rows.push(compare_row(left, b, row_start(i, b.len(), same), threshold));
    }
    merge_rows(rows)
}

fn result(a: &str, b: &str, score: u32) -> SimilarityResult {
    SimilarityResult { name_a: String::from(a), name_b: String::from(b), score }
}

fn named(names: &[&str]) -> Vec<DigestRecord> {
    names.iter().map(|n| record(n, vec![1])).collect()
}

/// Five records whose scores against one another are
/// a-b 75, a-c 60, a-d 0, a-e 50, b-c 40, b-d 0, b-e 38, c-d 14, c-e 50, d-e 50.
fn five() -> Vec<DigestRecord> {
    vec![
        record("a", vec![0, 1, 2, 3]),
        record("b", vec![0, 1, 2]),
        record("c", vec![1, 2, 3, 4]),
        record("d", vec![4, 5, 6, 7]),
        record("e", (0..8).collect()),
    ]
}

#[test]
fn row_start_of_a_cross_comparison_is_zero() {
    assert_eq!(row_start(0, 3, false), 0);
    assert_eq!(row_start(2, 3, false), 0);
    assert_eq!(row_start(7, 3, false), 0);
    assert_eq!(row_start(0, 0, false), 0);
}

#[test]
fn row_start_of_a_self_comparison_is_behind_the_diagonal() {
    assert_eq!(row_start(0, 3, true), 1);
    assert_eq!(row_start(1, 3, true), 2);
    assert_eq!(row_start(2, 3, true), 3);
    assert_eq!(row_start(3, 3, true), 3);
    assert_eq!(row_start(usize::MAX, 3, true), 3);
    assert_eq!(row_start(0, 0, true), 0);
}

#[test]
fn score_is_the_rounded_percentage_of_the_similarity() {
    let records = five();
    let expected = [
        [100, 75, 60, 0, 50],
        [75, 100, 40, 0, 38],
        [60, 40, 100, 14, 50],
        [0, 0, 14, 100, 50],
        [50, 38, 50, 50, 100],
    ];
    for (i, left) in records.iter().enumerate() {
        for (j, right) in records.iter().enumerate() {
            assert_eq!(score(left, right), expected[i][j]);
            assert_eq!(score(left, right), by_floating_point(left, right));
        }
    }
}

#[test]
fn score_of_digests_with_the_same_hashes_is_100() {
    for size in 1..50 {
        let a = record("a", (0..size).collect());
        let b = record("b", (0..size).collect());
        assert_eq!(score(&a, &b), 100);
        assert_eq!(score(&a, &a), 100);
    }
    let read = LZDict::from_base64_string("AwAAAAAAAAABAAAAAAAAAAMAAAAAAAAA").unwrap();
    assert_eq!(read.iter().cloned().collect::<Vec<i32>>(), vec![3, 1, 3]);
    let unsorted = DigestRecord::new(read, String::from("u")).unwrap();
    assert_eq!(score(&unsorted, &unsorted), 100);
}

#[test]
fn score_of_two_empty_digests_is_zero() {
    let empty = record("empty", vec![]);
    let other = record("other", vec![1, 2]);
    assert_eq!(score(&empty, &empty), 0);
    assert_eq!(score(&empty, &other), 0);
    assert_eq!(score(&other, &empty), 0);
}

#[test]
fn score_of_digests_of_every_small_size() {
    for shared in 0..40 {
        for only_left in 0..20 {
            for only_right in 0..20 {
                let left: Vec<i32> = (0..shared + only_left).collect();
                let right: Vec<i32> =
                    (0..shared).chain(1000..1000 + only_right).collect();
                let a = record("a", left);
                let b = record("b", right);
                assert_eq!(score(&a, &b), by_floating_point(&a, &b));
                assert!(score(&a, &b) <= 100);
            }
        }
    }
}

#[test]
fn select_row_keeps_the_scores_that_reach_the_threshold() {
    let others = named(&["p", "q", "r", "s"]);
    let left = record("left", vec![1]);
    let found = select_row(&left, &others, 0, &vec![10, 50, 49, 100], 50);
    assert_eq!(found, vec![result("left", "q", 50), result("left", "s", 100)]);
}

#[test]
fn select_row_starts_at_the_given_column() {
    let others = named(&["p", "q", "r", "s"]);
    let left = record("q", vec![1]);
    let found = select_row(&left, &others, 2, &vec![80, 90], 0);
    assert_eq!(found, vec![result("q", "r", 80), result("q", "s", 90)]);
    assert!(select_row(&left, &others, 4, &vec![], 0).is_empty());
}

#[test]
fn select_row_keeps_a_score_equal_to_the_threshold() {
    let others = named(&["p", "q", "r"]);
    let left = record("a", vec![1]);
    let found = select_row(&left, &others, 0, &vec![49, 50, 51], 50);
    assert_eq!(found, vec![result("a", "q", 50), result("a", "r", 51)]);
}

#[test]
fn compare_row_scores_and_selects() {
    let records = five();
    let found = compare_row(&records[0], &records, 1, 50);
    assert_eq!(found, vec![result("a", "b", 75), result("a", "c", 60), result("a", "e", 50)]);
    let found = compare_row(&records[1], &records, 0, 40);
    assert_eq!(found, vec![result("b", "a", 75), result("b", "b", 100), result("b", "c", 40)]);
    assert!(compare_row(&records[4], &records, 5, 0).is_empty());
}

#[test]
fn merge_rows_joins_in_the_order_of_the_rows() {
    let rows = vec![
        vec![result("a", "b", 1), result("a", "c", 2)],
        vec![],
        vec![result("b", "c", 3)],
        vec![],
    ];
    assert_eq!(
        merge_rows(rows),
        vec![result("a", "b", 1), result("a", "c", 2), result("b", "c", 3)]
    );
    assert!(merge_rows(Vec::new()).is_empty());
    assert!(merge_rows(vec![vec![], vec![]]).is_empty());
}

#[test]
fn self_comparison_reports_pairs_above_the_diagonal() {
    let records = five();
    let found = compare(&records, &records, true, 50);
    assert_eq!(
        found,
        vec![
            result("a", "b", 75),
            result("a", "c", 60),
            result("a", "e", 50),
            result("c", "e", 50),
            result("d", "e", 50),
        ]
    );
}

#[test]
fn self_comparison_never_pairs_a_record_with_itself_or_twice() {
    let records = five();
    let found = compare(&records, &records, true, 0);
    assert_eq!(found.len(), 10);
    for one in &found {
        assert_ne!(one.name_a, one.name_b);
        assert!(!found
            .iter()
            .any(|other| other.name_a == one.name_b && other.name_b == one.name_a));
        assert_eq!(
            found
                .iter()
                .filter(|other| other.name_a == one.name_a && other.name_b == one.name_b)
                .count(),
            1
        );
    }
}

#[test]
fn self_comparison_of_one_record_is_empty() {
    let records = named(&["only"]);
    assert!(compare(&records, &records, true, 0).is_empty());
    let none: Vec<DigestRecord> = Vec::new();
    assert!(compare(&none, &none, true, 0).is_empty());
}

#[test]
fn cross_comparison_looks_at_every_pair() {
    let records = five();
    let a = vec![record("x", vec![0, 1, 2, 3]), record("y", vec![9])];
    let found = compare(&a, &records, false, 0);
    assert_eq!(found.len(), 2 * 5);
    assert_eq!(
        found,
        vec![
            result("x", "a", 100),
            result("x", "b", 75),
            result("x", "c", 60),
            result("x", "d", 0),
            result("x", "e", 50),
            result("y", "a", 0),
            result("y", "b", 0),
            result("y", "c", 0),
            result("y", "d", 0),
            result("y", "e", 0),
        ]
    );
}

#[test]
fn cross_comparison_of_a_list_with_a_copy_keeps_the_diagonal() {
    let a = vec![record("x", vec![1, 2]), record("y", vec![3, 4])];
    let b = vec![record("x", vec![1, 2]), record("y", vec![3, 4])];
    let found = compare(&a, &b, false, 50);
    assert_eq!(found, vec![result("x", "x", 100), result("y", "y", 100)]);
}

#[test]
fn cross_comparison_with_an_empty_list() {
    let a = named(&["a0", "a1"]);
    let none: Vec<DigestRecord> = Vec::new();
    assert!(compare(&a, &none, false, 0).is_empty());
    assert!(compare(&none, &a, false, 0).is_empty());
}

#[test]
fn raising_the_threshold_only_removes_results() {
    let records = five();
    for same in [true, false] {
        let mut previous = compare(&records, &records, same, 0);
        assert_eq!(previous.len(), if same { 10 } else { 25 });
        for threshold in 1..=101 {
            let current = compare(&records, &records, same, threshold);
            let expected: Vec<SimilarityResult> = previous
                .iter()
                .filter(|r| r.score >= threshold)
                .cloned()
                .collect();
            assert_eq!(current, expected);
            previous = current;
        }
        assert!(previous.is_empty());
    }
}

#[test]
fn rows_compared_one_by_one_give_what_the_whole_comparison_gives() {
    let records = five();
    for same in [true, false] {
        for threshold in [0, 1, 38, 50, 75, 100, 101] {
            assert_eq!(
                by_rows(&records, &records, same, threshold),
                compare(&records, &records, same, threshold)
            );
        }
    }
}

#[test]
fn format_result_pads_the_score_to_three_digits() {
    let line = |score: u32| format_result(&result("a", "b", score));
    assert_eq!(line(0), "a|b|000");
    assert_eq!(line(5), "a|b|005");
    assert_eq!(line(9), "a|b|009");
    assert_eq!(line(10), "a|b|010");
    assert_eq!(line(87), "a|b|087");
    assert_eq!(line(99), "a|b|099");
    assert_eq!(line(100), "a|b|100");
    assert_eq!(line(1234), "a|b|1234");
    assert_eq!(line(u32::MAX), "a|b|4294967295");
}

#[test]
fn format_result_writes_the_names_as_they_are() {
    assert_eq!(
        format_result(&result("dir/a b.bin", "C:\\été|x", 42)),
        "dir/a b.bin|C:\\été|x|042"
    );
}

#[test]
fn identical_files_score_100_and_an_unrelated_file_is_left_out() {
    let content: &[u8] = b"the quick brown fox jumps over the lazy dog";
    let records = vec![
        digest_of("f1", content),
        digest_of("f2", content),
        digest_of("f3", b"0123456789 9876543210 5555"),
    ];
    let results = compare(&records, &records, true, 50);
    assert_eq!(results, vec![result("f1", "f2", 100)]);
    assert_eq!(format_result(&results[0]), "f1|f2|100");
    assert_eq!(by_rows(&records, &records, true, 50), results);
}

#[test]
fn records_read_back_from_their_lines_compare_as_the_records_themselves() {
    let content: &[u8] = b"the quick brown fox jumps over the lazy dog";
    let records = vec![
        digest_of("f1", content),
        digest_of("f2", content),
        digest_of("f3", b"0123456789 9876543210 5555"),
    ];
    let direct = compare(&records, &records, true, 50);
    let read = decode_lines(&encode_records(&records)).unwrap();
    assert_eq!(read.len(), 3);
    let again = compare(&read, &read, true, 50);
    assert_eq!(again, direct);
    assert_eq!(again, vec![result("f1", "f2", 100)]);
}
