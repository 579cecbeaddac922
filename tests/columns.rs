use aoc2024::day1::{part1, part2, read_columns, similarity, sum_distances, total_distance, ListError};

fn rows(pairs: &[(i32, i32)]) -> String {
    let mut text = String::new();
    for (x, y) in pairs {
        text.push_str(&format!("{:05}   {:05}\n", x, y));
    }
    text
}

const SAMPLE: [(i32, i32); 6] = [(3, 4), (4, 3), (2, 5), (1, 3), (3, 9), (3, 3)];

#[test]
fn sample_distance() {
    assert_eq!(part1(&rows(&SAMPLE)), Ok(11));
}

#[test]
fn sample_similarity() {
    assert_eq!(part2(&rows(&SAMPLE)), Ok(31));
}

#[test]
fn last_row_without_newline() {
    let text = rows(&SAMPLE);
    let text = text.trim_end();
    assert_eq!(part1(text), Ok(11));
    assert_eq!(part2(text), Ok(31));
}

#[test]
fn empty_input_has_no_rows() {
    assert_eq!(part1(""), Ok(0));
    assert_eq!(part2(""), Ok(0));
}

#[test]
fn reads_both_columns() {
    let (xs, ys) = read_columns(b"12345   67890\n00007   99999").unwrap();
    assert_eq!(xs, vec![12345, 7]);
    assert_eq!(ys, vec![67890, 99999]);
}

#[test]
fn malformed_rows_are_rejected() {
    for text in [
        "12345   6789\n",
        "1234a   67890\n",
        "12345  67890\n",
        "12345 x 67890\n",
        "12345   67890 ",
        "12345   67890\n1",
    ] {
        assert_eq!(part1(text), Err(ListError::Malformed), "{:?}", text);
        assert_eq!(part2(text), Err(ListError::Malformed), "{:?}", text);
    }
}

#[test]
fn distance_pairs_sorted_columns() {
    assert_eq!(total_distance(vec![5, 1, 3], vec![2, 6, 4]), Ok(3));
    assert_eq!(sum_distances(&vec![5, 1, 3], &vec![2, 6, 4]), Ok(3 + 5 + 1));
    assert_eq!(total_distance(vec![-5, 7], vec![7, -5]), Ok(0));
}

#[test]
fn similarity_counts_each_occurrence() {
    assert_eq!(similarity(&vec![3, 4, 2, 1, 3, 3], &vec![4, 3, 5, 3, 9, 3]), Ok(31));
    assert_eq!(similarity(&vec![7], &vec![1, 2]), Ok(0));
    assert_eq!(similarity(&vec![], &vec![1, 2]), Ok(0));
}

#[test]
fn distance_overflow_is_reported() {
    let pairs = vec![(0, 99999); 21476];
    assert_eq!(part1(&rows(&pairs)), Err(ListError::Overflow));
    let pairs = vec![(0, 99999); 21475];
    assert_eq!(part1(&rows(&pairs)), Ok(21475 * 99999));
}

#[test]
fn similarity_overflow_is_reported() {
    let pairs = vec![(99999, 99999); 200];
    assert_eq!(part2(&rows(&pairs)), Err(ListError::Overflow));
    let pairs = vec![(99999, 99999); 100];
    assert_eq!(part2(&rows(&pairs)), Ok(99999 * 100 * 100));
}
