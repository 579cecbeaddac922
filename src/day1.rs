//! Two columns of five-digit numbers, one pair per fixed-width row: the
//! distance between the columns once each is sorted, and a similarity score
//! that weighs each left value by how often it occurs on the right.
use vstd::prelude::*;
use vstd::string::StringSliceAdditionalSpecFns;
use std::collections::HashMap;
use crate::ascii::{is_digit, DIGIT_NINE, DIGIT_ZERO, NEWLINE, SPACE};

verus! {

broadcast use vstd::std_specs::hash::group_hash_axioms;

/// The width of a row: five digits, three spaces, five digits, a newline.
pub const ROW_WIDTH: usize = 14;

/// Where the right-hand number starts within its row.
pub const RIGHT_FIELD: usize = 8;

#[derive(Clone, Copy, Debug, PartialEq, Eq, Structural)]
pub enum ListError {
    /// The text is not rows of the fixed-width format.
    Malformed,
    /// The result does not fit an `i32`.
    Overflow,
}

/// The five bytes from `at` read as decimal digits.
pub open spec fn field_value(b: Seq<u8>, at: int) -> int {
    10000 * (b[at] - DIGIT_ZERO) + 1000 * (b[at + 1] - DIGIT_ZERO) + 100 * (b[at + 2] - DIGIT_ZERO)
        + 10 * (b[at + 3] - DIGIT_ZERO) + (b[at + 4] - DIGIT_ZERO)
}

/// What a row holds at column `j`.
pub open spec fn fits_row(j: int, c: u8) -> bool {
    if j < 5 || (8 <= j && j < 13) {
        is_digit(c)
    } else if j < 8 {
        c == SPACE
    } else {
        c == NEWLINE
    }
}

/// `b` is whole rows; the last one may lack its newline.
pub open spec fn well_formed_rows(b: Seq<u8>) -> bool {
    &&& (b.len() % 14 == 0 || b.len() % 14 == 13)
    &&& forall|p: int| 0 <= p < b.len() ==> fits_row(p % 14, #[trigger] b[p])
}

/// The number of rows of a well-formed `b`.
pub open spec fn row_count(b: Seq<u8>) -> int {
    (b.len() + 1) as int / 14
}

/// The left-hand numbers of the rows of `b`.
pub open spec fn left_column(b: Seq<u8>) -> Seq<i32> {
    Seq::new(row_count(b) as nat, |k: int| field_value(b, 14 * k) as i32)
}

/// The right-hand numbers of the rows of `b`.
pub open spec fn right_column(b: Seq<u8>) -> Seq<i32> {
    Seq::new(row_count(b) as nat, |k: int| field_value(b, 14 * k + 8) as i32)
}

/// Reads the five digits at `offset`; the bytes are not checked here.
fn read_int(bytes: &[u8], offset: usize) -> (r: i32)
    requires
        offset + 5 <= bytes@.len(),
    ensures
        r == field_value(bytes@, offset as int),
{
    10000 * bytes[offset] as i32 + 1000 * bytes[offset + 1] as i32 + 100 * bytes[offset + 2] as i32
        + 10 * bytes[offset + 3] as i32 + bytes[offset + 4] as i32 - 11111 * DIGIT_ZERO as i32
}

proof fn lemma_row_fields(b: Seq<u8>, k: int)
    requires
        well_formed_rows(b),
        0 <= k < row_count(b),
    ensures
        14 * k + 13 <= b.len(),
        0 <= field_value(b, 14 * k) <= 99999,
        0 <= field_value(b, 14 * k + 8) <= 99999,
{
    let at = 14 * k;
    assert forall|j: int| 0 <= j < 13 implies fits_row(j, #[trigger] b[at + j]) by {
        assert((at + j) % 14 == j);
        assert(fits_row((at + j) % 14, b[at + j]));
    }
    assert(fits_row(0, b[at]) && fits_row(1, b[at + 1]) && fits_row(2, b[at + 2]));
    assert(fits_row(3, b[at + 3]) && fits_row(4, b[at + 4]));
    assert(fits_row(8, b[at + 8]) && fits_row(9, b[at + 9]) && fits_row(10, b[at + 10]));
    assert(fits_row(11, b[at + 11]) && fits_row(12, b[at + 12]));
}

/// Reads the two columns of `input`.
pub fn read_columns(input: &[u8]) -> (r: Result<(Vec<i32>, Vec<i32>), ListError>)
    ensures
        well_formed_rows(input@) ==> r is Ok && r->Ok_0.0@ == left_column(input@) && r->Ok_0.1@
            == right_column(input@),
        !well_formed_rows(input@) ==> r == Err::<(Vec<i32>, Vec<i32>), ListError>(
            ListError::Malformed,
        ),
        r is Ok ==> forall|k: int|
            0 <= k < r->Ok_0.0.len() ==> 0 <= #[trigger] r->Ok_0.0[k] <= 99999,
{
    let n = input.len();
    if n % ROW_WIDTH != 0 && n % ROW_WIDTH != ROW_WIDTH - 1 {
        return Err(ListError::Malformed);
    }
    let mut p: usize = 0;
    while p < n
        invariant
            p <= n,
            n == input@.len(),
            forall|q: int| 0 <= q < p ==> fits_row(q % 14, #[trigger] input@[q]),
        decreases n - p,
    {
        let j = p % ROW_WIDTH;
        let c = input[p];
        let fits = if j < 5 || (RIGHT_FIELD <= j && j < ROW_WIDTH - 1) {
            DIGIT_ZERO <= c && c <= DIGIT_NINE
        } else if j < RIGHT_FIELD {
            c == SPACE
        } else {
            c == NEWLINE
        };
        if !fits {
            return Err(ListError::Malformed);
        }
        p = p + 1;
    }
    let rows: usize = n / ROW_WIDTH + if n % ROW_WIDTH == 0 { 0 } else { 1 };
    let mut xs: Vec<i32> = Vec::new();
    let mut ys: Vec<i32> = Vec::new();
    let mut k: usize = 0;
    while k < rows
        invariant
            well_formed_rows(input@),
            n == input@.len(),
            rows == row_count(input@),
            k <= rows,
            xs@ == left_column(input@).take(k as int),
            ys@ == right_column(input@).take(k as int),
            forall|i: int| 0 <= i < xs.len() ==> 0 <= #[trigger] xs[i] <= 99999,
        decreases rows - k,
    {
        proof {
            lemma_row_fields(input@, k as int);
        }
        xs.push(read_int(input, ROW_WIDTH * k));
        ys.push(read_int(input, ROW_WIDTH * k + RIGHT_FIELD));
        proof {
            assert(xs@ =~= left_column(input@).take(k + 1));
            assert(ys@ =~= right_column(input@).take(k + 1));
        }
        k = k + 1;
    }
    proof {
        assert(xs@ =~= left_column(input@));
        assert(ys@ =~= right_column(input@));
    }
    Ok((xs, ys))
}

/// `s` in ascending order.
pub open spec fn ascending(s: Seq<i32>) -> Seq<i32> {
    s.sort_by(|a: i32, b: i32| a <= b)
}

/// The sum of `|xs[k] - ys[k]|` over the first `n` positions.
pub open spec fn distance_prefix(xs: Seq<i32>, ys: Seq<i32>, n: int) -> int
    decreases n,
{
    if n <= 0 {
        0
    } else {
        let d = xs[n - 1] - ys[n - 1];
        distance_prefix(xs, ys, n - 1) + if d < 0 {
            -d
        } else {
            d
        }
    }
}

/// The distance between two columns: each sorted, then paired off in order.
pub open spec fn sorted_distance(xs: Seq<i32>, ys: Seq<i32>) -> int {
    distance_prefix(ascending(xs), ascending(ys), xs.len() as int)
}

/// How often `x` occurs in `s`.
pub open spec fn occurrences(s: Seq<i32>, x: i32) -> nat
    decreases s.len(),
{
    if s.len() == 0 {
        0
    } else {
        occurrences(s.drop_last(), x) + if s.last() == x {
            1nat
        } else {
            0nat
        }
    }
}

/// The sum of `xs[k]` times its number of occurrences in `ys`, over the
/// first `n` positions of `xs`.
pub open spec fn similarity_prefix(xs: Seq<i32>, ys: Seq<i32>, n: int) -> int
    decreases n,
{
    if n <= 0 {
        0
    } else {
        similarity_prefix(xs, ys, n - 1) + xs[n - 1] * occurrences(ys, xs[n - 1])
    }
}

/// The similarity score of two columns.
pub open spec fn similarity_score(xs: Seq<i32>, ys: Seq<i32>) -> int {
    similarity_prefix(xs, ys, xs.len() as int)
}

/// Relies on `slice::sort_unstable`: afterwards the vector holds the same
/// values in ascending order.
#[verifier::external_body]
fn sort_ascending(v: &mut Vec<i32>)
    ensures
        final(v)@.to_multiset() == old(v)@.to_multiset(),
        forall|i: int, j: int| 0 <= i <= j < final(v)@.len() ==> final(v)@[i] <= final(v)@[j],
{
    v.sort_unstable();
}

/// Sorts `v`, whose view then is `ascending` of the values it held.
fn sort_column(v: &mut Vec<i32>)
    ensures
        final(v)@ == ascending(old(v)@),
{
    let ghost before = v@;
    sort_ascending(v);
    proof {
        let leq = |a: i32, b: i32| a <= b;
        assert(vstd::relations::total_ordering(leq));
        before.lemma_sort_by_ensures(leq);
        assert(vstd::relations::sorted_by(v@, leq));
        vstd::seq_lib::lemma_sorted_unique(v@, before.sort_by(leq), leq);
    }
}

proof fn lemma_distance_grows(xs: Seq<i32>, ys: Seq<i32>, n: int, m: int)
    requires
        n <= m,
    ensures
        distance_prefix(xs, ys, n) <= distance_prefix(xs, ys, m),
    decreases m - n,
{
    if n < m {
        lemma_distance_grows(xs, ys, n, m - 1);
    }
}

/// Sums `|xs[k] - ys[k]|` over the paired positions of two columns of equal
/// length, failing when the sum does not fit an `i32`.
pub fn sum_distances(xs: &Vec<i32>, ys: &Vec<i32>) -> (r: Result<i32, ListError>)
    requires
        xs.len() == ys.len(),
    ensures
        ({
            let total = distance_prefix(xs@, ys@, xs.len() as int);
            if total <= i32::MAX {
                r == Ok::<i32, ListError>(total as i32)
            } else {
                r == Err::<i32, ListError>(ListError::Overflow)
            }
        }),
{
    let mut total: i64 = 0;
    let mut k: usize = 0;
    while k < xs.len()
        invariant
            xs.len() == ys.len(),
            k <= xs.len(),
            0 <= total <= i32::MAX,
            total == distance_prefix(xs@, ys@, k as int),
        decreases xs.len() - k,
    {
        let d = xs[k] as i64 - ys[k] as i64;
        let step = if d < 0 {
            -d
        } else {
            d
        };
        if total + step > i32::MAX as i64 {
            proof {
                lemma_distance_grows(xs@, ys@, k + 1, xs.len() as int);
            }
            return Err(ListError::Overflow);
        }
        total = total + step;
        k = k + 1;
    }
    Ok(total as i32)
}

/// The distance between two columns of equal length: each sorted, then
/// `|x - y|` summed over the pairs in order.
pub fn total_distance(xs: Vec<i32>, ys: Vec<i32>) -> (r: Result<i32, ListError>)
    requires
        xs.len() == ys.len(),
    ensures
        ({
            let total = sorted_distance(xs@, ys@);
            if total <= i32::MAX {
                r == Ok::<i32, ListError>(total as i32)
            } else {
                r == Err::<i32, ListError>(ListError::Overflow)
            }
        }),
{
    let mut xs = xs;
    let mut ys = ys;
    let ghost (xs0, ys0) = (xs@, ys@);
    sort_column(&mut xs);
    sort_column(&mut ys);
    proof {
        let leq = |a: i32, b: i32| a <= b;
        xs0.lemma_sort_by_ensures(leq);
        ys0.lemma_sort_by_ensures(leq);
        xs0.to_multiset_ensures();
        ys0.to_multiset_ensures();
        xs@.to_multiset_ensures();
        ys@.to_multiset_ensures();
    }
    sum_distances(&xs, &ys)
}

proof fn lemma_occurrences_bounded(s: Seq<i32>, x: i32)
    ensures
        occurrences(s, x) <= s.len(),
    decreases s.len(),
{
    if s.len() > 0 {
        lemma_occurrences_bounded(s.drop_last(), x);
    }
}

proof fn lemma_similarity_grows(xs: Seq<i32>, ys: Seq<i32>, n: int, m: int)
    requires
        0 <= n <= m <= xs.len(),
        forall|k: int| 0 <= k < xs.len() ==> #[trigger] xs[k] >= 0,
    ensures
        similarity_prefix(xs, ys, n) <= similarity_prefix(xs, ys, m),
    decreases m - n,
{
    if n < m {
        lemma_similarity_grows(xs, ys, n, m - 1);
        let x = xs[m - 1];
        assert(x * occurrences(ys, x) >= 0) by (nonlinear_arith)
            requires
                x >= 0,
        ;
    }
}

/// The similarity score of two columns of non-negative values: each left
/// value times its number of occurrences on the right, summed; failing when
/// the score does not fit an `i32`.
pub fn similarity(xs: &Vec<i32>, ys: &Vec<i32>) -> (r: Result<i32, ListError>)
    requires
        forall|k: int| 0 <= k < xs.len() ==> #[trigger] xs[k] >= 0,
    ensures
        ({
            let score = similarity_score(xs@, ys@);
            if score <= i32::MAX {
                r == Ok::<i32, ListError>(score as i32)
            } else {
                r == Err::<i32, ListError>(ListError::Overflow)
            }
        }),
{
    let mut counts: HashMap<i32, usize> = HashMap::new();
    let mut i: usize = 0;
    while i < ys.len()
        invariant
            i <= ys.len(),
            forall|x: i32| #[trigger]
                counts@.contains_key(x) ==> counts@[x] == occurrences(ys@.take(i as int), x),
            forall|x: i32|
                !#[trigger] counts@.contains_key(x) ==> occurrences(ys@.take(i as int), x) == 0,
        decreases ys.len() - i,
    {
        let y = ys[i];
        proof {
            assert(ys@.take(i + 1).drop_last() =~= ys@.take(i as int));
            lemma_occurrences_bounded(ys@.take(i as int), y);
        }
        let seen = match counts.get(&y) {
            Some(c) => *c,
            None => 0,
        };
        counts.insert(y, seen + 1);
        i = i + 1;
    }
    proof {
        assert(ys@.take(ys.len() as int) =~= ys@);
    }
    let mut score: u128 = 0;
    let mut k: usize = 0;
    while k < xs.len()
        invariant
            k <= xs.len(),
            forall|j: int| 0 <= j < xs.len() ==> #[trigger] xs[j] >= 0,
            forall|x: i32| #[trigger]
                counts@.contains_key(x) ==> counts@[x] == occurrences(ys@, x),
            forall|x: i32| !#[trigger] counts@.contains_key(x) ==> occurrences(ys@, x) == 0,
            score <= i32::MAX,
            score == similarity_prefix(xs@, ys@, k as int),
        decreases xs.len() - k,
    {
        let x = xs[k];
        let c: usize = match counts.get(&x) {
            Some(c) => *c,
            None => 0,
        };
        let xu = x as u128;
        let cu = c as u128;
        assert(xu * cu <= 0x8000_0000 * 0x1_0000_0000_0000_0000) by (nonlinear_arith)
            requires
                xu < 0x8000_0000,
                cu < 0x1_0000_0000_0000_0000,
        ;
        let term = xu * cu;
        if score + term > i32::MAX as u128 {
            proof {
                lemma_similarity_grows(xs@, ys@, k + 1, xs.len() as int);
            }
            return Err(ListError::Overflow);
        }
        score = score + term;
        k = k + 1;
    }
    Ok(score as i32)
}

/// The distance between the two columns of `input`, as `total_distance`
/// gives it.
pub fn part1(input: &str) -> (r: Result<i32, ListError>)
    ensures
        !well_formed_rows(input.spec_bytes()) ==> r == Err::<i32, ListError>(ListError::Malformed),
        well_formed_rows(input.spec_bytes()) ==> ({
            let total = sorted_distance(left_column(input.spec_bytes()), right_column(input.spec_bytes()));
            if total <= i32::MAX {
                r == Ok::<i32, ListError>(total as i32)
            } else {
                r == Err::<i32, ListError>(ListError::Overflow)
            }
        }),
{
    match read_columns(input.as_bytes()) {
        Ok((xs, ys)) => total_distance(xs, ys),
        Err(e) => Err(e),
    }
}

/// The similarity score of the two columns of `input`, as `similarity`
/// gives it.
pub fn part2(input: &str) -> (r: Result<i32, ListError>)
    ensures
        !well_formed_rows(input.spec_bytes()) ==> r == Err::<i32, ListError>(ListError::Malformed),
        well_formed_rows(input.spec_bytes()) ==> ({
            let score = similarity_score(left_column(input.spec_bytes()), right_column(input.spec_bytes()));
            if score <= i32::MAX {
                r == Ok::<i32, ListError>(score as i32)
            } else {
                r == Err::<i32, ListError>(ListError::Overflow)
            }
        }),
{
    match read_columns(input.as_bytes()) {
        Ok((xs, ys)) => similarity(&xs, &ys),
        Err(e) => Err(e),
    }
}

} // verus!
