use aoc2024::classifier::{classify, State, TestState};
use aoc2024::day2::{count_safe_reports, part1, part2, read_reports, MalformedInput};
use aoc2024::step::{StepPolicy, StepRange};

fn canonical() -> StepPolicy {
    StepPolicy::canonical()
}

fn safe(report: &[isize], budget: u8) -> bool {
    classify(report, &canonical(), budget)
}

fn online_unsafe(report: &[isize]) -> bool {
    let mut state = TestState::new(report[0], report[1]);
    for &x in &report[2..] {
        state.push(x);
    }
    state.is_known_unsafe()
}

fn strictly_valid(range: &StepRange, report: &[isize]) -> bool {
    report.windows(2).all(|w| range.lo <= w[1] - w[0] && w[1] - w[0] <= range.hi)
}

fn search_safe(policy: &StepPolicy, report: &[isize], budget: u8) -> bool {
    let fits = |range: &StepRange| {
        if strictly_valid(range, report) {
            return true;
        }
        budget == 1
            && (0..report.len()).any(|i| {
                let mut rest = report.to_vec();
                rest.remove(i);
                strictly_valid(range, &rest)
            })
    };
    fits(&policy.increasing) || fits(&policy.decreasing)
}

const SAMPLE: &str = "7 6 4 2 1\n1 2 7 8 9\n9 7 6 2 1\n1 3 2 4 5\n8 6 4 4 1\n1 3 6 7 9\n";

#[test]
fn decreasing_by_valid_steps_is_safe() {
    assert!(safe(&[7, 6, 4, 2, 1], 0));
    assert!(safe(&[7, 6, 4, 2, 1], 1));
}

#[test]
fn two_separated_violations_are_unsafe() {
    assert!(!safe(&[1, 2, 7, 8, 9], 0));
    assert!(!safe(&[1, 2, 7, 8, 9], 1));
    assert!(online_unsafe(&[1, 2, 7, 8, 9]));
}

#[test]
fn one_large_drop_is_not_repaired() {
    // Dropping 6 leaves the step 7 -> 2, dropping 2 leaves 6 -> 1: both fall
    // by 5. The decreasing automaton goes TwoGood, TwoGood, TwoBad(6, 6),
    // Unsafe.
    assert!(!safe(&[9, 7, 6, 2, 1], 0));
    assert!(!safe(&[9, 7, 6, 2, 1], 1));
    assert!(online_unsafe(&[9, 7, 6, 2, 1]));
    let down = StepRange { lo: -3, hi: -1 };
    let mut state = State::start(&down, true, 9, 7);
    state = state.advance(&down, true, 6);
    state = state.advance(&down, true, 2);
    assert_eq!(state, State::TwoBad(6, 6));
    assert_eq!(state.advance(&down, true, 1), State::Unsafe);
}

#[test]
fn one_reversed_pair_is_repaired() {
    assert!(!safe(&[1, 3, 2, 4, 5], 0));
    assert!(safe(&[1, 3, 2, 4, 5], 1));
}

#[test]
fn repeated_value_is_repaired() {
    assert!(!safe(&[8, 6, 4, 4, 1], 0));
    assert!(safe(&[8, 6, 4, 4, 1], 1));
}

#[test]
fn increasing_by_valid_steps_is_safe() {
    assert!(safe(&[1, 3, 6, 7, 9], 0));
    assert!(safe(&[1, 3, 6, 7, 9], 1));
}

#[test]
fn dropping_the_first_value() {
    assert!(!safe(&[5, 1, 2, 3], 0));
    assert!(safe(&[5, 1, 2, 3], 1));
    assert!(safe(&[1, 5, 6, 7], 1));
}

#[test]
fn dropping_the_last_value() {
    assert!(!safe(&[1, 2, 3, 9], 0));
    assert!(safe(&[1, 2, 3, 9], 1));
}

#[test]
fn two_values_are_always_safe_with_one_removal() {
    assert!(safe(&[1, 100], 1));
    assert!(!safe(&[1, 100], 0));
    assert!(safe(&[4, 4], 1));
    assert!(!safe(&[4, 4], 0));
    assert!(safe(&[2, 4], 0));
}

#[test]
fn sample_counts() {
    assert_eq!(part1(SAMPLE), Ok(2));
    assert_eq!(part2(SAMPLE), Ok(4));
}

#[test]
fn last_line_without_newline() {
    let text = SAMPLE.trim_end();
    assert_eq!(part1(text), Ok(2));
    assert_eq!(part2(text), Ok(4));
}

#[test]
fn empty_input_has_no_reports() {
    assert_eq!(part1(""), Ok(0));
    assert_eq!(part2(""), Ok(0));
}

#[test]
fn reads_multi_digit_values() {
    let reports = read_reports(b"10 12 15\n99 98\n").unwrap();
    assert_eq!(reports, vec![vec![10, 12, 15], vec![99, 98]]);
}

#[test]
fn malformed_inputs_are_rejected() {
    for text in [
        "1 2\n\n",
        "1\n",
        "1 2\n3",
        "1  2\n",
        " 1 2\n",
        "1 2 \n",
        "1 x\n",
        "1 2\r\n",
        "99999999999999999999999 1\n",
    ] {
        assert_eq!(part1(text), Err(MalformedInput), "{:?}", text);
        assert_eq!(part2(text), Err(MalformedInput), "{:?}", text);
    }
}

#[test]
fn custom_policy_and_budget() {
    let wide = StepPolicy {
        increasing: StepRange { lo: 1, hi: 5 },
        decreasing: StepRange { lo: -5, hi: -1 },
    };
    assert!(classify(&[1, 2, 7, 8, 9], &wide, 0));
    let reports = vec![vec![1, 2, 7, 8, 9], vec![1, 1, 1]];
    assert_eq!(count_safe_reports(&reports, &wide, 0), 1);
    assert_eq!(count_safe_reports(&reports, &canonical(), 1), 0);
}

#[test]
fn steps_at_the_extremes_do_not_overflow() {
    let any = StepRange { lo: isize::MIN, hi: isize::MAX };
    assert!(!any.contains_step(isize::MIN, isize::MAX));
    assert!(!any.contains_step(isize::MAX, isize::MIN));
    assert!(any.contains_step(0, isize::MAX));
    assert!(!safe(&[isize::MIN, isize::MAX, isize::MIN], 0));
}

#[test]
fn transitions_follow_the_table() {
    let up = StepRange { lo: 1, hi: 3 };
    assert_eq!(State::start(&up, true, 1, 2), State::TwoGood(1, 2));
    assert_eq!(State::start(&up, true, 2, 1), State::TwoBad(2, 1));
    assert_eq!(State::start(&up, false, 2, 1), State::Unsafe);
    assert_eq!(State::TwoGood(1, 2).advance(&up, true, 4), State::TwoGood(2, 4));
    assert_eq!(State::TwoGood(1, 5).advance(&up, true, 3), State::TwoBad(5, 3));
    assert_eq!(State::TwoGood(1, 5).advance(&up, true, 9), State::TwoBad(5, 5));
    assert_eq!(State::TwoGood(1, 5).advance(&up, false, 9), State::Unsafe);
    assert_eq!(State::TwoBad(5, 3).advance(&up, true, 4), State::TwoBad(4, 4));
    assert_eq!(State::TwoBad(5, 3).advance(&up, true, 3), State::Unsafe);
    assert_eq!(State::Unsafe.advance(&up, true, 3), State::Unsafe);
    assert!(State::Unsafe.is_unsafe());
    assert!(!State::TwoBad(1, 1).is_unsafe());
}

fn all_reports(max_len: usize, values: isize) -> Vec<Vec<isize>> {
    let mut out = Vec::new();
    let mut layer: Vec<Vec<isize>> = vec![vec![]];
    for len in 1..=max_len {
        let mut next = Vec::new();
        for r in &layer {
            for v in 0..values {
                let mut r2 = r.clone();
                r2.push(v);
                next.push(r2);
            }
        }
        layer = next;
        if len >= 2 {
            out.extend(layer.iter().cloned());
        }
    }
    out
}

#[test]
fn automaton_agrees_with_removal_search() {
    let asymmetric = StepPolicy {
        increasing: StepRange { lo: 1, hi: 2 },
        decreasing: StepRange { lo: -4, hi: -2 },
    };
    for policy in [canonical(), asymmetric] {
        for report in all_reports(6, 6) {
            for budget in [0u8, 1] {
                assert_eq!(
                    classify(&report, &policy, budget),
                    search_safe(&policy, &report, budget),
                    "{:?} {}",
                    report,
                    budget
                );
            }
        }
    }
}

#[test]
fn automaton_agrees_with_removal_search_on_long_reports() {
    let policy = canonical();
    let mut seed: u64 = 12345;
    for _ in 0..2000 {
        let mut report = Vec::new();
        let mut v: isize = 50;
        for _ in 0..10 {
            seed = seed.wrapping_mul(6364136223846793005).wrapping_add(1442695040888963407);
            v += ((seed >> 33) % 9) as isize - 3;
            report.push(v);
        }
        assert_eq!(classify(&report, &policy, 1), search_safe(&policy, &report, 1), "{:?}", report);
        assert_eq!(online_unsafe(&report), !search_safe(&policy, &report, 1), "{:?}", report);
    }
}

#[test]
fn reversal_under_swapped_ranges_keeps_the_verdict() {
    let policy = canonical();
    let swapped = StepPolicy { increasing: policy.decreasing, decreasing: policy.increasing };
    for report in all_reports(5, 5) {
        let mut reversed = report.clone();
        reversed.reverse();
        for budget in [0u8, 1] {
            assert_eq!(classify(&report, &policy, budget), classify(&reversed, &swapped, budget));
        }
    }
    assert!(classify(&[1, 3, 2, 4, 5], &policy, 1));
    assert!(classify(&[5, 4, 2, 3, 1], &swapped, 1));
    assert!(!classify(&[9, 7, 6, 2, 1], &policy, 1));
    assert!(!classify(&[1, 2, 6, 7, 9], &swapped, 1));
}

#[test]
fn larger_budget_keeps_safe_reports_safe() {
    let policy = canonical();
    for report in all_reports(5, 5) {
        if classify(&report, &policy, 0) {
            assert!(classify(&report, &policy, 1), "{:?}", report);
        }
    }
    assert!(classify(&[1, 3, 6, 7, 9], &policy, 0) && classify(&[1, 3, 6, 7, 9], &policy, 1));
}
