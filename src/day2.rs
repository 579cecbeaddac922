//! Counting safe reports in a text of lines of space-separated non-negative
//! decimal integers, one report per line.
use vstd::prelude::*;
use vstd::string::StringSliceAdditionalSpecFns;
use crate::ascii::{DIGIT_NINE, DIGIT_ZERO, NEWLINE, SPACE};
use crate::classifier::classify;
use crate::report::report_safe;
use crate::step::{canonical_policy, StepPolicy};

verus! {

/// The input is not lines of at least two space-separated decimal integers,
/// each of which fits an `isize`.
#[derive(Clone, Copy, Debug, PartialEq, Eq, Structural)]
pub struct MalformedInput;

/// Where a left-to-right reading of the input stands: the finished reports,
/// the values of the current line, the number being read, and whether the
/// text has already broken the format.
pub struct Scanned {
    pub reports: Seq<Seq<isize>>,
    pub line: Seq<isize>,
    pub number: Option<isize>,
    pub malformed: bool,
}

/// Nothing read yet.
pub open spec fn scan_start() -> Scanned {
    Scanned { reports: Seq::empty(), line: Seq::empty(), number: None, malformed: false }
}

/// The reading once the text has broken the format.
pub open spec fn broken(st: Scanned) -> Scanned {
    Scanned { malformed: true, ..st }
}

/// The number being read, extended by the digit `c`.
pub open spec fn extended(number: Option<isize>, c: u8) -> int {
    let d = c - DIGIT_ZERO;
    match number {
        Some(v) => v * 10 + d,
        None => d,
    }
}

/// One byte of input read.
pub open spec fn scan_byte(st: Scanned, c: u8) -> Scanned {
    if st.malformed {
        st
    } else if DIGIT_ZERO <= c && c <= DIGIT_NINE {
        let v = extended(st.number, c);
        if v > isize::MAX {
            broken(st)
        } else {
            Scanned { number: Some(v as isize), ..st }
        }
    } else if c == SPACE {
        match st.number {
            Some(v) => Scanned { line: st.line.push(v), number: None, ..st },
            None => broken(st),
        }
    } else if c == NEWLINE {
        match st.number {
            Some(v) => if st.line.len() + 1 < 2 {
                broken(st)
            } else {
                Scanned {
                    reports: st.reports.push(st.line.push(v)),
                    line: Seq::empty(),
                    number: None,
                    malformed: false,
                }
            },
            None => broken(st),
        }
    } else {
        broken(st)
    }
}

/// The reading after all of `bytes`.
pub open spec fn scanned(bytes: Seq<u8>) -> Scanned
    decreases bytes.len(),
{
    if bytes.len() == 0 {
        scan_start()
    } else {
        scan_byte(scanned(bytes.drop_last()), bytes.last())
    }
}

/// The reports in `bytes`, or `None` where the text is malformed. The last
/// line may lack its newline.
pub open spec fn parse_reports(bytes: Seq<u8>) -> Option<Seq<Seq<isize>>> {
    let st = scanned(bytes);
    if st.malformed {
        None
    } else {
        match st.number {
            Some(v) => if st.line.len() + 1 < 2 {
                None
            } else {
                Some(st.reports.push(st.line.push(v)))
            },
            None => if st.line.len() == 0 {
                Some(st.reports)
            } else {
                None
            },
        }
    }
}

/// How many of `rs` are safe under `p` and the removal budget.
pub open spec fn count_safe(rs: Seq<Seq<isize>>, p: StepPolicy, budget: nat) -> nat
    decreases rs.len(),
{
    if rs.len() == 0 {
        0
    } else {
        count_safe(rs.drop_last(), p, budget) + if report_safe(p, rs.last(), budget) {
            1nat
        } else {
            0nat
        }
    }
}

proof fn lemma_malformed_stays(bytes: Seq<u8>, i: int)
    requires
        0 <= i <= bytes.len(),
        scanned(bytes.take(i)).malformed,
    ensures
        scanned(bytes).malformed,
    decreases bytes.len() - i,
{
    if i < bytes.len() {
        assert(bytes.take(i + 1).drop_last() =~= bytes.take(i));
        lemma_malformed_stays(bytes, i + 1);
    } else {
        assert(bytes.take(i) =~= bytes);
    }
}

/// Reads the reports of `input`: one per line, at least two values each.
pub fn read_reports(input: &[u8]) -> (r: Result<Vec<Vec<isize>>, MalformedInput>)
    ensures
        match parse_reports(input@) {
            Some(rs) => r is Ok && r->Ok_0.deep_view() == rs,
            None => r is Err,
        },
        r is Ok ==> forall|k: int| 0 <= k < r->Ok_0.len() ==> #[trigger] r->Ok_0[k]@.len() >= 2,
{
    let mut reports: Vec<Vec<isize>> = Vec::new();
    let mut line: Vec<isize> = Vec::new();
    let mut number: Option<isize> = None;
    let mut i: usize = 0;
    proof {
        assert(input@.take(0) =~= Seq::<u8>::empty());
        assert(reports.deep_view() =~= Seq::<Seq<isize>>::empty());
    }
    while i < input.len()
        invariant
            0 <= i <= input@.len(),
            scanned(input@.take(i as int)) == (Scanned {
                reports: reports.deep_view(),
                line: line@,
                number,
                malformed: false,
            }),
            number is Some ==> number->Some_0 >= 0,
            forall|k: int| 0 <= k < reports.len() ==> #[trigger] reports[k]@.len() >= 2,
        decreases input@.len() - i,
    {
        let c = input[i];
        proof {
            assert(input@.take(i + 1).drop_last() =~= input@.take(i as int));
        }
        if DIGIT_ZERO <= c && c <= DIGIT_NINE {
            let d = (c - DIGIT_ZERO) as isize;
            let v = match number {
                Some(v) => match v.checked_mul(10) {
                    Some(w) => w.checked_add(d),
                    None => None,
                },
                None => Some(d),
            };
            match v {
                Some(v) => {
                    number = Some(v);
                },
                None => {
                    proof {
                        lemma_malformed_stays(input@, i + 1);
                    }
                    return Err(MalformedInput);
                },
            }
        } else if c == SPACE || c == NEWLINE {
            match number {
                Some(v) => {
                    line.push(v);
                    number = None;
                },
                None => {
                    proof {
                        lemma_malformed_stays(input@, i + 1);
                    }
                    return Err(MalformedInput);
                },
            }
            if c == NEWLINE {
                if line.len() < 2 {
                    proof {
                        lemma_malformed_stays(input@, i + 1);
                    }
                    return Err(MalformedInput);
                }
                let ghost before = reports.deep_view();
                proof {
                    assert(line.deep_view() =~= line@);
                }
                reports.push(line);
                line = Vec::new();
                proof {
                    assert(reports.deep_view() =~= before.push(reports[reports.len() - 1].deep_view()));
                }
            }
        } else {
            proof {
                lemma_malformed_stays(input@, i + 1);
            }
            return Err(MalformedInput);
        }
        i = i + 1;
    }
    proof {
        assert(input@.take(input@.len() as int) =~= input@);
    }
    match number {
        Some(v) => {
            line.push(v);
            if line.len() < 2 {
                return Err(MalformedInput);
            }
            let ghost before = reports.deep_view();
            proof {
                assert(line.deep_view() =~= line@);
            }
            reports.push(line);
            proof {
                assert(reports.deep_view() =~= before.push(reports[reports.len() - 1].deep_view()));
            }
            Ok(reports)
        },
        None => {
            if line.len() != 0 {
                return Err(MalformedInput);
            }
            Ok(reports)
        },
    }
}

/// Counts the reports that are safe under `policy` and the removal budget.
pub fn count_safe_reports(reports: &Vec<Vec<isize>>, policy: &StepPolicy, budget: u8) -> (r: usize)
    requires
        forall|k: int| 0 <= k < reports.len() ==> #[trigger] reports[k]@.len() >= 2,
        budget <= 1,
    ensures
        r == count_safe(reports.deep_view(), *policy, budget as nat),
{
    let mut count: usize = 0;
    let mut i: usize = 0;
    while i < reports.len()
        invariant
            0 <= i <= reports.len(),
            budget <= 1,
            forall|k: int| 0 <= k < reports.len() ==> #[trigger] reports[k]@.len() >= 2,
            count <= i,
            count == count_safe(reports.deep_view().take(i as int), *policy, budget as nat),
        decreases reports.len() - i,
    {
        let safe = classify(reports[i].as_slice(), policy, budget);
        proof {
            assert(reports.deep_view().take(i + 1).drop_last() =~= reports.deep_view().take(i as int));
            assert(reports[i as int].deep_view() =~= reports[i as int]@);
        }
        if safe {
            count = count + 1;
        }
        i = i + 1;
    }
    proof {
        assert(reports.deep_view().take(reports.len() as int) =~= reports.deep_view());
    }
    count
}

/// The number of safe reports in `input` under the canonical policy, with no
/// value discarded.
pub fn part1(input: &str) -> (r: Result<usize, MalformedInput>)
    ensures
        match parse_reports(input.spec_bytes()) {
            Some(rs) => r is Ok && r->Ok_0 == count_safe(rs, canonical_policy(), 0),
            None => r is Err,
        },
{
    count_in_text(input, 0)
}

/// The number of safe reports in `input` under the canonical policy, with at
/// most one value discarded from each.
pub fn part2(input: &str) -> (r: Result<usize, MalformedInput>)
    ensures
        match parse_reports(input.spec_bytes()) {
            Some(rs) => r is Ok && r->Ok_0 == count_safe(rs, canonical_policy(), 1),
            None => r is Err,
        },
{
    count_in_text(input, 1)
}

fn count_in_text(input: &str, budget: u8) -> (r: Result<usize, MalformedInput>)
    requires
        budget <= 1,
    ensures
        match parse_reports(input.spec_bytes()) {
            Some(rs) => r is Ok && r->Ok_0 == count_safe(rs, canonical_policy(), budget as nat),
            None => r is Err,
        },
{
    match read_reports(input.as_bytes()) {
        Ok(reports) => Ok(count_safe_reports(&reports, &StepPolicy::canonical(), budget)),
        Err(e) => Err(e),
    }
}

} // verus!
