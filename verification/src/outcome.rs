//! What a run of the solver comes to: a schedule, the finding that there
//! is none, or a failure.

use crate::certify::check_schedule;
use crate::model::{problem, Commit};
use crate::schedule::{valid, Schedule, Valuation};
use crate::solver::Verdict;
use vstd::prelude::*;

verus! {

/// The answer to a scheduling problem.
#[derive(Debug)]
pub enum Outcome {
    /// The commitments can be scheduled, this way.
    Scheduled(Schedule),
    /// No assignment meets the rules.
    Unsatisfiable,
}

/// Why no answer was reached.
#[derive(Clone, Copy, Debug, PartialEq, Eq, Structural)]
pub enum SolveError {
    /// The problem has more variables of one kind than one constraint of
    /// the solver can hold.
    TooLarge,
    /// The solver gave up.
    Unknown,
    /// The solver found the constraints satisfiable and had no assignment
    /// to show.
    NoModel,
    /// The solver's assignment lacks a value, or has a price that does
    /// not fit 64 bits.
    Unreadable,
    /// The solver's assignment breaks a rule.
    Inconsistent,
}

/// What was read from the solver's assignment: for each variable its
/// value, where it could be read.
#[derive(Debug)]
pub struct Reading {
    pub commits: Vec<Option<bool>>,
    pub allofs: Vec<Vec<Option<bool>>>,
    pub s_calls: Vec<Vec<Vec<Option<bool>>>>,
    pub prices: Vec<(String, Option<i64>)>,
}

/// A reading as a mathematical value.
pub struct ReadingView {
    pub commits: Seq<Option<bool>>,
    pub plans: Seq<Seq<Option<bool>>>,
    pub calls: Seq<Seq<Seq<Option<bool>>>>,
    pub prices: Seq<(Seq<char>, Option<int>)>,
}

/// What was read of the plans.
pub open spec fn plans_read(v: Seq<Vec<Option<bool>>>) -> Seq<Seq<Option<bool>>> {
    Seq::new(v.len(), |i: int| v[i]@)
}

/// What was read of the occurrences.
pub open spec fn calls_read(v: Seq<Vec<Vec<Option<bool>>>>) -> Seq<Seq<Seq<Option<bool>>>> {
    Seq::new(v.len(), |i: int| plans_read(v[i]@))
}

/// What was read of the prices.
pub open spec fn prices_read(v: Seq<(String, Option<i64>)>) -> Seq<(Seq<char>, Option<int>)> {
    Seq::new(
        v.len(),
        |y: int|
            (
                v[y].0@,
                match v[y].1 {
                    Some(n) => Some(n as int),
                    None => None,
                },
            ),
    )
}

impl View for Reading {
    type V = ReadingView;

    open spec fn view(&self) -> ReadingView {
        ReadingView {
            commits: self.commits@,
            plans: plans_read(self.allofs@),
            calls: calls_read(self.s_calls@),
            prices: prices_read(self.prices@),
        }
    }
}

/// Every value of the row was read.
pub open spec fn row_complete(row: Seq<Option<bool>>) -> bool {
    forall|k: int| 0 <= k < row.len() ==> (#[trigger] row[k]) is Some
}

/// Every value was read.
pub open spec fn complete(r: ReadingView) -> bool {
    &&& row_complete(r.commits)
    &&& forall|i: int| 0 <= i < r.plans.len() ==> row_complete(#[trigger] r.plans[i])
    &&& forall|i: int, j: int|
        0 <= i < r.calls.len() && 0 <= j < r.calls[i].len() ==> row_complete(
            #[trigger] r.calls[i][j],
        )
    &&& forall|y: int| 0 <= y < r.prices.len() ==> (#[trigger] r.prices[y]).1 is Some
}

/// The values of a row that was read.
pub open spec fn row_settled(row: Seq<Option<bool>>) -> Seq<bool> {
    Seq::new(row.len(), |k: int| row[k]->0)
}

/// The assignment that a complete reading is.
pub open spec fn settled(r: ReadingView) -> Valuation {
    Valuation {
        commits: row_settled(r.commits),
        plans: Seq::new(r.plans.len(), |i: int| row_settled(r.plans[i])),
        calls: Seq::new(
            r.calls.len(),
            |i: int| Seq::new(r.calls[i].len(), |j: int| row_settled(r.calls[i][j])),
        ),
        prices: Seq::new(r.prices.len(), |y: int| (r.prices[y].0, r.prices[y].1->0)),
    }
}

/// The values of a row, if all of them were read.
fn settle_row(row: &Vec<Option<bool>>) -> (r: Option<Vec<bool>>)
    ensures
        r is Some <==> row_complete(row@),
        r matches Some(v) ==> v@ == row_settled(row@),
{
    let mut out: Vec<bool> = Vec::new();
    let mut k: usize = 0;
    while k < row.len()
        invariant
            k <= row.len(),
            out.len() == k,
            forall|c: int| 0 <= c < k ==> (#[trigger] row[c]) is Some && out[c] == row[c]->0,
        decreases row.len() - k,
    {
        match row[k] {
            Some(b) => {
                out.push(b);
            },
            None => {
                return None;
            },
        }
        k = k + 1;
    }
    assert(out@ =~= row_settled(row@));
    Some(out)
}

/// The values of the rows, if all of them were read.
fn settle_rows(rows: &Vec<Vec<Option<bool>>>) -> (r: Option<Vec<Vec<bool>>>)
    ensures
        r is Some <==> forall|j: int| 0 <= j < rows.len() ==> row_complete((#[trigger] rows[j])@),
        r matches Some(v) ==> v.len() == rows.len() && forall|j: int|
            0 <= j < rows.len() ==> (#[trigger] v[j])@ == row_settled(rows[j]@),
{
    let mut out: Vec<Vec<bool>> = Vec::new();
    let mut j: usize = 0;
    while j < rows.len()
        invariant
            j <= rows.len(),
            out.len() == j,
            forall|b: int| 0 <= b < j ==> row_complete((#[trigger] rows[b])@),
            forall|b: int| 0 <= b < j ==> (#[trigger] out[b])@ == row_settled(rows[b]@),
        decreases rows.len() - j,
    {
        match settle_row(&rows[j]) {
            Some(v) => {
                out.push(v);
            },
            None => {
                return None;
            },
        }
        j = j + 1;
    }
    Some(out)
}

/// The assignment that the reading is, if every value was read.
pub fn settle(reading: &Reading) -> (r: Option<Schedule>)
    ensures
        r is Some <==> complete(reading@),
        r matches Some(s) ==> s@ == settled(reading@),
{
    let ghost rv = reading@;
    let commits = match settle_row(&reading.commits) {
        Some(v) => v,
        None => {
            return None;
        },
    };
    let allofs = match settle_rows(&reading.allofs) {
        Some(v) => v,
        None => {
            proof {
                let j = choose|j: int|
                    0 <= j < reading.allofs.len() && !row_complete((#[trigger] reading.allofs[j])@);
                assert(rv.plans[j] == reading.allofs[j]@);
            }
            return None;
        },
    };
    assert forall|i: int| 0 <= i < rv.plans.len() implies row_complete(#[trigger] rv.plans[i]) by {
        assert(rv.plans[i] == reading.allofs[i]@);
    }
    let mut s_calls: Vec<Vec<Vec<bool>>> = Vec::new();
    let mut i: usize = 0;
    while i < reading.s_calls.len()
        invariant
            i <= reading.s_calls.len(),
            rv == reading@,
            s_calls.len() == i,
            forall|a: int, b: int|
                0 <= a < i && 0 <= b < rv.calls[a].len() ==> row_complete(
                    #[trigger] rv.calls[a][b],
                ),
            forall|a: int|
                0 <= a < i ==> (#[trigger] s_calls[a]).len() == rv.calls[a].len() && forall|b: int|
                    0 <= b < rv.calls[a].len() ==> (#[trigger] s_calls[a][b])@ == row_settled(
                        rv.calls[a][b],
                    ),
        decreases reading.s_calls.len() - i,
    {
        assert(rv.calls[i as int] == plans_read(reading.s_calls[i as int]@));
        match settle_rows(&reading.s_calls[i]) {
            Some(v) => {
                assert forall|b: int| 0 <= b < rv.calls[i as int].len() implies row_complete(
                    #[trigger] rv.calls[i as int][b],
                ) && v[b]@ == row_settled(rv.calls[i as int][b]) by {
                    assert(rv.calls[i as int][b] == reading.s_calls[i as int][b]@);
                }
                s_calls.push(v);
            },
            None => {
                proof {
                    let b = choose|b: int|
                        0 <= b < reading.s_calls[i as int].len() && !row_complete(
                            (#[trigger] reading.s_calls[i as int][b])@,
                        );
                    assert(rv.calls[i as int][b] == reading.s_calls[i as int][b]@);
                }
                return None;
            },
        }
        i = i + 1;
    }
    let mut prices: Vec<(String, i64)> = Vec::new();
    let mut y: usize = 0;
    while y < reading.prices.len()
        invariant
            y <= reading.prices.len(),
            rv == reading@,
            prices.len() == y,
            forall|z: int| 0 <= z < y ==> (#[trigger] rv.prices[z]).1 is Some,
            forall|z: int|
                0 <= z < y ==> (#[trigger] prices[z]).0@ == rv.prices[z].0 && prices[z].1 as int
                    == rv.prices[z].1->0,
        decreases reading.prices.len() - y,
    {
        assert(rv.prices[y as int].0 == reading.prices[y as int].0@);
        match reading.prices[y].1 {
            Some(n) => {
                prices.push((reading.prices[y].0.clone(), n));
            },
            None => {
                assert(rv.prices[y as int].1 is None);
                return None;
            },
        }
        y = y + 1;
    }
    let s = Schedule { commits, allofs, s_calls, prices };
    proof {
        let want = settled(rv);
        assert(s@.commits =~= want.commits);
        assert(s@.plans =~= want.plans);
        assert(s@.calls.len() == want.calls.len());
        assert forall|a: int| 0 <= a < want.calls.len() implies s@.calls[a] == want.calls[a] by {
            assert(s@.calls[a] =~= want.calls[a]);
        }
        assert(s@.calls =~= want.calls);
        assert(s@.prices =~= want.prices);
    }
    Some(s)
}

/// What the answer is, given the solver's verdict and what was read of its
/// assignment: no schedule where the solver found none; a failure where it
/// gave up, showed no assignment, or showed one that is incomplete or
/// breaks a rule; else the assignment, which is a schedule.
pub fn interpret(commits: &Vec<Commit>, verdict: Verdict, reading: Option<Reading>) -> (r: Result<
    Outcome,
    SolveError,
>)
    ensures
        verdict == Verdict::Unsat ==> r matches Ok(Outcome::Unsatisfiable),
        verdict == Verdict::Unknown ==> r == Err::<Outcome, SolveError>(SolveError::Unknown),
        verdict == Verdict::Sat ==> match reading {
            None => r == Err::<Outcome, SolveError>(SolveError::NoModel),
            Some(rd) => if !complete(rd@) {
                r == Err::<Outcome, SolveError>(SolveError::Unreadable)
            } else if !valid(problem(commits@), settled(rd@)) {
                r == Err::<Outcome, SolveError>(SolveError::Inconsistent)
            } else {
                r matches Ok(Outcome::Scheduled(s)) && s@ == settled(rd@)
            },
        },
{
    match verdict {
        Verdict::Unsat => Ok(Outcome::Unsatisfiable),
        Verdict::Unknown => Err(SolveError::Unknown),
        Verdict::Sat => match reading {
            None => Err(SolveError::NoModel),
            Some(rd) => match settle(&rd) {
                None => Err(SolveError::Unreadable),
                Some(s) => if check_schedule(commits, &s) {
                    Ok(Outcome::Scheduled(s))
                } else {
                    Err(SolveError::Inconsistent)
                },
            },
        },
    }
}

} // verus!
