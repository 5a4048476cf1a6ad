//! Which puzzle days exist and which have a solver.
use vstd::prelude::*;

use crate::dashboard::{Day, JobStatus};
use crate::day1::Day1;
use crate::day2::Day2;
use crate::day3::Day3;

verus! {

/// The days of the calendar.
pub const DAY_COUNT: usize = 25;

/// The days with a solver: 1 up to this one.
pub const SOLVED_DAYS: usize = 3;

/// Why a day number has no solver.
#[derive(Debug, Clone, Copy, PartialEq, Eq, Structural)]
pub enum AocError {
    /// A day of the calendar without a solver yet.
    UnimplementedDay,
    /// A number outside the calendar.
    NonExistentDay,
}

impl AocError {
    pub fn message(&self) -> (r: &'static str)
        ensures
            r@ == match self {
                AocError::UnimplementedDay => "Day not implemented yet"@,
                AocError::NonExistentDay => "Non-existent day"@,
            },
    {
        match self {
            AocError::UnimplementedDay => "Day not implemented yet",
            AocError::NonExistentDay => "Non-existent day",
        }
    }
}

/// Classifies a day number: a day with a solver gives its number back.
pub fn get_day(day: usize) -> (r: Result<usize, AocError>)
    ensures
        1 <= day <= SOLVED_DAYS ==> r == Ok::<usize, AocError>(day),
        SOLVED_DAYS < day <= DAY_COUNT ==> r == Err::<usize, AocError>(AocError::UnimplementedDay),
        day == 0 || day > DAY_COUNT ==> r == Err::<usize, AocError>(AocError::NonExistentDay),
{
    if 1 <= day && day <= SOLVED_DAYS {
        Ok(day)
    } else if 1 <= day && day <= DAY_COUNT {
        Err(AocError::UnimplementedDay)
    } else {
        Err(AocError::NonExistentDay)
    }
}

/// The input files of a day with a solver, as its `inputs` lists them.
pub fn day_inputs(day: usize) -> (r: Option<Vec<String>>)
    ensures
        r is Some <==> 1 <= day <= SOLVED_DAYS,
        r is Some ==> r->0@.len() == 2,
        day == 1 ==> r->0@[0]@ == "inputs/day1/small.txt"@ && r->0@[1]@ == "inputs/day1/real.txt"@,
        day == 2 ==> r->0@[0]@ == "inputs/day2/small.txt"@ && r->0@[1]@ == "inputs/day2/real.txt"@,
        day == 3 ==> r->0@[0]@ == "inputs/day3/small.txt"@ && r->0@[1]@ == "inputs/day3/real.txt"@,
{
    let files = match get_day(day) {
        Ok(1) => Day1.inputs(),
        Ok(2) => Day2.inputs(),
        Ok(_) => Day3.inputs(),
        Err(_) => return None,
    };
    let mut out: Vec<String> = Vec::new();
    let mut i: usize = 0;
    while i < files.len()
        invariant
            i <= files@.len(),
            out@.len() == i,
            forall|k: int| 0 <= k < i ==> (#[trigger] out@[k])@ == files@[k]@,
        decreases files@.len() - i,
    {
        out.push(String::from_str(files[i]));
        i = i + 1;
    }
    Some(out)
}

/// The calendar as the dashboard lists it: days 1 to 25, each day with a
/// solver holding a ready instance of each part for each of its inputs.
pub fn days() -> (r: Vec<Day>)
    ensures
        r@.len() == DAY_COUNT,
        forall|i: int|
            0 <= i < DAY_COUNT ==> {
                let d = #[trigger] r@[i];
                &&& d.number == i + 1
                &&& d.present == (i + 1 <= SOLVED_DAYS)
                &&& d.instances@.len() == if i + 1 <= SOLVED_DAYS { 4nat } else { 0nat }
                &&& forall|k: int| 0 <= k < d.instances@.len() ==> (#[trigger] d.instances@[k]).status == JobStatus::Ready
            },
{
    let mut out: Vec<Day> = Vec::new();
    let mut n: usize = 1;
    while n <= DAY_COUNT
        invariant
            1 <= n <= DAY_COUNT + 1,
            out@.len() == n - 1,
            forall|i: int|
                0 <= i < n - 1 ==> {
                    let d = #[trigger] out@[i];
                    &&& d.number == i + 1
                    &&& d.present == (i + 1 <= SOLVED_DAYS)
                    &&& d.instances@.len() == if i + 1 <= SOLVED_DAYS { 4nat } else { 0nat }
                    &&& forall|k: int| 0 <= k < d.instances@.len() ==> (#[trigger] d.instances@[k]).status == JobStatus::Ready
                },
        decreases DAY_COUNT + 1 - n,
    {
        out.push(Day::new(n, day_inputs(n)));
        n = n + 1;
    }
    out
}

} // verus!
