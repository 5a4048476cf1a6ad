//! Sonar Sweep: how often a depth reading increases.
use itertools::Itertools;
use vstd::prelude::*;
use vstd::string::StringExecFns;

use crate::day3::lines_of;
use crate::puzzle::{parse_usize, unsigned_text, SolveError};

verus! {

pub struct Day1;

/// The depths that the lines hold: each line that reads as an unsigned
/// integer, in order; other lines are skipped.
pub open spec fn depths(lines: Seq<Seq<char>>) -> Seq<usize>
    decreases lines.len(),
{
    if lines.len() == 0 {
        Seq::empty()
    } else {
        let rest = depths(lines.drop_last());
        match unsigned_text(lines.last()) {
            Some(n) => if n <= usize::MAX {
                rest.push(n as usize)
            } else {
                rest
            },
            None => rest,
        }
    }
}

/// How many entries are larger than the one before them.
pub open spec fn count_increases(s: Seq<int>) -> nat
    decreases s.len(),
{
    if s.len() < 2 {
        0
    } else {
        count_increases(s.drop_last()) + if s.last() > s[s.len() - 2] { 1nat } else { 0nat }
    }
}

/// The sums of each three consecutive entries.
pub open spec fn window_sums(s: Seq<usize>) -> Seq<int> {
    Seq::new(
        if s.len() >= 3 { (s.len() - 2) as nat } else { 0 },
        |i: int| s[i] + s[i + 1] + s[i + 2],
    )
}

pub open spec fn as_ints(s: Seq<usize>) -> Seq<int> {
    s.map_values(|x: usize| x as int)
}

/// Relies on itertools' `tuple_windows`: over a sequence it yields each run
/// of three consecutive items, from the first on, and nothing when there are
/// fewer than three.
#[verifier::external_body]
fn windows_of_three(values: &Vec<usize>) -> (r: Vec<(usize, usize, usize)>)
    ensures
        r@.len() == if values@.len() >= 3 { values@.len() - 2 } else { 0 },
        forall|i: int|
            0 <= i < r@.len() ==> #[trigger] r@[i] == (values@[i], values@[i + 1], values@[i + 2]),
{
    values.iter().copied().tuple_windows().collect()
}

/// Reads the depth of each line that holds one.
fn read_depths(input: &Vec<String>) -> (r: Vec<usize>)
    ensures
        r@ == depths(lines_of(input@)),
{
    let ghost lines = lines_of(input@);
    let mut out: Vec<usize> = Vec::new();
    let mut i: usize = 0;
    while i < input.len()
        invariant
            i <= input@.len(),
            lines == lines_of(input@),
            out@ == depths(lines.take(i as int)),
        decreases input@.len() - i,
    {
        assert(lines.take(i + 1).drop_last() =~= lines.take(i as int));
        assert(lines[i as int] == input@[i as int]@);
        match parse_usize(input[i].as_str()) {
            Some(d) => out.push(d),
            None => {},
        }
        i = i + 1;
    }
    assert(lines.take(i as int) =~= lines);
    out
}

/// Counts the entries larger than the one before them.
fn increases(values: &Vec<usize>) -> (r: usize)
    ensures
        r == count_increases(as_ints(values@)),
{
    let mut n: usize = 0;
    let mut i: usize = 1;
    if values.len() < 2 {
        assert(as_ints(values@).len() < 2);
        return 0;
    }
    while i < values.len()
        invariant
            1 <= i <= values@.len(),
            n == count_increases(as_ints(values@.take(i as int))),
            n < i,
        decreases values@.len() - i,
    {
        assert(as_ints(values@.take(i + 1)).drop_last() =~= as_ints(values@.take(i as int)));
        if values[i] > values[i - 1] {
            n = n + 1;
        }
        i = i + 1;
    }
    assert(values@.take(i as int) =~= values@);
    n
}

impl Day1 {
    /// How many depths are larger than the one before.
    pub fn part_1(&self, input: &Vec<String>) -> (r: usize)
        ensures
            r == count_increases(as_ints(depths(lines_of(input@)))),
    {
        let values = read_depths(input);
        increases(&values)
    }

    /// How many sums of three consecutive depths are larger than the sum
    /// before; fails when such a sum does not fit in a `usize`.
    pub fn part_2(&self, input: &Vec<String>) -> (r: Result<usize, SolveError>)
        ensures
            ({
                let sums = window_sums(depths(lines_of(input@)));
                if forall|i: int| 0 <= i < sums.len() ==> #[trigger] sums[i] <= usize::MAX {
                    r is Ok && r->Ok_0 == count_increases(sums)
                } else {
                    r == Err::<usize, SolveError>(SolveError::Overflow)
                }
            }),
    {
        let values = read_depths(input);
        let ghost sums = window_sums(values@);
        assert(sums == window_sums(depths(lines_of(input@))));
        let windows = windows_of_three(&values);
        let mut totals: Vec<usize> = Vec::new();
        let mut i: usize = 0;
        while i < windows.len()
            invariant
                i <= windows@.len(),
                windows@.len() == sums.len(),
                sums == window_sums(values@),
                sums == window_sums(depths(lines_of(input@))),
                forall|k: int| 0 <= k < windows@.len() ==> #[trigger] windows@[k] == (values@[k], values@[k + 1], values@[k + 2]),
                totals@.len() == i,
                forall|k: int| 0 <= k < i ==> #[trigger] totals@[k] as int == sums[k],
            decreases windows@.len() - i,
        {
            let (a, b, c) = windows[i];
            assert(windows@[i as int] == (values@[i as int], values@[i + 1], values@[i + 2]));
            match a.checked_add(b) {
                Some(ab) => match ab.checked_add(c) {
                    Some(t) => totals.push(t),
                    None => {
                        assert(sums[i as int] > usize::MAX);
                        assert(!(forall|k: int| 0 <= k < sums.len() ==> #[trigger] sums[k] <= usize::MAX));
                        return Err(SolveError::Overflow);
                    },
                },
                None => {
                    assert(sums[i as int] > usize::MAX);
                    assert(!(forall|k: int| 0 <= k < sums.len() ==> #[trigger] sums[k] <= usize::MAX));
                    return Err(SolveError::Overflow);
                },
            }
            i = i + 1;
        }
        assert(as_ints(totals@) =~= sums);
        Ok(increases(&totals))
    }
}

impl Default for Day1 {
    fn default() -> (r: Self)
        ensures
            r == Day1,
    {
        Day1
    }
}

impl Day1 {
    pub fn title(&self) -> (r: String)
        ensures
            r@ == "Sonar Sweep"@,
    {
        String::from_str("Sonar Sweep")
    }

    /// The input files, smallest first.
    pub fn inputs(&self) -> (r: Vec<&'static str>)
        ensures
            r@.len() == 2,
            r@[0]@ == "inputs/day1/small.txt"@,
            r@[1]@ == "inputs/day1/real.txt"@,
    {
        vec!["inputs/day1/small.txt", "inputs/day1/real.txt"]
    }
}

} // verus!
