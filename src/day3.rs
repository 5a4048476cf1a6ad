//! Binary Diagnostic: column majorities over rows of bits.
use vstd::prelude::*;
use vstd::string::StringExecFns;
use vstd::string::StrSliceExecFns;

use crate::puzzle::SolveError;

verus! {

pub struct Day3;

/// The rows among which `bit` is 0.
pub open spec fn count_zeros(rows: Seq<Seq<u8>>, bit: int) -> nat
    decreases rows.len(),
{
    if rows.len() == 0 {
        0
    } else {
        count_zeros(rows.drop_last(), bit) + if rows.last()[bit] == 0 { 1nat } else { 0nat }
    }
}

/// The rows among which `bit` is set.
pub open spec fn count_ones(rows: Seq<Seq<u8>>, bit: int) -> nat
    decreases rows.len(),
{
    if rows.len() == 0 {
        0
    } else {
        count_ones(rows.drop_last(), bit) + if rows.last()[bit] != 0 { 1nat } else { 0nat }
    }
}

/// Every row is longer than `bit`.
pub open spec fn all_wider(rows: Seq<Seq<u8>>, bit: int) -> bool {
    forall|i: int| 0 <= i < rows.len() ==> bit < #[trigger] rows[i].len()
}

/// Which rows a filtering step keeps: those whose bit agrees with the most
/// common value (`Max`, ties keep 1) or with the least common one (`Min`,
/// ties keep 0).
#[derive(Clone, Copy)]
pub enum FilterPredicate {
    Min,
    Max,
}

/// The bit value that `predicate` keeps, given how many rows hold 0 and 1.
pub open spec fn pick(zeros: nat, ones: nat, predicate: FilterPredicate) -> u8 {
    match predicate {
        FilterPredicate::Min => if ones < zeros { 1u8 } else { 0u8 },
        FilterPredicate::Max => if zeros <= ones { 1u8 } else { 0u8 },
    }
}

pub open spec fn target_bit(rating: (usize, usize), predicate: FilterPredicate) -> u8 {
    pick(rating.0 as nat, rating.1 as nat, predicate)
}

/// The rows whose `bit` equals `target`, in order.
pub open spec fn keep_bit(rows: Seq<Seq<u8>>, bit: int, target: u8) -> Seq<Seq<u8>>
    decreases rows.len(),
{
    if rows.len() == 0 {
        Seq::empty()
    } else {
        let kept = keep_bit(rows.drop_last(), bit, target);
        if rows.last()[bit] == target {
            kept.push(rows.last())
        } else {
            kept
        }
    }
}

/// Counts, at position `bit`, the rows holding 0 and the rows holding
/// anything else.
pub fn rate_bits(values: &Vec<Vec<u8>>, bit: usize) -> (r: (usize, usize))
    requires
        all_wider(values.deep_view(), bit as int),
    ensures
        r.0 == count_zeros(values.deep_view(), bit as int),
        r.1 == count_ones(values.deep_view(), bit as int),
{
    let ghost rows = values.deep_view();
    let mut zeros: usize = 0;
    let mut ones: usize = 0;
    let mut i: usize = 0;
    while i < values.len()
        invariant
            i <= values@.len(),
            rows == values.deep_view(),
            all_wider(rows, bit as int),
            zeros == count_zeros(rows.take(i as int), bit as int),
            ones == count_ones(rows.take(i as int), bit as int),
            zeros + ones == i,
        decreases values@.len() - i,
    {
        assert(rows.take(i + 1).drop_last() =~= rows.take(i as int));
        assert(rows[i as int] == values@[i as int]@);
        assert(bit < rows[i as int].len());
        if values[i][bit] == 0 {
            zeros = zeros + 1;
        } else {
            ones = ones + 1;
        }
        i = i + 1;
    }
    assert(rows.take(i as int) =~= rows);
    (zeros, ones)
}

/// Keeps the rows whose `bit` is the value that `predicate` picks from the
/// counts `rating`.
pub fn filter_values(
    values: &Vec<Vec<u8>>,
    rating: (usize, usize),
    bit: usize,
    predicate: FilterPredicate,
) -> (r: Vec<Vec<u8>>)
    requires
        all_wider(values.deep_view(), bit as int),
    ensures
        r.deep_view() == keep_bit(values.deep_view(), bit as int, target_bit(rating, predicate)),
{
    let ghost rows = values.deep_view();
    let target: u8 = match predicate {
        FilterPredicate::Min => if rating.1 < rating.0 { 1 } else { 0 },
        FilterPredicate::Max => if rating.0 <= rating.1 { 1 } else { 0 },
    };
    let mut kept: Vec<Vec<u8>> = Vec::new();
    let mut i: usize = 0;
    while i < values.len()
        invariant
            i <= values@.len(),
            rows == values.deep_view(),
            all_wider(rows, bit as int),
            target == target_bit(rating, predicate),
            kept.deep_view() == keep_bit(rows.take(i as int), bit as int, target),
        decreases values@.len() - i,
    {
        assert(rows.take(i + 1).drop_last() =~= rows.take(i as int));
        assert(rows[i as int] == values@[i as int]@);
        if values[i][bit] == target {
            let row = values[i].clone();
            assert(row@ =~= values@[i as int]@);
            kept.push(row);
            assert(kept.deep_view() =~= keep_bit(rows.take(i + 1), bit as int, target));
        }
        i = i + 1;
    }
    assert(rows.take(i as int) =~= rows);
    kept
}

pub open spec fn is_bit_char(c: char) -> bool {
    c == '0' || c == '1'
}

pub open spec fn is_bit_string(s: Seq<char>) -> bool {
    forall|j: int| 0 <= j < s.len() ==> is_bit_char(#[trigger] s[j])
}

pub open spec fn bits_of(s: Seq<char>) -> Seq<u8> {
    s.map_values(|c: char| if c == '1' { 1u8 } else { 0u8 })
}

pub open spec fn lines_of(input: Seq<String>) -> Seq<Seq<char>> {
    input.map_values(|s: String| s@)
}

/// Every row has `width` entries.
pub open spec fn uniform(rows: Seq<Seq<u8>>, width: nat) -> bool {
    forall|i: int| 0 <= i < rows.len() ==> (#[trigger] rows[i]).len() == width
}

/// The diagnostic report as rows of bits: every line must be a bit string
/// of the first line's width, which is not zero.
pub open spec fn report_rows(lines: Seq<Seq<char>>) -> Result<Seq<Seq<u8>>, SolveError> {
    if lines.len() == 0 {
        Err(SolveError::EmptyInput)
    } else if lines[0].len() == 0 || exists|i: int|
        0 <= i < lines.len() && !(#[trigger] lines[i].len() == lines[0].len() && is_bit_string(lines[i])) {
        Err(SolveError::Malformed)
    } else {
        Ok(lines.map_values(|l: Seq<char>| bits_of(l)))
    }
}

/// The number that a row of bits spells, most significant bit first.
pub open spec fn bits_value(bits: Seq<u8>) -> nat
    decreases bits.len(),
{
    if bits.len() == 0 {
        0
    } else {
        2 * bits_value(bits.drop_last()) + if bits.last() != 0 { 1nat } else { 0nat }
    }
}

/// The most common bit of each column, 1 on a tie.
pub open spec fn gamma_bits(rows: Seq<Seq<u8>>, width: nat) -> Seq<u8> {
    Seq::new(width, |b: int| if count_zeros(rows, b) > count_ones(rows, b) { 0u8 } else { 1u8 })
}

/// The complement of [`gamma_bits`].
pub open spec fn epsilon_bits(rows: Seq<Seq<u8>>, width: nat) -> Seq<u8> {
    Seq::new(width, |b: int| if count_zeros(rows, b) > count_ones(rows, b) { 1u8 } else { 0u8 })
}

/// The row that repeated filtering keeps, from column `bit` on: `None` when
/// no row, or more than one, is left after the last column.
pub open spec fn select(rows: Seq<Seq<u8>>, bit: nat, width: nat, predicate: FilterPredicate) -> Option<
    Seq<u8>,
>
    decreases width - bit,
{
    if rows.len() == 0 {
        None
    } else if rows.len() == 1 {
        Some(rows[0])
    } else if bit >= width {
        None
    } else {
        let target = pick(count_zeros(rows, bit as int), count_ones(rows, bit as int), predicate);
        select(keep_bit(rows, bit as int, target), bit + 1, width, predicate)
    }
}

proof fn lemma_keep_uniform(rows: Seq<Seq<u8>>, bit: int, target: u8, width: nat)
    requires
        uniform(rows, width),
    ensures
        uniform(keep_bit(rows, bit, target), width),
        keep_bit(rows, bit, target).len() <= rows.len(),
    decreases rows.len(),
{
    if rows.len() > 0 {
        let rest = rows.drop_last();
        assert forall|i: int| 0 <= i < rest.len() implies (#[trigger] rest[i]).len() == width by {
            assert(rest[i] == rows[i]);
        }
        lemma_keep_uniform(rest, bit, target, width);
        assert(rows.last() == rows[rows.len() - 1]);
    }
}

proof fn lemma_value_prefix(bits: Seq<u8>, k: int)
    requires
        0 <= k <= bits.len(),
    ensures
        bits_value(bits.take(k)) <= bits_value(bits),
    decreases bits.len(),
{
    if k < bits.len() {
        lemma_value_prefix(bits.drop_last(), k);
        assert(bits.drop_last().take(k) =~= bits.take(k));
    } else {
        assert(bits.take(k) =~= bits);
    }
}

/// The number that `bits` spells, if it fits in a `u64`.
fn bits_to_u64(bits: &Vec<u8>) -> (r: Option<u64>)
    ensures
        match r {
            Some(v) => v == bits_value(bits@),
            None => bits_value(bits@) > u64::MAX,
        },
{
    let mut acc: u64 = 0;
    let mut i: usize = 0;
    while i < bits.len()
        invariant
            i <= bits@.len(),
            acc == bits_value(bits@.take(i as int)),
        decreases bits@.len() - i,
    {
        assert(bits@.take(i + 1).drop_last() =~= bits@.take(i as int));
        let d: u64 = if bits[i] != 0 { 1 } else { 0 };
        match acc.checked_mul(2) {
            Some(twice) => match twice.checked_add(d) {
                Some(next) => {
                    acc = next;
                },
                None => {
                    proof {
                        lemma_value_prefix(bits@, i + 1);
                    }
                    return None;
                },
            },
            None => {
                proof {
                    lemma_value_prefix(bits@, i + 1);
                }
                return None;
            },
        }
        i = i + 1;
    }
    assert(bits@.take(i as int) =~= bits@);
    Some(acc)
}

/// Reads one line as a row of bits, if it is a bit string.
fn parse_bits(line: &String) -> (r: Option<Vec<u8>>)
    ensures
        match r {
            Some(row) => is_bit_string(line@) && row@ == bits_of(line@),
            None => !is_bit_string(line@),
        },
{
    let s = line.as_str();
    let n = s.unicode_len();
    let mut row: Vec<u8> = Vec::new();
    let mut i: usize = 0;
    while i < n
        invariant
            i <= n,
            n == line@.len(),
            s@ == line@,
            is_bit_string(line@.take(i as int)),
            row@ == bits_of(line@.take(i as int)),
        decreases n - i,
    {
        let c = s.get_char(i);
        if c == '0' {
            row.push(0);
        } else if c == '1' {
            row.push(1);
        } else {
            assert(!is_bit_char(line@[i as int]));
            return None;
        }
        assert(line@.take(i + 1) =~= line@.take(i as int).push(c));
        assert(row@ =~= bits_of(line@.take(i + 1)));
        i = i + 1;
    }
    assert(line@.take(i as int) =~= line@);
    Some(row)
}

/// Reads the report's lines as rows of bits.
pub fn parse_report(input: &Vec<String>) -> (r: Result<Vec<Vec<u8>>, SolveError>)
    ensures
        match r {
            Ok(rows) => report_rows(lines_of(input@)) == Ok::<Seq<Seq<u8>>, SolveError>(rows.deep_view()),
            Err(e) => report_rows(lines_of(input@)) == Err::<Seq<Seq<u8>>, SolveError>(e),
        },
{
    let ghost lines = lines_of(input@);
    if input.len() == 0 {
        return Err(SolveError::EmptyInput);
    }
    let width = input[0].as_str().unicode_len();
    if width == 0 {
        return Err(SolveError::Malformed);
    }
    let mut rows: Vec<Vec<u8>> = Vec::new();
    let mut i: usize = 0;
    while i < input.len()
        invariant
            i <= input@.len(),
            lines == lines_of(input@),
            width == lines[0].len(),
            width > 0,
            rows@.len() == i,
            forall|k: int|
                0 <= k < i ==> #[trigger] lines[k].len() == width && is_bit_string(lines[k]),
            forall|k: int| 0 <= k < i ==> (#[trigger] rows@[k])@ == bits_of(lines[k]),
        decreases input@.len() - i,
    {
        assert(lines[i as int] == input@[i as int]@);
        match parse_bits(&input[i]) {
            Some(row) => {
                if row.len() != width {
                    assert(!(lines[i as int].len() == lines[0].len() && is_bit_string(lines[i as int])));
                    return Err(SolveError::Malformed);
                }
                rows.push(row);
            },
            None => {
                assert(!(lines[i as int].len() == lines[0].len() && is_bit_string(lines[i as int])));
                return Err(SolveError::Malformed);
            },
        }
        i = i + 1;
    }
    assert forall|k: int| 0 <= k < rows.deep_view().len() implies #[trigger] rows.deep_view()[k]
        == lines.map_values(|l: Seq<char>| bits_of(l))[k] by {
        assert(rows.deep_view()[k] == rows@[k]@);
    }
    assert(rows.deep_view() =~= lines.map_values(|l: Seq<char>| bits_of(l)));
    assert(!exists|k: int|
        0 <= k < lines.len() && !(#[trigger] lines[k].len() == lines[0].len() && is_bit_string(lines[k])));
    Ok(rows)
}

/// Keeps filtering `rows` column by column until one row is left.
fn select_rating(rows: Vec<Vec<u8>>, width: usize, predicate: FilterPredicate) -> (r: Option<Vec<u8>>)
    requires
        uniform(rows.deep_view(), width as nat),
    ensures
        match r {
            Some(row) => select(rows.deep_view(), 0, width as nat, predicate) == Some(row@),
            None => select(rows.deep_view(), 0, width as nat, predicate) is None,
        },
{
    let ghost goal = select(rows.deep_view(), 0, width as nat, predicate);
    let mut rows = rows;
    let mut bit: usize = 0;
    while rows.len() > 1 && bit < width
        invariant
            bit <= width,
            uniform(rows.deep_view(), width as nat),
            select(rows.deep_view(), bit as nat, width as nat, predicate) == goal,
        decreases width - bit,
    {
        let ghost before = rows.deep_view();
        let rating = rate_bits(&rows, bit);
        rows = filter_values(&rows, rating, bit, predicate);
        proof {
            lemma_keep_uniform(before, bit as int, target_bit(rating, predicate), width as nat);
        }
        bit = bit + 1;
    }
    if rows.len() == 1 {
        let row = rows[0].clone();
        assert(row@ =~= rows.deep_view()[0]);
        Some(row)
    } else {
        None
    }
}

impl Day3 {
    /// The power consumption: the gamma rate, from each column's most common
    /// bit (1 on a tie), times the epsilon rate, from the least common one.
    pub fn part_1(&self, input: &Vec<String>) -> (r: Result<u64, SolveError>)
        ensures
            match report_rows(lines_of(input@)) {
                Err(e) => r == Err::<u64, SolveError>(e),
                Ok(rows) => {
                    let w = rows[0].len();
                    let gamma = bits_value(gamma_bits(rows, w));
                    let epsilon = bits_value(epsilon_bits(rows, w));
                    if gamma <= u64::MAX && epsilon <= u64::MAX && gamma * epsilon <= u64::MAX {
                        r == Ok::<u64, SolveError>((gamma * epsilon) as u64)
                    } else {
                        r == Err::<u64, SolveError>(SolveError::Overflow)
                    }
                },
            },
    {
        let rows = match parse_report(input) {
            Ok(rows) => rows,
            Err(e) => return Err(e),
        };
        let ghost rv = rows.deep_view();
        proof {
            let lines = lines_of(input@);
            if input@.len() == 0 {
                assert(report_rows(lines) is Err);
            }
            assert(rv == lines.map_values(|l: Seq<char>| bits_of(l)));
            assert(rv.len() == lines.len());
            assert(rv[0] == bits_of(lines[0]));
        }
        let width = rows[0].len();
        assert(rv[0] == rows@[0]@);
        assert(rv[0].len() == width);
        assert(uniform(rv, width as nat)) by {
            assert forall|i: int| 0 <= i < rv.len() implies (#[trigger] rv[i]).len() == width by {
                let lines = lines_of(input@);
                assert(rv[i] == bits_of(lines[i]));
                assert(lines[i].len() == lines[0].len() && is_bit_string(lines[i]));
            }
        }
        let mut gamma: Vec<u8> = Vec::new();
        let mut epsilon: Vec<u8> = Vec::new();
        let mut b: usize = 0;
        while b < width
            invariant
                b <= width,
                uniform(rv, width as nat),
                rv == rows.deep_view(),
                gamma@ == gamma_bits(rv, width as nat).take(b as int),
                epsilon@ == epsilon_bits(rv, width as nat).take(b as int),
            decreases width - b,
        {
            let (zeros, ones) = rate_bits(&rows, b);
            if zeros > ones {
                gamma.push(0);
                epsilon.push(1);
            } else {
                gamma.push(1);
                epsilon.push(0);
            }
            assert(gamma@ =~= gamma_bits(rv, width as nat).take(b + 1));
            assert(epsilon@ =~= epsilon_bits(rv, width as nat).take(b + 1));
            b = b + 1;
        }
        assert(gamma@ =~= gamma_bits(rv, width as nat));
        assert(epsilon@ =~= epsilon_bits(rv, width as nat));
        match (bits_to_u64(&gamma), bits_to_u64(&epsilon)) {
            (Some(g), Some(e)) => match g.checked_mul(e) {
                Some(p) => Ok(p),
                None => Err(SolveError::Overflow),
            },
            _ => Err(SolveError::Overflow),
        }
    }

    /// The life support rating: the oxygen generator rating, the row left by
    /// keeping each column's most common bit, times the CO2 scrubber rating,
    /// the row left by keeping the least common one. Gives both ratings and
    /// their product.
    pub fn part_2(&self, input: &Vec<String>) -> (r: Result<(u64, u64, u64), SolveError>)
        ensures
            match report_rows(lines_of(input@)) {
                Err(e) => r == Err::<(u64, u64, u64), SolveError>(e),
                Ok(rows) => {
                    let w = rows[0].len();
                    match (
                        select(rows, 0, w, FilterPredicate::Max),
                        select(rows, 0, w, FilterPredicate::Min),
                    ) {
                        (Some(o), Some(c)) => {
                            let oxy = bits_value(o);
                            let co2 = bits_value(c);
                            if oxy <= u64::MAX && co2 <= u64::MAX && oxy * co2 <= u64::MAX {
                                r == Ok::<(u64, u64, u64), SolveError>(
                                    (oxy as u64, co2 as u64, (oxy * co2) as u64),
                                )
                            } else {
                                r == Err::<(u64, u64, u64), SolveError>(SolveError::Overflow)
                            }
                        },
                        _ => r == Err::<(u64, u64, u64), SolveError>(SolveError::NoAnswer),
                    }
                },
            },
    {
        let rows = match parse_report(input) {
            Ok(rows) => rows,
            Err(e) => return Err(e),
        };
        let ghost rv = rows.deep_view();
        proof {
            let lines = lines_of(input@);
            if input@.len() == 0 {
                assert(report_rows(lines) is Err);
            }
            assert(rv == lines.map_values(|l: Seq<char>| bits_of(l)));
            assert(rv.len() == lines.len());
            assert(rv[0] == bits_of(lines[0]));
        }
        let width = rows[0].len();
        assert(rv[0] == rows@[0]@);
        assert(rv[0].len() == width);
        assert(uniform(rv, width as nat)) by {
            assert forall|i: int| 0 <= i < rv.len() implies (#[trigger] rv[i]).len() == width by {
                let lines = lines_of(input@);
                assert(rv[i] == bits_of(lines[i]));
                assert(lines[i].len() == lines[0].len() && is_bit_string(lines[i]));
            }
        }
        let v_min = rows.clone();
        assert(v_min.deep_view() =~= rv);
        let oxy_row = select_rating(rows, width, FilterPredicate::Max);
        let co2_row = select_rating(v_min, width, FilterPredicate::Min);
        match (oxy_row, co2_row) {
            (Some(o), Some(c)) => match (bits_to_u64(&o), bits_to_u64(&c)) {
                (Some(oxy), Some(co2)) => match oxy.checked_mul(co2) {
                    Some(p) => Ok((oxy, co2, p)),
                    None => Err(SolveError::Overflow),
                },
                _ => Err(SolveError::Overflow),
            },
            _ => Err(SolveError::NoAnswer),
        }
    }
}

impl Default for Day3 {
    fn default() -> (r: Self)
        ensures
            r == Day3,
    {
        Day3
    }
}

impl Day3 {
    pub fn title(&self) -> (r: String)
        ensures
            r@ == "Binary Diagnostic"@,
    {
        String::from_str("Binary Diagnostic")
    }

    /// The input files, smallest first.
    pub fn inputs(&self) -> (r: Vec<&'static str>)
        ensures
            r@.len() == 2,
            r@[0]@ == "inputs/day3/small.txt"@,
            r@[1]@ == "inputs/day3/real.txt"@,
    {
        vec!["inputs/day3/small.txt", "inputs/day3/real.txt"]
    }
}

} // verus!
