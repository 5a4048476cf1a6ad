//! Dive!: following a course of commands.
use vstd::prelude::*;
use vstd::string::StringExecFns;
use vstd::string::StrSliceExecFns;

use crate::day3::lines_of;
use crate::puzzle::{parse_i64, signed_text, SolveError};

verus! {

pub struct Day2;

#[derive(Clone, Copy, PartialEq, Eq, Structural, Debug)]
pub enum CommandKind {
    Up,
    Down,
    Forward,
}

/// One step of the course: a direction and a distance.
#[derive(Clone, Copy, PartialEq, Eq, Structural, Debug)]
pub struct Command {
    pub kind: CommandKind,
    pub amount: i64,
}

pub open spec fn forward_word() -> Seq<char> {
    seq!['f', 'o', 'r', 'w', 'a', 'r', 'd', ' ']
}

pub open spec fn down_word() -> Seq<char> {
    seq!['d', 'o', 'w', 'n', ' ']
}

pub open spec fn up_word() -> Seq<char> {
    seq!['u', 'p', ' ']
}

/// The amount after a keyword of `n` characters, when it reads as an `i64`.
pub open spec fn amount_after(s: Seq<char>, n: int) -> Option<i64> {
    match signed_text(s.skip(n)) {
        Some(v) => if i64::MIN <= v <= i64::MAX {
            Some(v as i64)
        } else {
            None
        },
        None => None,
    }
}

pub open spec fn with_kind(kind: CommandKind, amount: Option<i64>) -> Option<Command> {
    match amount {
        Some(a) => Some(Command { kind, amount: a }),
        None => None,
    }
}

/// A command line: `forward`, `down` or `up`, one space, and a signed
/// integer.
pub open spec fn command_of(s: Seq<char>) -> Option<Command> {
    if s.len() >= 8 && s.take(8) == forward_word() {
        with_kind(CommandKind::Forward, amount_after(s, 8))
    } else if s.len() >= 5 && s.take(5) == down_word() {
        with_kind(CommandKind::Down, amount_after(s, 5))
    } else if s.len() >= 3 && s.take(3) == up_word() {
        with_kind(CommandKind::Up, amount_after(s, 3))
    } else {
        None
    }
}

/// The commands of all lines, if every line is one.
pub open spec fn commands_of(lines: Seq<Seq<char>>) -> Option<Seq<Command>> {
    if forall|i: int| 0 <= i < lines.len() ==> (#[trigger] command_of(lines[i])) is Some {
        Some(lines.map_values(|l: Seq<char>| command_of(l)->0))
    } else {
        None
    }
}

/// Depth and horizontal position after following `cmds` literally.
pub open spec fn course(cmds: Seq<Command>) -> (int, int)
    decreases cmds.len(),
{
    if cmds.len() == 0 {
        (0, 0)
    } else {
        let (d, p) = course(cmds.drop_last());
        let c = cmds.last();
        match c.kind {
            CommandKind::Up => (d - c.amount, p),
            CommandKind::Down => (d + c.amount, p),
            CommandKind::Forward => (d, p + c.amount),
        }
    }
}

/// Depth, horizontal position and aim after following `cmds` with aim.
pub open spec fn aimed_course(cmds: Seq<Command>) -> (int, int, int)
    decreases cmds.len(),
{
    if cmds.len() == 0 {
        (0, 0, 0)
    } else {
        let (d, p, a) = aimed_course(cmds.drop_last());
        let c = cmds.last();
        match c.kind {
            CommandKind::Up => (d, p, a - c.amount),
            CommandKind::Down => (d, p, a + c.amount),
            CommandKind::Forward => (d + c.amount * a, p + c.amount, a),
        }
    }
}

pub open spec fn fits(x: int) -> bool {
    i64::MIN <= x <= i64::MAX
}

/// Every intermediate value of the literal course fits in an `i64`.
pub open spec fn course_fits(cmds: Seq<Command>) -> bool {
    forall|k: int|
        0 <= k <= cmds.len() ==> fits(#[trigger] course(cmds.take(k)).0) && fits(course(cmds.take(k)).1)
}

/// Every intermediate value of the aimed course fits in an `i64`, the
/// products of amount and aim included.
pub open spec fn aimed_fits(cmds: Seq<Command>) -> bool {
    forall|k: int|
        0 <= k <= cmds.len() ==> {
            let (d, p, a) = #[trigger] aimed_course(cmds.take(k));
            &&& fits(d) && fits(p) && fits(a)
            &&& k < cmds.len() && cmds[k].kind == CommandKind::Forward ==> fits(cmds[k].amount * a)
        }
}

/// Whether `s` starts with `word`.
fn has_prefix(s: &str, word: &[char]) -> (r: bool)
    ensures
        r == (word@.len() <= s@.len() && s@.take(word@.len() as int) == word@),
{
    let n = s.unicode_len();
    if word.len() > n {
        return false;
    }
    let mut i: usize = 0;
    while i < word.len()
        invariant
            i <= word@.len() <= n,
            n == s@.len(),
            s@.take(i as int) == word@.take(i as int),
        decreases word@.len() - i,
    {
        if s.get_char(i) != word[i] {
            assert(s@.take(word@.len() as int)[i as int] != word@[i as int]);
            return false;
        }
        assert(s@.take(i + 1) =~= word@.take(i + 1));
        i = i + 1;
    }
    assert(word@.take(i as int) =~= word@);
    true
}

fn amount_from(s: &str, n: usize) -> (r: Option<i64>)
    requires
        n <= s@.len(),
    ensures
        r == amount_after(s@, n as int),
{
    let len = s.unicode_len();
    let rest = s.substring_char(n, len);
    assert(rest@ =~= s@.skip(n as int));
    parse_i64(rest)
}

impl Command {
    /// Reads one line of the course.
    pub fn parse(line: &str) -> (r: Option<Command>)
        ensures
            r == command_of(line@),
    {
        let fw = ['f', 'o', 'r', 'w', 'a', 'r', 'd', ' '];
        let dn = ['d', 'o', 'w', 'n', ' '];
        let up = ['u', 'p', ' '];
        assert(fw@ =~= forward_word());
        assert(dn@ =~= down_word());
        assert(up@ =~= up_word());
        if has_prefix(line, fw.as_slice()) {
            match amount_from(line, 8) {
                Some(amount) => Some(Command { kind: CommandKind::Forward, amount }),
                None => None,
            }
        } else if has_prefix(line, dn.as_slice()) {
            match amount_from(line, 5) {
                Some(amount) => Some(Command { kind: CommandKind::Down, amount }),
                None => None,
            }
        } else if has_prefix(line, up.as_slice()) {
            match amount_from(line, 3) {
                Some(amount) => Some(Command { kind: CommandKind::Up, amount }),
                None => None,
            }
        } else {
            None
        }
    }
}

/// Reads every line as a command.
fn read_commands(input: &Vec<String>) -> (r: Result<Vec<Command>, SolveError>)
    ensures
        match r {
            Ok(cmds) => commands_of(lines_of(input@)) == Some(cmds@),
            Err(e) => e == SolveError::Malformed && commands_of(lines_of(input@)) is None,
        },
{
    let ghost lines = lines_of(input@);
    let mut cmds: Vec<Command> = Vec::new();
    let mut i: usize = 0;
    while i < input.len()
        invariant
            i <= input@.len(),
            lines == lines_of(input@),
            cmds@.len() == i,
            forall|k: int| 0 <= k < i ==> (#[trigger] command_of(lines[k])) == Some(cmds@[k]),
        decreases input@.len() - i,
    {
        assert(lines[i as int] == input@[i as int]@);
        match Command::parse(input[i].as_str()) {
            Some(c) => cmds.push(c),
            None => {
                assert(command_of(lines[i as int]) is None);
                return Err(SolveError::Malformed);
            },
        }
        i = i + 1;
    }
    assert(cmds@ =~= lines.map_values(|l: Seq<char>| command_of(l)->0));
    Ok(cmds)
}

impl Day2 {
    /// Follows the course literally and gives the final depth times the
    /// final horizontal position.
    pub fn part_1(&self, input: &Vec<String>) -> (r: Result<i64, SolveError>)
        ensures
            match commands_of(lines_of(input@)) {
                None => r == Err::<i64, SolveError>(SolveError::Malformed),
                Some(cmds) => {
                    let (d, p) = course(cmds);
                    if course_fits(cmds) && fits(d * p) {
                        r is Ok && r->Ok_0 == d * p
                    } else {
                        r == Err::<i64, SolveError>(SolveError::Overflow)
                    }
                },
            },
    {
        let cmds = match read_commands(input) {
            Ok(c) => c,
            Err(e) => return Err(e),
        };
        let ghost cs = cmds@;
        let mut depth: i64 = 0;
        let mut position: i64 = 0;
        let mut i: usize = 0;
        assert(cs.take(0) =~= Seq::<Command>::empty());
        while i < cmds.len()
            invariant
                i <= cs.len(),
                cs == cmds@,
                commands_of(lines_of(input@)) == Some(cs),
                (depth as int, position as int) == course(cs.take(i as int)),
                forall|k: int|
                    0 <= k <= i ==> fits(#[trigger] course(cs.take(k)).0) && fits(course(cs.take(k)).1),
            decreases cs.len() - i,
        {
            assert(cs.take(i + 1).drop_last() =~= cs.take(i as int));
            let c = cmds[i];
            let step: Option<(i64, i64)> = match c.kind {
                CommandKind::Up => match depth.checked_sub(c.amount) {
                    Some(d) => Some((d, position)),
                    None => None,
                },
                CommandKind::Down => match depth.checked_add(c.amount) {
                    Some(d) => Some((d, position)),
                    None => None,
                },
                CommandKind::Forward => match position.checked_add(c.amount) {
                    Some(p) => Some((depth, p)),
                    None => None,
                },
            };
            match step {
                Some((d, p)) => {
                    depth = d;
                    position = p;
                    assert((depth as int, position as int) == course(cs.take(i + 1)));
                    assert(fits(course(cs.take(i + 1)).0) && fits(course(cs.take(i + 1)).1));
                },
                None => {
                    assert(!fits(course(cs.take(i + 1)).0) || !fits(course(cs.take(i + 1)).1));
                    assert(!course_fits(cs));
                    return Err(SolveError::Overflow);
                },
            }
            i = i + 1;
        }
        assert(cs.take(i as int) =~= cs);
        depth.checked_mul(position).ok_or(SolveError::Overflow)
    }

    /// Follows the course with aim and gives the final depth times the final
    /// horizontal position.
    pub fn part_2(&self, input: &Vec<String>) -> (r: Result<i64, SolveError>)
        ensures
            match commands_of(lines_of(input@)) {
                None => r == Err::<i64, SolveError>(SolveError::Malformed),
                Some(cmds) => {
                    let (d, p, a) = aimed_course(cmds);
                    if aimed_fits(cmds) && fits(d * p) {
                        r is Ok && r->Ok_0 == d * p
                    } else {
                        r == Err::<i64, SolveError>(SolveError::Overflow)
                    }
                },
            },
    {
        let cmds = match read_commands(input) {
            Ok(c) => c,
            Err(e) => return Err(e),
        };
        let ghost cs = cmds@;
        let mut depth: i64 = 0;
        let mut position: i64 = 0;
        let mut aim: i64 = 0;
        let mut i: usize = 0;
        assert(cs.take(0) =~= Seq::<Command>::empty());
        while i < cmds.len()
            invariant
                i <= cs.len(),
                cs == cmds@,
                commands_of(lines_of(input@)) == Some(cs),
                (depth as int, position as int, aim as int) == aimed_course(cs.take(i as int)),
                forall|k: int|
                    0 <= k <= i ==> {
                        let (d, p, a) = #[trigger] aimed_course(cs.take(k));
                        &&& fits(d) && fits(p) && fits(a)
                        &&& k < i && cs[k].kind == CommandKind::Forward ==> fits(cs[k].amount * a)
                    },
            decreases cs.len() - i,
        {
            assert(cs.take(i + 1).drop_last() =~= cs.take(i as int));
            let c = cmds[i];
            let failed: bool;
            match c.kind {
                CommandKind::Up => match aim.checked_sub(c.amount) {
                    Some(a) => {
                        aim = a;
                        failed = false;
                    },
                    None => {
                        failed = true;
                    },
                },
                CommandKind::Down => match aim.checked_add(c.amount) {
                    Some(a) => {
                        aim = a;
                        failed = false;
                    },
                    None => {
                        failed = true;
                    },
                },
                CommandKind::Forward => match c.amount.checked_mul(aim) {
                    Some(m) => match (depth.checked_add(m), position.checked_add(c.amount)) {
                        (Some(d), Some(p)) => {
                            depth = d;
                            position = p;
                            failed = false;
                        },
                        _ => {
                            failed = true;
                        },
                    },
                    None => {
                        failed = true;
                    },
                },
            }
            if failed {
                proof {
                    let k = i as int;
                    let (d0, p0, a0) = aimed_course(cs.take(k));
                    let (d1, p1, a1) = aimed_course(cs.take(k + 1));
                    assert(!(fits(d1) && fits(p1) && fits(a1)) || (cs[k].kind == CommandKind::Forward
                        && !fits(cs[k].amount * a0)));
                    assert(!aimed_fits(cs));
                }
                return Err(SolveError::Overflow);
            }
            i = i + 1;
        }
        assert(cs.take(i as int) =~= cs);
        depth.checked_mul(position).ok_or(SolveError::Overflow)
    }
}

impl Default for Day2 {
    fn default() -> (r: Self)
        ensures
            r == Day2,
    {
        Day2
    }
}

impl Day2 {
    pub fn title(&self) -> (r: String)
        ensures
            r@ == "Dive!"@,
    {
        String::from_str("Dive!")
    }

    /// The input files, smallest first.
    pub fn inputs(&self) -> (r: Vec<&'static str>)
        ensures
            r@.len() == 2,
            r@[0]@ == "inputs/day2/small.txt"@,
            r@[1]@ == "inputs/day2/real.txt"@,
    {
        vec!["inputs/day2/small.txt", "inputs/day2/real.txt"]
    }
}

} // verus!
