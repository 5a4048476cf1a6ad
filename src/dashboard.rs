//! The dashboard's state: what each puzzle input shows, and how the
//! selection moves.
use std::sync::mpsc::{Receiver, Sender};
use vstd::prelude::*;
use vstd::string::StringExecFns;

use crate::threadpool::{finished_spec, register_spec, update_spec, Dispatch, ThreadPool};

verus! {

#[verifier::external_type_specification]
#[verifier::external_body]
#[verifier::reject_recursive_types(T)]
pub struct ExSender<T>(Sender<T>);

#[verifier::external_type_specification]
#[verifier::external_body]
#[verifier::reject_recursive_types(T)]
pub struct ExReceiver<T>(Receiver<T>);

/// Relies on `std::sync::mpsc::channel`: a connected sender and receiver.
#[verifier::external_body]
fn text_channel() -> (Sender<String>, Receiver<String>) {
    std::sync::mpsc::channel()
}

/// Relies on `Sender::clone`: another sender into the same channel.
#[verifier::external_body]
fn clone_sender(tx: &Sender<String>) -> Sender<String> {
    tx.clone()
}

/// Relies on `Receiver::try_recv`: the next message if one is waiting,
/// without blocking; nothing is known of what another thread sent.
#[verifier::external_body]
fn try_receive(rx: &Receiver<String>) -> Option<String> {
    rx.try_recv().ok()
}

/// The two text streams of one run: its output and its debug trace.
pub struct OutputCommunication {
    output: (Sender<String>, Receiver<String>),
    debug: (Sender<String>, Receiver<String>),
}

impl OutputCommunication {
    pub fn new() -> Self {
        OutputCommunication { output: text_channel(), debug: text_channel() }
    }

    /// Senders for the output and the debug stream, for the running job.
    pub fn senders(&self) -> (Sender<String>, Sender<String>) {
        (clone_sender(&self.output.0), clone_sender(&self.debug.0))
    }

    /// The next piece of output, if one has arrived.
    pub fn output(&self) -> Option<String> {
        try_receive(&self.output.1)
    }

    /// The next piece of debug trace, if one has arrived.
    pub fn debug(&self) -> Option<String> {
        try_receive(&self.debug.1)
    }
}

/// What became of a finished job: its running time in milliseconds, or a
/// failure.
#[derive(Clone, Copy, PartialEq, Eq, Structural, Debug)]
pub enum JobOutcome {
    Done(u64),
    Failed,
}

/// Where one puzzle input stands.
#[derive(Clone, Copy, PartialEq, Eq, Structural, Debug)]
pub enum JobStatus {
    Ready,
    Waiting,
    /// Running on the worker with this id.
    Running(usize),
    /// Finished after this many milliseconds.
    Finished(u64),
    Error,
}

impl JobStatus {
    /// The status as the dashboard writes it.
    pub fn label(&self) -> (r: String)
        ensures
            r@ == match *self {
                JobStatus::Ready => "Ready"@,
                JobStatus::Waiting => "Waiting"@,
                JobStatus::Running(id) => seq!['R', 'u', 'n', 'n', 'i', 'n', 'g', ' ', '('] + decimal(
                    id as nat,
                ) + seq![')'],
                JobStatus::Finished(_) => "Finished"@,
                JobStatus::Error => "Error"@,
            },
    {
        match *self {
            JobStatus::Ready => String::from_str("Ready"),
            JobStatus::Waiting => String::from_str("Waiting"),
            JobStatus::Running(id) => {
                let mut t = String::from_str("Running (");
                proof {
                    reveal_strlit("Running (");
                    reveal_strlit(")");
                }
                append_decimal(&mut t, id as u64);
                t.append(")");
                t
            },
            JobStatus::Finished(_) => String::from_str("Finished"),
            JobStatus::Error => String::from_str("Error"),
        }
    }
}

/// The order in which statuses summarise a group: later kinds win, and
/// within a kind the larger worker id or running time.
pub open spec fn status_rank(s: JobStatus) -> (int, int) {
    match s {
        JobStatus::Ready => (0, 0),
        JobStatus::Waiting => (1, 0),
        JobStatus::Running(w) => (2, w as int),
        JobStatus::Finished(d) => (3, d as int),
        JobStatus::Error => (4, 0),
    }
}

pub open spec fn status_le(a: JobStatus, b: JobStatus) -> bool {
    let (ka, va) = status_rank(a);
    let (kb, vb) = status_rank(b);
    ka < kb || (ka == kb && va <= vb)
}

/// The greatest status of a non-empty sequence.
pub open spec fn max_status(s: Seq<JobStatus>) -> JobStatus
    decreases s.len(),
{
    if s.len() <= 1 {
        s[0]
    } else {
        let m = max_status(s.drop_last());
        if status_le(m, s.last()) {
            s.last()
        } else {
            m
        }
    }
}

fn status_leq(a: JobStatus, b: JobStatus) -> (r: bool)
    ensures
        r == status_le(a, b),
{
    let ka: (u8, u64) = match a {
        JobStatus::Ready => (0, 0),
        JobStatus::Waiting => (1, 0),
        JobStatus::Running(w) => (2, w as u64),
        JobStatus::Finished(d) => (3, d),
        JobStatus::Error => (4, 0),
    };
    let kb: (u8, u64) = match b {
        JobStatus::Ready => (0, 0),
        JobStatus::Waiting => (1, 0),
        JobStatus::Running(w) => (2, w as u64),
        JobStatus::Finished(d) => (3, d),
        JobStatus::Error => (4, 0),
    };
    ka.0 < kb.0 || (ka.0 == kb.0 && ka.1 <= kb.1)
}

/// The status that a finished job's outcome gives.
pub open spec fn outcome_status(o: JobOutcome) -> JobStatus {
    match o {
        JobOutcome::Done(ms) => JobStatus::Finished(ms),
        JobOutcome::Failed => JobStatus::Error,
    }
}

/// The outcome of the first finished pair of job `id`.
pub open spec fn find_finished(finished: Seq<(usize, JobOutcome)>, id: usize) -> Option<JobOutcome>
    decreases finished.len(),
{
    if finished.len() == 0 {
        None
    } else if finished[0].0 == id {
        Some(finished[0].1)
    } else {
        find_finished(finished.drop_first(), id)
    }
}

/// The worker of the first started pair of job `id`.
pub open spec fn find_started(started: Seq<(usize, usize)>, id: usize) -> Option<usize>
    decreases started.len(),
{
    if started.len() == 0 {
        None
    } else if started[0].0 == id {
        Some(started[0].1)
    } else {
        find_started(started.drop_first(), id)
    }
}

/// The status of an input running job `job` after a poll's report: a
/// finished job shows its outcome, a started one its worker; otherwise the
/// status stays.
pub open spec fn reported_status(
    status: JobStatus,
    job: Option<usize>,
    finished: Seq<(usize, JobOutcome)>,
    started: Seq<(usize, usize)>,
) -> JobStatus {
    match job {
        None => status,
        Some(id) => match find_finished(finished, id) {
            Some(o) => outcome_status(o),
            None => match find_started(started, id) {
                Some(w) => JobStatus::Running(w),
                None => status,
            },
        },
    }
}

fn lookup_finished(finished: &Vec<(usize, JobOutcome)>, id: usize) -> (r: Option<JobOutcome>)
    ensures
        r == find_finished(finished@, id),
{
    let mut i: usize = 0;
    assert(finished@.skip(0) =~= finished@);
    while i < finished.len()
        invariant
            i <= finished@.len(),
            find_finished(finished@, id) == find_finished(finished@.skip(i as int), id),
        decreases finished@.len() - i,
    {
        assert(finished@.skip(i as int).drop_first() =~= finished@.skip(i + 1));
        if finished[i].0 == id {
            return Some(finished[i].1);
        }
        i = i + 1;
    }
    None
}

fn lookup_started(started: &Vec<(usize, usize)>, id: usize) -> (r: Option<usize>)
    ensures
        r == find_started(started@, id),
{
    let mut i: usize = 0;
    assert(started@.skip(0) =~= started@);
    while i < started.len()
        invariant
            i <= started@.len(),
            find_started(started@, id) == find_started(started@.skip(i as int), id),
        decreases started@.len() - i,
    {
        assert(started@.skip(i as int).drop_first() =~= started@.skip(i + 1));
        if started[i].0 == id {
            return Some(started[i].1);
        }
        i = i + 1;
    }
    None
}

pub open spec fn digit_char(d: int) -> char {
    seq!['0', '1', '2', '3', '4', '5', '6', '7', '8', '9'][d]
}

/// `n` in decimal, without leading zeros.
pub open spec fn decimal(n: nat) -> Seq<char>
    decreases n,
{
    if n < 10 {
        seq![digit_char(n as int)]
    } else {
        decimal(n / 10).push(digit_char((n % 10) as int))
    }
}

/// `n` in decimal, with leading zeros up to `width` characters.
pub open spec fn zero_padded(n: nat, width: nat) -> Seq<char> {
    let d = decimal(n);
    if d.len() >= width {
        d
    } else {
        Seq::new((width - d.len()) as nat, |i: int| '0') + d
    }
}

/// A running time shown as `MM:SS.mmm`.
pub open spec fn clock_text(mins: nat, secs: nat, millis: nat) -> Seq<char> {
    zero_padded(mins, 2) + seq![':'] + zero_padded(secs, 2) + seq!['.'] + zero_padded(millis, 3)
}

/// Appends one decimal digit.
fn push_digit(s: &mut String, d: u64)
    requires
        d < 10,
    ensures
        final(s)@ == old(s)@.push(digit_char(d as int)),
{
    let t: &str = match d {
        0 => "0",
        1 => "1",
        2 => "2",
        3 => "3",
        4 => "4",
        5 => "5",
        6 => "6",
        7 => "7",
        8 => "8",
        _ => "9",
    };
    proof {
        reveal_strlit("0");
        reveal_strlit("1");
        reveal_strlit("2");
        reveal_strlit("3");
        reveal_strlit("4");
        reveal_strlit("5");
        reveal_strlit("6");
        reveal_strlit("7");
        reveal_strlit("8");
        reveal_strlit("9");
        assert(t@ == seq![digit_char(d as int)]);
    }
    s.append(t);
    assert(s@ =~= old(s)@.push(digit_char(d as int)));
}

/// Appends `n` in decimal.
fn append_decimal(s: &mut String, n: u64)
    ensures
        final(s)@ == old(s)@ + decimal(n as nat),
    decreases n,
{
    if n >= 10 {
        append_decimal(s, n / 10);
    }
    push_digit(s, n % 10);
    assert(s@ =~= old(s)@ + decimal(n as nat));
}

/// How many digits `n` has in decimal.
fn decimal_len(n: u64) -> (r: u64)
    ensures
        r == decimal(n as nat).len(),
        r <= n + 1,
    decreases n,
{
    if n < 10 {
        1
    } else {
        decimal_len(n / 10) + 1
    }
}

/// Appends `n` in decimal, with leading zeros up to `width` characters.
fn append_padded(s: &mut String, n: u64, width: u64)
    ensures
        final(s)@ == old(s)@ + zero_padded(n as nat, width as nat),
{
    let len = decimal_len(n);
    let ghost start = s@;
    if len < width {
        let mut k: u64 = 0;
        while k < width - len
            invariant
                k <= width - len,
                s@ == start + Seq::new(k as nat, |i: int| '0'),
            decreases width - len - k,
        {
            proof {
                reveal_strlit("0");
            }
            s.append("0");
            assert(s@ =~= start + Seq::new((k + 1) as nat, |i: int| '0'));
            k = k + 1;
        }
    } else {
        assert(s@ =~= start + Seq::<char>::empty());
    }
    append_decimal(s, n);
    assert(s@ =~= start + zero_padded(n as nat, width as nat));
}

/// A running time written as `MM:SS.mmm`.
fn format_clock(mins: u64, secs: u64, millis: u64) -> (r: String)
    ensures
        r@ == clock_text(mins as nat, secs as nat, millis as nat),
{
    let mut t = String::new();
    proof {
        reveal_strlit(":");
        reveal_strlit(".");
    }
    append_padded(&mut t, mins, 2);
    t.append(":");
    append_padded(&mut t, secs, 2);
    t.append(".");
    append_padded(&mut t, millis, 3);
    assert(t@ =~= clock_text(mins as nat, secs as nat, millis as nat));
    t
}

pub open spec fn text_or_empty(t: Option<String>) -> Seq<char> {
    match t {
        Some(s) => s@,
        None => Seq::empty(),
    }
}

/// One run of a puzzle part on one input, as the dashboard shows it.
pub struct Instance {
    pub input: String,
    pub part: usize,
    pub job_id: Option<usize>,
    pub status: JobStatus,
    pub communication: OutputCommunication,
    pub output: String,
    pub debug: String,
}

impl Instance {
    pub fn new(input: String, part: usize) -> (r: Self)
        ensures
            r.input == input,
            r.part == part,
            r.job_id is None,
            r.status == JobStatus::Ready,
            r.output@ == Seq::<char>::empty(),
            r.debug@ == Seq::<char>::empty(),
    {
        Instance {
            input,
            part,
            job_id: None,
            status: JobStatus::Ready,
            communication: OutputCommunication::new(),
            output: String::new(),
            debug: String::new(),
        }
    }

    /// Forgets the text of the previous run.
    pub fn clear(&mut self)
        ensures
            final(self).output@ == Seq::<char>::empty(),
            final(self).debug@ == Seq::<char>::empty(),
            final(self).input == old(self).input,
            final(self).part == old(self).part,
            final(self).job_id == old(self).job_id,
            final(self).status == old(self).status,
            final(self).communication == old(self).communication,
    {
        self.output = String::new();
        self.debug = String::new();
    }

    /// The running time of a finished run, as `MM:SS.mmm`.
    pub fn duration(&self) -> (r: Option<String>)
        ensures
            match self.status {
                JobStatus::Finished(ms) => r is Some && r->0@ == clock_text(
                    (ms / 1000 / 60) as nat,
                    (ms / 1000 % 60) as nat,
                    (ms % 1000) as nat,
                ),
                _ => r is None,
            },
    {
        match self.status {
            JobStatus::Finished(ms) => {
                let secs = ms / 1000;
                Some(format_clock(secs / 60, secs % 60, ms % 1000))
            },
            _ => None,
        }
    }

    /// Senders for the output and debug text of a run of this instance.
    pub fn senders(&self) -> (Sender<String>, Sender<String>) {
        self.communication.senders()
    }

    /// Appends text that arrived from the run.
    pub fn receive(&mut self, output: Option<String>, debug: Option<String>)
        ensures
            final(self).output@ == old(self).output@ + text_or_empty(output),
            final(self).debug@ == old(self).debug@ + text_or_empty(debug),
            final(self).input == old(self).input,
            final(self).part == old(self).part,
            final(self).job_id == old(self).job_id,
            final(self).status == old(self).status,
    {
        match output {
            Some(o) => self.output.append(o.as_str()),
            None => {
                assert(self.output@ =~= self.output@ + Seq::<char>::empty());
            },
        }
        match debug {
            Some(d) => self.debug.append(d.as_str()),
            None => {
                assert(self.debug@ =~= self.debug@ + Seq::<char>::empty());
            },
        }
    }

    /// Takes in the text that the run sent since the last call.
    pub fn update(&mut self)
        ensures
            exists|o: Seq<char>, d: Seq<char>|
                final(self).output@ == old(self).output@ + o && final(self).debug@ == old(self).debug@ + d,
            final(self).input == old(self).input,
            final(self).part == old(self).part,
            final(self).job_id == old(self).job_id,
            final(self).status == old(self).status,
    {
        let output = self.communication.output();
        let debug = self.communication.debug();
        self.receive(output, debug);
        assert(exists|o: Seq<char>, d: Seq<char>|
            self.output@ == old(self).output@ + o && self.debug@ == old(self).debug@ + d) by {
            let o = text_or_empty(output);
            let d = text_or_empty(debug);
            assert(self.output@ == old(self).output@ + o && self.debug@ == old(self).debug@ + d);
        }
    }

    /// Applies a poll's report to this instance's status.
    pub fn apply_report(&mut self, finished: &Vec<(usize, JobOutcome)>, started: &Vec<(usize, usize)>)
        ensures
            final(self).status == reported_status(old(self).status, old(self).job_id, finished@, started@),
            final(self).input == old(self).input,
            final(self).part == old(self).part,
            final(self).job_id == old(self).job_id,
            final(self).output == old(self).output,
            final(self).debug == old(self).debug,
    {
        if let Some(id) = self.job_id {
            match lookup_finished(finished, id) {
                Some(JobOutcome::Done(ms)) => self.status = JobStatus::Finished(ms),
                Some(JobOutcome::Failed) => self.status = JobStatus::Error,
                None => match lookup_started(started, id) {
                    Some(w) => self.status = JobStatus::Running(w),
                    None => {},
                },
            }
        }
    }
}

pub open spec fn statuses(insts: Seq<Instance>) -> Seq<JobStatus> {
    insts.map_values(|i: Instance| i.status)
}

/// The statuses of the instances that run `part`, in order.
pub open spec fn part_statuses(insts: Seq<Instance>, part: usize) -> Seq<JobStatus>
    decreases insts.len(),
{
    if insts.len() == 0 {
        Seq::empty()
    } else {
        let rest = part_statuses(insts.drop_last(), part);
        if insts.last().part == part {
            rest.push(insts.last().status)
        } else {
            rest
        }
    }
}

/// One puzzle day as the dashboard lists it.
pub struct Day {
    pub number: usize,
    /// Whether the day has a solver.
    pub present: bool,
    pub instances: Vec<Instance>,
}

impl Day {
    /// A day with, for each input in order, an instance of part 1 and one of
    /// part 2; a day without a solver has no inputs and no instances.
    pub fn new(number: usize, inputs: Option<Vec<String>>) -> (r: Day)
        ensures
            r.number == number,
            r.present == inputs is Some,
            match inputs {
                None => r.instances@.len() == 0,
                Some(v) => {
                    &&& r.instances@.len() == 2 * v@.len()
                    &&& forall|k: int|
                        0 <= k < r.instances@.len() ==> {
                            let inst = #[trigger] r.instances@[k];
                            &&& inst.input@ == v@[k / 2]@
                            &&& inst.part == (if k % 2 == 0 { 1usize } else { 2usize })
                            &&& inst.job_id is None
                            &&& inst.status == JobStatus::Ready
                        }
                },
            },
    {
        let mut instances: Vec<Instance> = Vec::new();
        let present = inputs.is_some();
        if let Some(v) = inputs {
            let mut i: usize = 0;
            while i < v.len()
                invariant
                    i <= v@.len(),
                    instances@.len() == 2 * i,
                    forall|k: int|
                        0 <= k < instances@.len() ==> {
                            let inst = #[trigger] instances@[k];
                            &&& inst.input@ == v@[k / 2]@
                            &&& inst.part == (if k % 2 == 0 { 1usize } else { 2usize })
                            &&& inst.job_id is None
                            &&& inst.status == JobStatus::Ready
                        },
                decreases v@.len() - i,
            {
                instances.push(Instance::new(v[i].clone(), 1));
                instances.push(Instance::new(v[i].clone(), 2));
                i = i + 1;
            }
        }
        Day { number, present, instances }
    }

    pub fn is_present(&self) -> (r: bool)
        ensures
            r == self.present,
    {
        self.present
    }

    /// The greatest status among the day's instances.
    pub fn status(&self) -> (r: JobStatus)
        requires
            self.instances@.len() > 0,
        ensures
            r == max_status(statuses(self.instances@)),
    {
        let ghost all = statuses(self.instances@);
        let mut m = self.instances[0].status;
        let mut i: usize = 1;
        assert(all.take(1) =~= seq![m]);
        while i < self.instances.len()
            invariant
                1 <= i <= self.instances@.len(),
                all == statuses(self.instances@),
                m == max_status(all.take(i as int)),
            decreases self.instances@.len() - i,
        {
            assert(all.take(i + 1).drop_last() =~= all.take(i as int));
            let st = self.instances[i].status;
            if status_leq(m, st) {
                m = st;
            }
            i = i + 1;
        }
        assert(all.take(i as int) =~= all);
        m
    }

    /// The greatest status among the instances that run `part`.
    pub fn status_for_part(&self, part: usize) -> (r: JobStatus)
        requires
            part_statuses(self.instances@, part).len() > 0,
        ensures
            r == max_status(part_statuses(self.instances@, part)),
    {
        let ghost insts = self.instances@;
        let mut m: Option<JobStatus> = None;
        let mut i: usize = 0;
        while i < self.instances.len()
            invariant
                i <= insts.len(),
                insts == self.instances@,
                m == if part_statuses(insts.take(i as int), part).len() == 0 {
                    None::<JobStatus>
                } else {
                    Some(max_status(part_statuses(insts.take(i as int), part)))
                },
            decreases insts.len() - i,
        {
            assert(insts.take(i + 1).drop_last() =~= insts.take(i as int));
            let inst = &self.instances[i];
            let ghost ps = part_statuses(insts.take(i as int), part);
            if inst.part == part {
                let st = inst.status;
                assert(part_statuses(insts.take(i + 1), part) == ps.push(st));
                assert(ps.push(st).drop_last() =~= ps);
                m = match m {
                    None => Some(st),
                    Some(cur) => if status_leq(cur, st) {
                        Some(st)
                    } else {
                        Some(cur)
                    },
                };
            }
            i = i + 1;
        }
        assert(insts.take(i as int) =~= insts);
        match m {
            Some(st) => st,
            None => JobStatus::Ready,
        }
    }
}

/// What the selection list is choosing.
#[derive(Clone, Copy, PartialEq, Eq, Structural, Debug)]
pub enum State {
    Day,
    Part,
    Input,
}

/// Work that an input asks of the caller, who builds the payloads.
#[derive(Clone, Copy, PartialEq, Eq, Structural, Debug)]
pub enum Request {
    Nothing,
    /// Run the instance with this index of the day with this index.
    Run { day: usize, instance: usize },
    /// Run every instance of every day that has a solver.
    RunAll,
}

pub const POOL_SIZE: usize = 4;

pub open spec fn cycle_up_spec(value: Option<usize>, max: usize) -> Option<usize> {
    match value {
        Some(v) => if v == max || v == usize::MAX { Some(0usize) } else { Some((v + 1) as usize) },
        None => Some(0usize),
    }
}

pub open spec fn cycle_down_spec(value: Option<usize>, max: usize) -> Option<usize> {
    match value {
        Some(v) => if v == 0 { Some(max) } else { Some((v - 1) as usize) },
        None => Some(0usize),
    }
}

/// Moves a selection one place on, from `max` back to 0; selects 0 when
/// nothing is selected. A selection at the largest `usize` also goes back
/// to 0, having no next place.
pub fn cycle_up(value: &mut Option<usize>, max: usize)
    ensures
        *final(value) == cycle_up_spec(*old(value), max),
{
    match *value {
        Some(v) => if v == max || v == usize::MAX {
            *value = Some(0);
        } else {
            *value = Some(v + 1);
        },
        None => {
            *value = Some(0);
        },
    }
}

/// Moves a selection one place back, from 0 round to `max`; selects 0 when
/// nothing is selected.
pub fn cycle_down(value: &mut Option<usize>, max: usize)
    ensures
        *final(value) == cycle_down_spec(*old(value), max),
{
    match *value {
        Some(v) => if v == 0 {
            *value = Some(max);
        } else {
            *value = Some(v - 1);
        },
        None => {
            *value = Some(0);
        },
    }
}

/// The index of the `n`-th instance, counting from 0, that runs `part`.
pub open spec fn nth_of_part(insts: Seq<Instance>, part: usize, n: int) -> Option<int>
    decreases insts.len(),
{
    if insts.len() == 0 {
        None
    } else if insts[0].part == part {
        if n == 0 {
            Some(0)
        } else {
            match nth_of_part(insts.drop_first(), part, n - 1) {
                Some(k) => Some(k + 1),
                None => None,
            }
        }
    } else {
        match nth_of_part(insts.drop_first(), part, n) {
            Some(k) => Some(k + 1),
            None => None,
        }
    }
}

fn find_nth_of_part(insts: &Vec<Instance>, part: usize, n: usize) -> (r: Option<usize>)
    ensures
        match nth_of_part(insts@, part, n as int) {
            Some(k) => r == Some(k as usize) && 0 <= k < insts@.len(),
            None => r is None,
        },
{
    let mut i: usize = 0;
    let mut left: usize = n;
    assert(insts@.skip(0) =~= insts@);
    proof {
        lemma_nth_in_range(insts@, part, n as int);
    }
    while i < insts.len()
        invariant
            i <= insts@.len(),
            left <= n,
            nth_of_part(insts@, part, n as int) == match nth_of_part(insts@.skip(i as int), part, left as int) {
                Some(k) => Some(k + i),
                None => None::<int>,
            },
            forall|k: int| #[trigger] nth_of_part(insts@.skip(i as int), part, left as int) == Some(k) ==> 0 <= k < insts@.len() - i,
        decreases insts@.len() - i,
    {
        proof {
            lemma_nth_in_range(insts@.skip(i + 1), part, left as int);
            if left > 0 {
                lemma_nth_in_range(insts@.skip(i + 1), part, left - 1);
            }
        }
        assert(insts@.skip(i as int).drop_first() =~= insts@.skip(i + 1));
        if insts[i].part == part {
            if left == 0 {
                return Some(i);
            }
            left = left - 1;
        }
        i = i + 1;
    }
    None
}

proof fn lemma_nth_in_range(insts: Seq<Instance>, part: usize, n: int)
    ensures
        forall|k: int| #[trigger] nth_of_part(insts, part, n) == Some(k) ==> 0 <= k < insts.len(),
    decreases insts.len(),
{
    if insts.len() > 0 {
        lemma_nth_in_range(insts.drop_first(), part, n);
        lemma_nth_in_range(insts.drop_first(), part, n - 1);
    }
}

/// The (day index, instance index) pairs of every instance of every day
/// with a solver among the first `j` days, in order.
pub open spec fn runnable_spec(days: Seq<Day>, j: int) -> Seq<(usize, usize)>
    decreases j,
{
    if j <= 0 {
        Seq::empty()
    } else {
        let before = runnable_spec(days, j - 1);
        if days[j - 1].present {
            before + Seq::new(days[j - 1].instances@.len(), |k: int| ((j - 1) as usize, k as usize))
        } else {
            before
        }
    }
}

/// The dashboard: the days, the selection, and the pool that runs the jobs.
pub struct App<P> {
    pub days: Vec<Day>,
    pub day_highlight: Option<usize>,
    pub part_highlight: Option<usize>,
    pub input_highlight: Option<usize>,
    pub pool: ThreadPool<P>,
    pub state: State,
    pub should_quit: bool,
}

impl<P> App<P> {
    pub open spec fn wf(&self) -> bool {
        &&& self.pool.wf()
        &&& self.pool.view().slots.len() == POOL_SIZE
    }

    pub fn new(days: Vec<Day>) -> (r: Self)
        ensures
            r.wf(),
            r.days == days,
            r.day_highlight == Some(0usize),
            r.part_highlight is None,
            r.input_highlight is None,
            r.state == State::Day,
            !r.should_quit,
            r.pool.view().backlog.len() == 0,
            r.pool.view().next_id == 0,
            forall|i: int| 0 <= i < POOL_SIZE ==> #[trigger] r.pool.view().slots[i] is None,
    {
        App {
            days,
            day_highlight: Some(0),
            part_highlight: None,
            input_highlight: None,
            pool: ThreadPool::new(POOL_SIZE),
            state: State::Day,
            should_quit: false,
        }
    }

    pub fn should_quit(&self) -> (r: bool)
        ensures
            r == self.should_quit,
    {
        self.should_quit
    }

    /// Whether the highlighted day exists and has a solver.
    pub open spec fn day_selectable(&self) -> bool {
        match self.day_highlight {
            Some(n) => n < self.days@.len() && self.days@[n as int].present,
            None => false,
        }
    }

    fn highlighted_day_present(&self) -> (r: bool)
        ensures
            r == self.day_selectable(),
    {
        match self.day_highlight {
            Some(n) => n < self.days.len() && self.days[n].present,
            None => false,
        }
    }

    fn day_selection(&mut self)
        ensures
            *final(self) == (App { state: State::Day, part_highlight: None, ..*old(self) }),
    {
        self.state = State::Day;
        self.part_highlight = None;
    }

    fn input_selection(&mut self)
        ensures
            *final(self) == if old(self).day_selectable() {
                App { state: State::Input, input_highlight: Some(0usize), ..*old(self) }
            } else {
                *old(self)
            },
    {
        if self.highlighted_day_present() {
            self.state = State::Input;
            self.input_highlight = Some(0);
        }
    }

    fn part_selection(&mut self)
        ensures
            *final(self) == if old(self).day_selectable() {
                App {
                    state: State::Part,
                    part_highlight: Some(0usize),
                    input_highlight: None,
                    ..*old(self)
                }
            } else {
                *old(self)
            },
    {
        if self.highlighted_day_present() {
            self.state = State::Part;
            self.part_highlight = Some(0);
            self.input_highlight = None;
        }
    }
}

pub open spec fn toggled(value: Option<usize>) -> Option<usize> {
    match value {
        Some(0) => Some(1usize),
        _ => Some(0usize),
    }
}

/// The selection after the up key.
pub open spec fn up_spec<P>(a: App<P>) -> App<P> {
    match a.state {
        State::Day => if a.days@.len() == 0 {
            a
        } else {
            App {
                day_highlight: cycle_down_spec(a.day_highlight, (a.days@.len() - 1) as usize),
                input_highlight: None,
                ..a
            }
        },
        State::Input => match a.day_highlight {
            Some(d) => if d < a.days@.len() && a.days@[d as int].instances@.len() > 0 {
                App {
                    input_highlight: cycle_down_spec(
                        a.input_highlight,
                        (a.days@[d as int].instances@.len() - 1) as usize,
                    ),
                    ..a
                }
            } else {
                a
            },
            None => a,
        },
        State::Part => App { part_highlight: toggled(a.part_highlight), input_highlight: None, ..a },
    }
}

/// The selection after the down key.
pub open spec fn down_spec<P>(a: App<P>) -> App<P> {
    match a.state {
        State::Day => if a.days@.len() == 0 {
            a
        } else {
            App {
                day_highlight: cycle_up_spec(a.day_highlight, (a.days@.len() - 1) as usize),
                input_highlight: None,
                ..a
            }
        },
        State::Input => match a.day_highlight {
            Some(d) => if d < a.days@.len() && a.days@[d as int].instances@.len() > 0 {
                App {
                    input_highlight: cycle_up_spec(
                        a.input_highlight,
                        (a.days@[d as int].instances@.len() - 1) as usize,
                    ),
                    ..a
                }
            } else {
                a
            },
            None => a,
        },
        State::Part => App { part_highlight: toggled(a.part_highlight), input_highlight: None, ..a },
    }
}

/// The instance that the enter key runs in input selection: of the
/// highlighted day, the instance of the highlighted part with the
/// highlighted position among that part's instances.
pub open spec fn selected_spec<P>(a: App<P>) -> Option<(usize, usize)> {
    match (a.day_highlight, a.input_highlight, a.part_highlight) {
        (Some(d), Some(i), Some(p)) => if d < a.days@.len() && p < usize::MAX {
            match nth_of_part(a.days@[d as int].instances@, (p + 1) as usize, i as int) {
                Some(k) => Some((d, k as usize)),
                None => None,
            }
        } else {
            None
        },
        _ => None,
    }
}

/// A day after a poll's report: every instance shows its reported status.
pub open spec fn ticked(before: Day, after: Day, finished: Seq<(usize, JobOutcome)>, started: Seq<(usize, usize)>) -> bool {
    &&& after.number == before.number
    &&& after.present == before.present
    &&& after.instances@.len() == before.instances@.len()
    &&& forall|k: int|
        0 <= k < before.instances@.len() ==> {
            let (b, f) = (before.instances@[k], #[trigger] after.instances@[k]);
            &&& f.status == reported_status(b.status, b.job_id, finished, started)
            &&& f.job_id == b.job_id
            &&& f.part == b.part
            &&& f.input == b.input
        }
}

fn tick_day(day: &mut Day, finished: &Vec<(usize, JobOutcome)>, started: &Vec<(usize, usize)>)
    ensures
        ticked(*old(day), *final(day), finished@, started@),
{
    let ghost before = day.instances@;
    let mut k: usize = 0;
    while k < day.instances.len()
        invariant
            k <= day.instances@.len(),
            day.instances@.len() == before.len(),
            day.number == old(day).number,
            day.present == old(day).present,
            before == old(day).instances@,
            forall|j: int|
                0 <= j < k ==> {
                    let (b, f) = (before[j], #[trigger] day.instances@[j]);
                    &&& f.status == reported_status(b.status, b.job_id, finished@, started@)
                    &&& f.job_id == b.job_id
                    &&& f.part == b.part
                    &&& f.input == b.input
                },
            forall|j: int| k <= j < before.len() ==> #[trigger] day.instances@[j] == before[j],
        decreases before.len() - k,
    {
        let mut inst = day.instances.remove(k);
        inst.update();
        inst.apply_report(finished, started);
        day.instances.insert(k, inst);
        k = k + 1;
    }
}

impl<P> App<P> {
    /// Handles a letter key: `q` steps back out of the selection (and quits
    /// from the day list), `Q` quits, `R` asks to run everything.
    pub fn handle_key(&mut self, letter: char) -> (r: Request)
        ensures
            r == if letter == 'R' { Request::RunAll } else { Request::Nothing },
            *final(self) == if letter == 'q' {
                match old(self).state {
                    State::Day => App { should_quit: true, ..*old(self) },
                    State::Part => App { state: State::Day, part_highlight: None, ..*old(self) },
                    State::Input => if old(self).day_selectable() {
                        App {
                            state: State::Part,
                            part_highlight: Some(0usize),
                            input_highlight: None,
                            ..*old(self)
                        }
                    } else {
                        *old(self)
                    },
                }
            } else if letter == 'Q' {
                App { should_quit: true, ..*old(self) }
            } else {
                *old(self)
            },
    {
        if letter == 'q' {
            match self.state {
                State::Day => self.should_quit = true,
                State::Part => self.day_selection(),
                State::Input => self.part_selection(),
            }
            Request::Nothing
        } else if letter == 'Q' {
            self.should_quit = true;
            Request::Nothing
        } else if letter == 'R' {
            Request::RunAll
        } else {
            Request::Nothing
        }
    }

    /// Moves the selection up: the previous day, the other part, or the
    /// previous input, wrapping round at the ends.
    pub fn on_up(&mut self)
        ensures
            *final(self) == up_spec(*old(self)),
    {
        match self.state {
            State::Day => {
                if self.days.len() > 0 {
                    let max = self.days.len() - 1;
                    cycle_down(&mut self.day_highlight, max);
                    self.input_highlight = None;
                }
            },
            State::Input => {
                if let Some(d) = self.day_highlight {
                    if d < self.days.len() {
                        let size = self.days[d].instances.len();
                        if size > 0 {
                            cycle_down(&mut self.input_highlight, size - 1);
                        }
                    }
                }
            },
            State::Part => {
                self.part_highlight = match self.part_highlight {
                    Some(0) => Some(1),
                    _ => Some(0),
                };
                self.input_highlight = None;
            },
        }
    }

    /// Moves the selection down: the next day, the other part, or the next
    /// input, wrapping round at the ends.
    pub fn on_down(&mut self)
        ensures
            *final(self) == down_spec(*old(self)),
    {
        match self.state {
            State::Day => {
                if self.days.len() > 0 {
                    let max = self.days.len() - 1;
                    cycle_up(&mut self.day_highlight, max);
                    self.input_highlight = None;
                }
            },
            State::Input => {
                if let Some(d) = self.day_highlight {
                    if d < self.days.len() {
                        let size = self.days[d].instances.len();
                        if size > 0 {
                            cycle_up(&mut self.input_highlight, size - 1);
                        }
                    }
                }
            },
            State::Part => {
                self.part_highlight = match self.part_highlight {
                    Some(0) => Some(1),
                    _ => Some(0),
                };
                self.input_highlight = None;
            },
        }
    }

    /// The instance that the enter key would run now.
    pub fn selected_instance(&self) -> (r: Option<(usize, usize)>)
        ensures
            r == selected_spec(*self),
    {
        match (self.day_highlight, self.input_highlight, self.part_highlight) {
            (Some(d), Some(i), Some(p)) => {
                if d < self.days.len() && p < usize::MAX {
                    match find_nth_of_part(&self.days[d].instances, p + 1, i) {
                        Some(k) => Some((d, k)),
                        None => None,
                    }
                } else {
                    None
                }
            },
            _ => None,
        }
    }

    /// Handles the enter key: from the day list into the parts of a day with
    /// a solver, from the parts into its inputs, and on an input a request
    /// to run it.
    pub fn on_enter(&mut self) -> (r: Request)
        ensures
            match old(self).state {
                State::Day => r == Request::Nothing && *final(self) == if old(self).day_selectable() {
                    App {
                        state: State::Part,
                        part_highlight: Some(0usize),
                        input_highlight: None,
                        ..*old(self)
                    }
                } else {
                    *old(self)
                },
                State::Part => r == Request::Nothing && *final(self) == if old(self).day_selectable() {
                    App { state: State::Input, input_highlight: Some(0usize), ..*old(self) }
                } else {
                    *old(self)
                },
                State::Input => *final(self) == *old(self) && r == match selected_spec(*old(self)) {
                    Some((d, k)) => Request::Run { day: d, instance: k },
                    None => Request::Nothing,
                },
            },
    {
        match self.state {
            State::Day => {
                self.part_selection();
                Request::Nothing
            },
            State::Part => {
                self.input_selection();
                Request::Nothing
            },
            State::Input => match self.selected_instance() {
                Some((d, k)) => Request::Run { day: d, instance: k },
                None => Request::Nothing,
            },
        }
    }

    /// Every instance of every day with a solver, in order.
    pub fn runnable(&self) -> (r: Vec<(usize, usize)>)
        ensures
            r@ == runnable_spec(self.days@, self.days@.len() as int),
    {
        let mut out: Vec<(usize, usize)> = Vec::new();
        let mut d: usize = 0;
        while d < self.days.len()
            invariant
                d <= self.days@.len(),
                out@ == runnable_spec(self.days@, d as int),
            decreases self.days@.len() - d,
        {
            if self.days[d].present {
                let n = self.days[d].instances.len();
                let ghost base = out@;
                let mut k: usize = 0;
                while k < n
                    invariant
                        k <= n,
                        n == self.days@[d as int].instances@.len(),
                        out@ == base + Seq::new(k as nat, |j: int| (d, j as usize)),
                    decreases n - k,
                {
                    out.push((d, k));
                    assert(out@ =~= base + Seq::new((k + 1) as nat, |j: int| (d, j as usize)));
                    k = k + 1;
                }
                assert(Seq::new(n as nat, |j: int| (d, j as usize)) =~= Seq::new(
                    self.days@[d as int].instances@.len(),
                    |j: int| (d as usize, j as usize),
                ));
            }
            d = d + 1;
        }
        out
    }

    /// Whether another job can be submitted.
    pub fn can_submit(&self) -> (r: bool)
        requires
            self.wf(),
        ensures
            r == self.pool.can_register(),
    {
        self.pool.has_free_id()
    }

    /// Submits `payload` as the run of one instance: the instance forgets
    /// its previous text, records the job, and shows it running on the
    /// worker that took it or waiting for one.
    pub fn submit(&mut self, day: usize, instance: usize, payload: P) -> (r: Option<Dispatch<P>>)
        requires
            old(self).wf(),
            day < old(self).days@.len(),
            instance < old(self).days@[day as int].instances@.len(),
            old(self).pool.can_register(),
        ensures
            final(self).wf(),
            ({
                let (pv, id, w) = register_spec(old(self).pool.view());
                let before = old(self).days@[day as int].instances@[instance as int];
                let after = final(self).days@[day as int].instances@[instance as int];
                &&& final(self).pool.view() == pv
                &&& match r {
                    Some(d) => w == Some(d.worker) && d.job.id == id && d.job.payload == payload,
                    None => w is None,
                }
                &&& after.job_id == Some(id as usize)
                &&& after.status == match w {
                    Some(wid) => JobStatus::Running(wid),
                    None => JobStatus::Waiting,
                }
                &&& after.output@ == Seq::<char>::empty()
                &&& after.debug@ == Seq::<char>::empty()
                &&& after.input == before.input
                &&& after.part == before.part
            }),
            final(self).days@.len() == old(self).days@.len(),
            forall|d: int|
                0 <= d < old(self).days@.len() && d != day ==> #[trigger] final(self).days@[d] == old(
                    self,
                ).days@[d],
            final(self).days@[day as int].number == old(self).days@[day as int].number,
            final(self).days@[day as int].present == old(self).days@[day as int].present,
            final(self).days@[day as int].instances@.len() == old(self).days@[day as int].instances@.len(),
            forall|k: int|
                0 <= k < old(self).days@[day as int].instances@.len() && k != instance
                    ==> #[trigger] final(self).days@[day as int].instances@[k] == old(
                    self,
                ).days@[day as int].instances@[k],
            final(self).day_highlight == old(self).day_highlight,
            final(self).part_highlight == old(self).part_highlight,
            final(self).input_highlight == old(self).input_highlight,
            final(self).state == old(self).state,
            final(self).should_quit == old(self).should_quit,
    {
        let (job_id, dispatch) = self.pool.register(payload);
        let status = match &dispatch {
            Some(d) => JobStatus::Running(d.worker),
            None => JobStatus::Waiting,
        };
        let mut entry = self.days.remove(day);
        let mut inst = entry.instances.remove(instance);
        inst.clear();
        inst.job_id = Some(job_id);
        inst.status = status;
        entry.instances.insert(instance, inst);
        self.days.insert(day, entry);
        dispatch
    }

    /// One tick of the dashboard: polls the pool with what each worker's
    /// thread reported (one entry per worker, in id order), takes in the
    /// text that each run sent, and shows each input's reported status.
    /// Returns the jobs to hand to their workers' threads.
    pub fn on_tick(&mut self, results: Vec<Option<JobOutcome>>) -> (r: Vec<Dispatch<P>>)
        requires
            old(self).wf(),
            results@.len() == POOL_SIZE,
        ensures
            final(self).wf(),
            ({
                let v = old(self).pool.view();
                let (nv, started) = update_spec(v, results@);
                let finished = finished_spec(v.slots, results@, POOL_SIZE as int);
                &&& final(self).pool.view() == nv
                &&& final(self).days@.len() == old(self).days@.len()
                &&& forall|d: int|
                    0 <= d < old(self).days@.len() ==> ticked(
                        old(self).days@[d],
                        #[trigger] final(self).days@[d],
                        finished,
                        started,
                    )
                &&& r@.len() == started.len() - v.announced.len()
                &&& forall|j: int|
                    0 <= j < r@.len() ==> (#[trigger] r@[j]).worker == started[v.announced.len() + j].1
                        && r@[j].job.id == started[v.announced.len() + j].0
            }),
            final(self).day_highlight == old(self).day_highlight,
            final(self).part_highlight == old(self).part_highlight,
            final(self).input_highlight == old(self).input_highlight,
            final(self).state == old(self).state,
            final(self).should_quit == old(self).should_quit,
    {
        let ghost v = self.pool.view();
        let ghost res = results@;
        let (report, dispatches) = self.pool.update(results);
        proof {
            let (nv, started) = update_spec(v, res);
            let promoted = crate::threadpool::promote(
                crate::threadpool::drain_slots(v.slots, res),
                v.backlog,
                POOL_SIZE as int,
            ).2;
            assert(started == v.announced + promoted);
            assert forall|j: int| 0 <= j < dispatches@.len() implies (#[trigger] dispatches@[j]).worker
                == started[v.announced.len() + j].1 && dispatches@[j].job.id == started[v.announced.len()
                + j].0 by {
                assert(started[v.announced.len() + j] == promoted[j]);
            }
        }
        let ghost before = self.days@;
        let ghost polled = self.pool;
        let mut i: usize = 0;
        while i < self.days.len()
            invariant
                i <= self.days@.len(),
                self.days@.len() == before.len(),
                before == old(self).days@,
                self.pool == polled,
                self.day_highlight == old(self).day_highlight,
                self.part_highlight == old(self).part_highlight,
                self.input_highlight == old(self).input_highlight,
                self.state == old(self).state,
                self.should_quit == old(self).should_quit,
                forall|d: int|
                    0 <= d < i ==> ticked(
                        before[d],
                        #[trigger] self.days@[d],
                        report.finished_jobs@,
                        report.started_jobs@,
                    ),
                forall|d: int| i <= d < before.len() ==> #[trigger] self.days@[d] == before[d],
            decreases before.len() - i,
        {
            let mut entry = self.days.remove(i);
            tick_day(&mut entry, &report.finished_jobs, &report.started_jobs);
            self.days.insert(i, entry);
            i = i + 1;
        }
        dispatches
    }
}

} // verus!
