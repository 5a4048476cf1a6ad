use aoc::catalog::{day_inputs, days, get_day, AocError};
use aoc::dashboard::{cycle_down, cycle_up, App, Day, Instance, JobOutcome, JobStatus, Request, State};

fn app() -> App<u32> {
    App::new(days())
}

#[test]
fn duration_is_shown_as_minutes_seconds_millis() {
    let mut inst = Instance::new("in.txt".to_string(), 1);
    assert_eq!(inst.duration(), None);
    inst.status = JobStatus::Finished(62_345);
    assert_eq!(inst.duration(), Some("01:02.345".to_string()));
    inst.status = JobStatus::Finished(6_000_007);
    assert_eq!(inst.duration(), Some("100:00.007".to_string()));
}

#[test]
fn instance_collects_and_clears_text() {
    let mut inst = Instance::new("in.txt".to_string(), 2);
    inst.receive(Some("a".to_string()), None);
    inst.receive(Some("b".to_string()), Some("dbg".to_string()));
    assert_eq!(inst.output, "ab");
    assert_eq!(inst.debug, "dbg");
    let (out, _) = inst.senders();
    out.send("c".to_string()).unwrap();
    inst.update();
    assert_eq!(inst.output, "abc");
    inst.clear();
    assert_eq!(inst.output, "");
    assert_eq!(inst.debug, "");
}

#[test]
fn day_status_is_the_greatest() {
    let mut day = Day::new(1, Some(vec!["a".to_string()]));
    assert_eq!(day.instances.len(), 2);
    assert_eq!(day.status(), JobStatus::Ready);
    day.instances[0].status = JobStatus::Finished(5);
    day.instances[1].status = JobStatus::Running(2);
    assert_eq!(day.status(), JobStatus::Finished(5));
    assert_eq!(day.status_for_part(2), JobStatus::Running(2));
    day.instances[1].status = JobStatus::Error;
    assert_eq!(day.status(), JobStatus::Error);
}

#[test]
fn calendar_lists_twenty_five_days() {
    let all = days();
    assert_eq!(all.len(), 25);
    assert!(all[2].present);
    assert_eq!(all[2].instances.len(), 4);
    assert!(!all[3].present);
    assert_eq!(all[24].number, 25);
    assert_eq!(get_day(3), Ok(3));
    assert_eq!(get_day(4), Err(AocError::UnimplementedDay));
    assert_eq!(get_day(26), Err(AocError::NonExistentDay));
    assert_eq!(get_day(0), Err(AocError::NonExistentDay));
    assert_eq!(AocError::NonExistentDay.message(), "Non-existent day");
    assert!(day_inputs(9).is_none());
}

#[test]
fn cycling_wraps_round() {
    let mut v = None;
    cycle_up(&mut v, 2);
    assert_eq!(v, Some(0));
    cycle_down(&mut v, 2);
    assert_eq!(v, Some(2));
    cycle_up(&mut v, 2);
    assert_eq!(v, Some(0));
    cycle_up(&mut v, 2);
    assert_eq!(v, Some(1));
}

#[test]
fn navigation_through_days_parts_and_inputs() {
    let mut a = app();
    assert_eq!(a.state, State::Day);
    a.on_up();
    assert_eq!(a.day_highlight, Some(24));
    a.on_down();
    assert_eq!(a.day_highlight, Some(0));
    assert_eq!(a.on_enter(), Request::Nothing);
    assert_eq!(a.state, State::Part);
    a.on_down();
    assert_eq!(a.part_highlight, Some(1));
    assert_eq!(a.on_enter(), Request::Nothing);
    assert_eq!(a.state, State::Input);
    assert_eq!(a.on_enter(), Request::Run { day: 0, instance: 1 });
    a.on_down();
    assert_eq!(a.input_highlight, Some(1));
    assert_eq!(a.on_enter(), Request::Run { day: 0, instance: 3 });
    a.handle_key('q');
    assert_eq!(a.state, State::Part);
    a.handle_key('q');
    assert_eq!(a.state, State::Day);
    assert!(!a.should_quit());
    a.handle_key('q');
    assert!(a.should_quit());
}

#[test]
fn day_without_solver_cannot_be_entered() {
    let mut a = app();
    a.day_highlight = Some(10);
    assert_eq!(a.on_enter(), Request::Nothing);
    assert_eq!(a.state, State::Day);
    assert_eq!(a.handle_key('R'), Request::RunAll);
    assert_eq!(a.handle_key('x'), Request::Nothing);
    a.handle_key('Q');
    assert!(a.should_quit());
}

#[test]
fn submissions_and_ticks_update_statuses() {
    let mut a = app();
    let all = a.runnable();
    assert_eq!(all.len(), 12);
    assert_eq!(all[0], (0, 0));
    assert_eq!(all[11], (2, 3));
    let mut dispatched = Vec::new();
    for (i, (d, k)) in all.iter().enumerate().take(5) {
        assert!(a.can_submit());
        if let Some(x) = a.submit(*d, *k, i as u32) {
            dispatched.push(x.worker);
        }
    }
    assert_eq!(dispatched, vec![0, 1, 2, 3]);
    assert_eq!(a.days[0].instances[0].status, JobStatus::Running(0));
    assert_eq!(a.days[1].instances[0].status, JobStatus::Waiting);
    assert_eq!(a.days[1].instances[0].job_id, Some(4));

    let next = a.on_tick(vec![Some(JobOutcome::Done(1500)), Some(JobOutcome::Failed), None, None]);
    assert_eq!(next.len(), 1);
    assert_eq!(next[0].worker, 0);
    assert_eq!(next[0].job.payload, 4);
    assert_eq!(a.days[0].instances[0].status, JobStatus::Finished(1500));
    assert_eq!(a.days[0].instances[1].status, JobStatus::Error);
    assert_eq!(a.days[0].instances[2].status, JobStatus::Running(2));
    assert_eq!(a.days[1].instances[0].status, JobStatus::Running(0));
    assert_eq!(a.days[0].instances[0].duration(), Some("00:01.500".to_string()));
}

#[test]
fn status_labels() {
    assert_eq!(JobStatus::Ready.label(), "Ready");
    assert_eq!(JobStatus::Waiting.label(), "Waiting");
    assert_eq!(JobStatus::Running(12).label(), "Running (12)");
    assert_eq!(JobStatus::Finished(3).label(), "Finished");
    assert_eq!(JobStatus::Error.label(), "Error");
}

#[test]
fn cycling_up_wraps_only_at_the_end() {
    let mut v = Some(30);
    cycle_up(&mut v, 24);
    assert_eq!(v, Some(31));
    let mut v = Some(24);
    cycle_up(&mut v, 24);
    assert_eq!(v, Some(0));
    let mut v = Some(usize::MAX);
    cycle_up(&mut v, 24);
    assert_eq!(v, Some(0));
}

#[test]
fn moving_down_past_the_last_day_goes_on() {
    let mut a = app();
    a.day_highlight = Some(30);
    a.on_down();
    assert_eq!(a.day_highlight, Some(31));
    a.day_highlight = Some(24);
    a.on_down();
    assert_eq!(a.day_highlight, Some(0));
}

#[test]
fn day_input_files() {
    let files = day_inputs(2).unwrap();
    assert_eq!(files, vec!["inputs/day2/small.txt".to_string(), "inputs/day2/real.txt".to_string()]);
}

#[test]
fn clock_text_pads_each_field() {
    let mut inst = Instance::new("in.txt".to_string(), 1);
    inst.status = JobStatus::Finished(5);
    assert_eq!(inst.duration(), Some("00:00.005".to_string()));
    inst.status = JobStatus::Running(0);
    assert_eq!(inst.status.label(), "Running (0)");
}
