use tomato::{
    countdown_label, stats_breakdown, stats_remark, Cycle, CycleAction, CyclePhase, Session,
    SessionList, StatsRemark, Timer,
};

#[test]
fn timer_setters_and_total() {
    let mut t = Timer::new(25, 5, 10);
    assert_eq!(t.work_minutes, 25);
    assert_eq!(t.break_minutes, 5);
    assert_eq!(t.total_worked_minutes, 10);
    t.add_worked_minutes(25);
    assert_eq!(t.total_worked_minutes, 35);
    t.set_work_minutes(50);
    t.set_break_minutes(15);
    assert_eq!(t, Timer::new(50, 15, 35));
}

#[test]
fn cycle_fits_checks_limits() {
    assert!(Timer::new(25, 5, 0).cycle_fits());
    assert!(!Timer::new(u64::MAX / 60 + 1, 5, 0).cycle_fits());
    assert!(!Timer::new(u32::MAX as u64 + 1, 5, 0).cycle_fits());
    assert!(!Timer::new(25, 5, u64::MAX - 24).cycle_fits());
    assert!(Timer::new(25, 5, u64::MAX - 25).cycle_fits());
}

#[test]
fn zero_minute_cycle_records_one_session() {
    let mut timer = Timer::new(0, 0, 7);
    let mut sessions = SessionList::new(None);
    let mut cycle = Cycle::new();
    let a1 = cycle.advance(&mut timer, &mut sessions, true, 100);
    assert_eq!(a1, CycleAction::CountdownStarted { ticks: 0 });
    let a2 = cycle.advance(&mut timer, &mut sessions, true, 100);
    assert_eq!(a2, CycleAction::WorkFinished { notify: true });
    let a3 = cycle.advance(&mut timer, &mut sessions, true, 100);
    assert_eq!(a3, CycleAction::CountdownStarted { ticks: 0 });
    let a4 = cycle.advance(&mut timer, &mut sessions, true, 100);
    let s = Session::new(Some(100), 0, 0);
    assert_eq!(a4, CycleAction::BreakFinished { session: s, notify: true });
    assert_eq!(cycle.phase, CyclePhase::Idle);
    assert_eq!(timer.total_worked_minutes, 7);
    assert_eq!(sessions.sessions(), &vec![s]);
}

#[test]
fn one_minute_cycle_counts_down_and_adds_minutes() {
    let mut timer = Timer::new(1, 1, 0);
    let mut sessions = SessionList::new(Some(vec![Session::new(None, 3, 3)]));
    let mut cycle = Cycle::new();
    let mut ticks = Vec::new();
    let mut recorded = 0;
    let mut steps = 0;
    loop {
        steps += 1;
        match cycle.advance(&mut timer, &mut sessions, false, 5) {
            CycleAction::Tick { remaining } => ticks.push(remaining),
            CycleAction::BreakFinished { session, notify } => {
                assert!(!notify);
                assert_eq!(session, Session::new(Some(5), 1, 1));
                recorded += 1;
                break;
            }
            _ => {}
        }
    }
    assert_eq!(steps, 60 + 60 + 4);
    assert_eq!(recorded, 1);
    assert_eq!(ticks.len(), 120);
    assert_eq!(ticks[0], 60);
    assert_eq!(ticks[59], 1);
    assert_eq!(timer.total_worked_minutes, 1);
    assert_eq!(sessions.sessions().len(), 2);
    assert_eq!(sessions.total_work_minutes(), 4);
}

#[test]
fn countdown_label_pads() {
    assert_eq!(countdown_label(1500), "25:00");
    assert_eq!(countdown_label(61), "01:01");
    assert_eq!(countdown_label(9), "00:09");
    assert_eq!(countdown_label(0), "00:00");
    assert_eq!(countdown_label(6000), "100:00");
}

#[test]
fn stats_breakdown_splits_minutes() {
    assert_eq!(stats_breakdown(0), (0, 0, 0));
    assert_eq!(stats_breakdown(1440 + 120 + 5), (1, 2, 5));
    assert_eq!(stats_breakdown(59), (0, 0, 59));
}

#[test]
fn stats_remark_thresholds() {
    assert_eq!(stats_remark(0), StatsRemark::AlmostBetterThanNothing);
    assert_eq!(stats_remark(1), StatsRemark::BetterThanNothing);
    assert_eq!(stats_remark(25), StatsRemark::BetterThanNothing);
    assert_eq!(stats_remark(26), StatsRemark::GoodJob);
}
