use omanote::timer::{format_ms, millis_between, parse, plan, target_day, Command, Kind, Plan, Timer};

#[test]
fn parses_commands() {
    assert_eq!(parse("timer"), Some(Command::Stopwatch { title: String::new() }));
    assert_eq!(parse("timer 3.5"), Some(Command::Countdown { ms: 210_000, title: String::new() }));
    assert_eq!(parse("timer 3,5"), Some(Command::Countdown { ms: 210_000, title: String::new() }));
    assert_eq!(parse("timer 3:30"), Some(Command::Countdown { ms: 210_000, title: String::new() }));
    assert_eq!(
        parse("timer 5: Errands: bank, post"),
        Some(Command::Countdown { ms: 300_000, title: "Errands: bank, post".into() })
    );
    assert_eq!(
        parse("Timer 25 5"),
        Some(Command::Pomodoro { work_ms: 1_500_000, rest_ms: 300_000, title: String::new() })
    );
    assert!(matches!(parse("timer pomo"), Some(Command::Pomodoro { work_ms: 1_500_000, .. })));
    assert_eq!(parse("timer p"), Some(Command::Pause));
    assert_eq!(parse("timer r"), Some(Command::Restart));
    assert_eq!(parse("timer s"), Some(Command::Stop));
    assert_eq!(parse("timer 0"), Some(Command::Stop));
    assert_eq!(parse("timers are great"), None);
    assert_eq!(parse("the timer 5"), None);
}

#[test]
fn time_of_day_is_in_the_future() {
    for s in ["timer 9am", "timer 21:15", "timer 12pm"] {
        match parse(s) {
            Some(Command::Countdown { ms, .. }) => assert!(ms > 0 && ms <= 86_400_000, "{s}: {ms}"),
            other => panic!("{s}: {other:?}"),
        }
    }
}

#[test]
fn countdown_and_pomodoro_flow() {
    let mut t = Timer::start(&Command::Countdown { ms: 1000, title: "x".into() }, 0).unwrap();
    assert_eq!(t.tick(400).ms, 600);
    t.toggle_pause(400);
    assert_eq!(t.tick(5000).ms, 600);
    t.toggle_pause(5000);
    assert_eq!(t.advance(5700), Some("done"));
    assert!(!t.running);

    let mut p = Timer::start(&Command::Pomodoro { work_ms: 1000, rest_ms: 500, title: String::new() }, 0).unwrap();
    assert_eq!(p.advance(1000), Some("work_done"));
    assert_eq!(p.phase, "rest");
    assert_eq!(p.advance(1500), Some("rest_done"));
    assert_eq!(format_ms(61_000), "1:01");
    assert_eq!(format_ms(3_600_000), "1:00:00");
}

#[test]
fn times_of_day_are_planned() {
    assert!(matches!(plan("timer 9am"), Plan::At { hour: 9, minute: 0, .. }));
    assert!(matches!(plan("timer 12am"), Plan::At { hour: 0, minute: 0, .. }));
    assert!(matches!(plan("timer 12pm"), Plan::At { hour: 12, minute: 0, .. }));
    assert!(matches!(plan("timer 1:30pm"), Plan::At { hour: 13, minute: 30, .. }));
    assert!(matches!(plan("timer 21:15: Call"), Plan::At { hour: 21, minute: 15, .. }));
    assert!(matches!(plan("timer 25:00"), Plan::Invalid));
    assert!(matches!(plan("timer 9:60am"), Plan::Invalid));
}

#[test]
fn minutes_are_exact() {
    assert_eq!(parse("timer 0.5"), Some(Command::Countdown { ms: 30_000, title: String::new() }));
    assert_eq!(parse("timer .25"), Some(Command::Countdown { ms: 15_000, title: String::new() }));
    assert_eq!(parse("timer +2"), Some(Command::Countdown { ms: 120_000, title: String::new() }));
    assert_eq!(parse("timer 0.00001"), Some(Command::Countdown { ms: 1, title: String::new() }));
    assert_eq!(parse("timer -2"), None);
    assert_eq!(parse("timer 100000"), None);
    assert_eq!(parse("timer 1:75"), None);
    assert_eq!(parse("timer 1 2 3"), None);
    assert_eq!(parse("timer pause"), Some(Command::Pause));
    assert_eq!(parse("TIMER STOP"), Some(Command::Stop));
}

#[test]
fn stopwatch_and_restart() {
    let mut s = Timer::start(&Command::Stopwatch { title: "w".into() }, 100).unwrap();
    assert_eq!(s.kind, Kind::Stopwatch);
    assert_eq!(s.elapsed(1100), 1000);
    assert_eq!(s.advance(10_000), None);
    s.toggle_pause(1100);
    assert_eq!(s.elapsed(9_999), 1000);
    s.restart(2000);
    assert_eq!(s.elapsed(2500), 500);
    assert!(Timer::start(&Command::Pause, 0).is_none());
    let mut p = Timer::start(&Command::Pomodoro { work_ms: 1000, rest_ms: 500, title: String::new() }, 0).unwrap();
    p.advance(1000);
    p.restart(3000);
    assert_eq!(p.phase, "work");
    assert_eq!(p.duration_ms, 1000);
    let t = p.tick(3000);
    assert_eq!(t.ms, 1000);
    assert_eq!(t.label, "0:01");
    assert_eq!(format_ms(0), "0:00");
    assert_eq!(format_ms(1), "0:01");
    assert_eq!(format_ms(59_001), "1:00");
}

#[test]
fn paused_time_does_not_count() {
    let mut s = Timer::start(&Command::Stopwatch { title: String::new() }, 0).unwrap();
    s.toggle_pause(300);
    assert!(!s.running);
    assert_eq!(s.elapsed(900), 300);
    s.toggle_pause(1000);
    assert!(s.running);
    assert_eq!(s.elapsed(1500), 800);
}

#[test]
fn time_of_day_picks_today_or_tomorrow() {
    assert_eq!(target_day(100, 3599, 1, 0), 100);
    assert_eq!(target_day(100, 3600, 1, 0), 101);
    assert_eq!(target_day(7, 86_399, 23, 59), 8);
    assert_eq!(millis_between(10, 500_000_000, 20), 9_500);
    assert_eq!(millis_between(20, 0, 10), -10_000);
}

#[test]
fn paused_timer_has_no_start() {
    let mut t = Timer::start(&Command::Stopwatch { title: String::new() }, 500).unwrap();
    t.toggle_pause(800);
    assert_eq!(t.started_ms, 0);
    assert_eq!(t.accumulated_ms, 300);
    t.toggle_pause(1000);
    assert_eq!(t.started_ms, 1000);
}

#[test]
fn minutes_take_an_exponent() {
    assert_eq!(parse("timer 1e1"), Some(Command::Countdown { ms: 600_000, title: String::new() }));
    assert_eq!(parse("timer 2.5E-1"), Some(Command::Countdown { ms: 15_000, title: String::new() }));
    assert_eq!(parse("timer 1e+2"), Some(Command::Countdown { ms: 6_000_000, title: String::new() }));
    assert_eq!(parse("timer 0.001e3"), Some(Command::Countdown { ms: 60_000, title: String::new() }));
    assert_eq!(parse("timer 1e5"), None);
    assert_eq!(parse("timer 1e999999999999999999999999999999999"), None);
    assert_eq!(parse("timer 1e"), None);
    assert_eq!(parse("timer e2"), None);
}
