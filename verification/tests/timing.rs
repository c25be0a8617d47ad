use starframe::base::gameloop::{should_snap, Globals, LockstepClock, SNAP_THRESHOLD};
use starframe::game::{
    FrameClock, FrameStep, GraphicsConfig, Outcome, MAX_ACC_VALUE, NANOS_120FPS, NANOS_15FPS, NANOS_20FPS,
    NANOS_30FPS, NANOS_60FPS,
};
use starframe::input::{ButtonQuery, Key, MouseButton};

#[test]
fn refresh_intervals_are_exact_nanoseconds() {
    assert_eq!(NANOS_120FPS, 8_333_333);
    assert_eq!(NANOS_60FPS, 16_666_666);
    assert_eq!(NANOS_30FPS, 33_333_333);
    assert_eq!(NANOS_20FPS, 50_000_000);
    assert_eq!(NANOS_15FPS, 66_666_666);
    assert_eq!(MAX_ACC_VALUE, 125_000_000);
}

/// Frame times within the threshold of a refresh interval snap to it, on either side.
#[test]
fn snapping_threshold() {
    assert!(should_snap(16_700_000, NANOS_60FPS));
    assert!(should_snap(16_500_000, NANOS_60FPS));
    assert!(should_snap(NANOS_60FPS, NANOS_60FPS));
    assert!(!should_snap(17_000_000, NANOS_60FPS));
    assert!(!should_snap(NANOS_60FPS + SNAP_THRESHOLD, NANOS_60FPS));
    assert!(should_snap(NANOS_60FPS + SNAP_THRESHOLD - 1, NANOS_60FPS));
    assert!(!should_snap(NANOS_60FPS - SNAP_THRESHOLD, NANOS_60FPS));
}

#[test]
fn graphics_config_tick_length() {
    let config = GraphicsConfig { fps: 60, use_vsync: true, lighting_quality: () };
    assert_eq!(config.nanos_per_frame(), 16_666_666);
}

/// The game's clock runs one tick before the first frame, snaps frame times to refresh
/// intervals, and caps what it accumulates.
#[test]
fn frame_clock_ticks() {
    let mut clock = FrameClock::new(60);
    assert_eq!(clock.nanos_per_frame(), 16_666_666);
    // one tick is ready before the first frame
    assert!(clock.next_tick());
    assert!(!clock.next_tick());

    // a frame close to 60 fps counts as exactly one tick
    assert_eq!(clock.begin_frame(16_700_000), NANOS_60FPS);
    assert!(clock.next_tick());
    assert!(!clock.next_tick());

    // a frame close to no refresh interval counts as it was measured
    assert_eq!(clock.begin_frame(10_000_000), 10_000_000);
    assert!(!clock.next_tick());
    assert_eq!(clock.begin_frame(10_000_000), 10_000_000);
    assert!(clock.next_tick());
    assert!(!clock.next_tick());

    // a very long frame is capped: 125 ms hold 7 ticks of 16.67 ms
    assert_eq!(clock.begin_frame(1_000_000_000), 1_000_000_000);
    let mut ticks = 0;
    while clock.next_tick() {
        ticks += 1;
    }
    assert_eq!(ticks, MAX_ACC_VALUE / NANOS_60FPS);
    assert_eq!(ticks, 7);
}

/// The lockstep loop's clock snaps without restarting its accumulator, and sleeps for the
/// rest of the frame.
#[test]
fn lockstep_clock_ticks_and_sleeps() {
    let mut clock = LockstepClock::from_fps(60);
    assert!(!clock.next_tick());
    assert_eq!(clock.sleep_nanos(), 16_666_666);

    clock.begin_frame(16_700_000);
    assert!(clock.next_tick());
    assert!(!clock.next_tick());

    clock.begin_frame(5_000_000);
    assert!(!clock.next_tick());
    assert_eq!(clock.sleep_nanos(), 11_666_666);

    clock.begin_frame(12_000_000);
    assert!(clock.next_tick());
    assert!(!clock.next_tick());
    assert_eq!(clock.sleep_nanos(), 16_666_666 - 333_334);
}

/// Fresh globals have every button released.
#[test]
fn globals_start_released() {
    let globals = Globals::init();
    assert!(globals.input.button(ButtonQuery::kb(Key(3)).released()));
    assert!(!globals.input.button(ButtonQuery::kb(Key(3))));
    assert!(globals.input.button(ButtonQuery::mouse(MouseButton::Left).released()));
}

/// A frame runs ticks while a whole tick of time is left, then draws; a stopped game leaves at
/// once.
#[test]
fn frame_decisions_tick_then_draw_or_exit() {
    let mut clock = FrameClock::new(60);
    clock.begin_frame(1_000_000_000);
    let mut ticks = 0;
    loop {
        match clock.decide(Outcome::Running) {
            FrameStep::Tick => ticks += 1,
            FrameStep::Draw => break,
            FrameStep::Exit => panic!("a running game does not exit"),
        }
    }
    // the accumulator is capped at an eighth of a second: 7 ticks of 1/60 s
    assert_eq!(ticks, 7);

    clock.begin_frame(1_000_000_000);
    assert_eq!(clock.decide(Outcome::Running), FrameStep::Tick);
    assert_eq!(clock.decide(Outcome::Stopped), FrameStep::Exit);
}
