use vstd::prelude::*;
use crate::input::{AgedState, Button, ElementState, Input, is_tracked};

verus! {

/// Frame times within this many nanoseconds of a common refresh interval
/// are snapped to that interval.
pub const SNAP_THRESHOLD: u128 = 200_000;

/// Whether a measured frame time `dt` is close enough to `target` to be
/// treated as exactly `target` (both in nanoseconds).
pub open spec fn snaps_to(dt: u128, target: u128) -> bool {
    if dt < target {
        target - dt < SNAP_THRESHOLD
    } else {
        dt - target < SNAP_THRESHOLD
    }
}

pub fn should_snap(dt: u128, target: u128) -> (r: bool)
    ensures
        r == snaps_to(dt, target),
{
    if dt < target {
        target - dt < SNAP_THRESHOLD
    } else {
        dt - target < SNAP_THRESHOLD
    }
}

pub const NANOS_120FPS: u128 = 1_000_000_000 / 120;
pub const NANOS_60FPS: u128 = 1_000_000_000 / 60;
pub const NANOS_30FPS: u128 = 1_000_000_000 / 30;
pub const NANOS_20FPS: u128 = 1_000_000_000 / 20;
pub const NANOS_15FPS: u128 = 1_000_000_000 / 15;

/// The accumulator never holds more than this, to prevent a spiral of death.
pub const MAX_ACC_VALUE: u128 = 1_000_000_000 / 8;

/// A measured frame time `dt` as the lockstep loop accounts it: the first refresh interval it
/// is close to, fastest first, or `dt` itself.
pub open spec fn snapped_frame_time(dt: u128) -> u128 {
    if snaps_to(dt, NANOS_120FPS) {
        NANOS_120FPS
    } else if snaps_to(dt, NANOS_60FPS) {
        NANOS_60FPS
    } else if snaps_to(dt, NANOS_30FPS) {
        NANOS_30FPS
    } else if snaps_to(dt, NANOS_20FPS) {
        NANOS_20FPS
    } else if snaps_to(dt, NANOS_15FPS) {
        NANOS_15FPS
    } else {
        dt
    }
}

/// One of the common display refresh intervals that measured frame times snap to.
pub open spec fn refresh_interval(s: u128) -> bool {
    s == NANOS_120FPS || s == NANOS_60FPS || s == NANOS_30FPS || s == NANOS_20FPS || s == NANOS_15FPS
}

/// `a` and `b` are less than `SNAP_THRESHOLD` apart.
pub open spec fn within_threshold(a: u128, b: u128) -> bool {
    a < b + SNAP_THRESHOLD && b < a + SNAP_THRESHOLD
}

/// A measured frame time is accounted as the refresh interval less than `SNAP_THRESHOLD` away
/// from it, if there is one, and as itself otherwise. So the accounted time never differs
/// from the measured one by the threshold or more, and a frame that took a whole number of
/// refreshes is accounted as that many refreshes.
pub proof fn lemma_frame_time_accounting(dt: u128)
    ensures
        forall|s: u128| #[trigger] refresh_interval(s) && within_threshold(dt, s) ==> snapped_frame_time(dt) == s,
        (forall|s: u128| #[trigger] refresh_interval(s) ==> !within_threshold(dt, s)) ==> snapped_frame_time(dt) == dt,
        snapped_frame_time(dt) == dt || within_threshold(dt, snapped_frame_time(dt)),
{
    assert(NANOS_120FPS == 8_333_333);
    assert(NANOS_60FPS == 16_666_666);
    assert(NANOS_30FPS == 33_333_333);
    assert(NANOS_20FPS == 50_000_000);
    assert(NANOS_15FPS == 66_666_666);
    if !(forall|s: u128| #[trigger] refresh_interval(s) ==> !within_threshold(dt, s)) {
        let s = choose|s: u128| #[trigger] refresh_interval(s) && within_threshold(dt, s);
    } else {
        assert(refresh_interval(NANOS_120FPS) && refresh_interval(NANOS_60FPS) && refresh_interval(NANOS_30FPS)
            && refresh_interval(NANOS_20FPS) && refresh_interval(NANOS_15FPS));
    }
}

/// The timing of a loop that runs both simulation and rendering at a fixed framerate:
/// the duration of a frame, and the measured time no tick has consumed yet.
pub struct LockstepClock {
    nanos_per_frame: u128,
    acc: u128,
}

impl LockstepClock {
    pub closed spec fn frame_nanos(&self) -> u128 {
        self.nanos_per_frame
    }

    pub closed spec fn accumulated(&self) -> u128 {
        self.acc
    }

    /// A clock for `fps` frames a second, with nothing accumulated.
    pub fn from_fps(fps: u32) -> (r: Self)
        requires
            fps > 0,
        ensures
            r.frame_nanos() == 1_000_000_000int / (fps as int),
            r.accumulated() == 0,
    {
        LockstepClock { nanos_per_frame: 1_000_000_000 / (fps as u128), acc: 0 }
    }

    /// Account for a frame that took `dt_nanos`, snapped to a refresh interval it is close to;
    /// the accumulator is then capped at [`MAX_ACC_VALUE`].
    pub fn begin_frame(&mut self, dt_nanos: u128)
        requires
            old(self).accumulated() + snapped_frame_time(dt_nanos) <= u128::MAX,
        ensures
            final(self).frame_nanos() == old(self).frame_nanos(),
            final(self).accumulated() == ({
                let acc = old(self).accumulated() + snapped_frame_time(dt_nanos);
                if acc > MAX_ACC_VALUE { MAX_ACC_VALUE as int } else { acc }
            }),
    {
        // if vsynced, pretend frame timing is exact
        let mut dt = dt_nanos;
        if should_snap(dt, NANOS_120FPS) {
            dt = NANOS_120FPS;
        } else if should_snap(dt, NANOS_60FPS) {
            dt = NANOS_60FPS;
        } else if should_snap(dt, NANOS_30FPS) {
            dt = NANOS_30FPS;
        } else if should_snap(dt, NANOS_20FPS) {
            dt = NANOS_20FPS;
        } else if should_snap(dt, NANOS_15FPS) {
            dt = NANOS_15FPS;
        }
        self.acc = self.acc + dt;
        // limit acc to prevent spiral of death
        if self.acc > MAX_ACC_VALUE {
            self.acc = MAX_ACC_VALUE;
        }
    }

    /// Whether a whole frame of time is accumulated; if so, it is consumed.
    pub fn next_tick(&mut self) -> (r: bool)
        ensures
            r == (old(self).accumulated() >= old(self).frame_nanos()),
            final(self).frame_nanos() == old(self).frame_nanos(),
            final(self).accumulated() == if r {
                old(self).accumulated() - old(self).frame_nanos()
            } else {
                old(self).accumulated() as int
            },
    {
        if self.acc >= self.nanos_per_frame {
            self.acc = self.acc - self.nanos_per_frame;
            true
        } else {
            false
        }
    }

    /// How long to sleep until the next frame: the rest of the frame not yet accumulated.
    pub fn sleep_nanos(&self) -> (r: u128)
        requires
            self.accumulated() < self.frame_nanos(),
        ensures
            r == self.frame_nanos() - self.accumulated(),
    {
        self.nanos_per_frame - self.acc
    }
}

/// Globally used information that is created before the game loop starts and owned by the game loop.
pub struct Globals {
    pub input: Input,
}

impl Globals {
    /// Fresh globals: every button released.
    pub fn init() -> (r: Self)
        ensures
            r.input.wf(),
            forall|b: Button| is_tracked(b) ==> #[trigger] r.input.state(b) == (AgedState { state: ElementState::Released, age: 0 }),
    {
        Globals { input: Input::new() }
    }
}

} // verus!
