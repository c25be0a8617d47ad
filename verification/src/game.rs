//! The timing of the managed game loop: fixed-rate ticks driven by measured frame times.
//!
//! Frame times close to a common refresh interval are snapped to it, so that a vsynced game
//! runs its ticks in lockstep with the display.
use vstd::prelude::*;
use crate::base::gameloop::{should_snap, snaps_to, SNAP_THRESHOLD};

verus! {

pub const NANOS_120FPS: u128 = 1_000_000_000 / 120;
pub const NANOS_60FPS: u128 = 1_000_000_000 / 60;
pub const NANOS_30FPS: u128 = 1_000_000_000 / 30;
pub const NANOS_20FPS: u128 = 1_000_000_000 / 20;
pub const NANOS_15FPS: u128 = 1_000_000_000 / 15;

/// The accumulator never holds more than this, to prevent a spiral of death.
pub const MAX_ACC_VALUE: u128 = 1_000_000_000 / 8;

/// How many frames to store for the moving average frame time
pub const STORED_FRAME_TIME_COUNT: usize = 10;

/// The refresh interval that a measured frame time `dt` snaps to, trying the fastest first.
pub open spec fn snapped(dt: u128) -> Option<u128> {
    if snaps_to(dt, NANOS_120FPS) {
        Some(NANOS_120FPS)
    } else if snaps_to(dt, NANOS_60FPS) {
        Some(NANOS_60FPS)
    } else if snaps_to(dt, NANOS_30FPS) {
        Some(NANOS_30FPS)
    } else if snaps_to(dt, NANOS_20FPS) {
        Some(NANOS_20FPS)
    } else if snaps_to(dt, NANOS_15FPS) {
        Some(NANOS_15FPS)
    } else {
        None
    }
}

/// One of the common display refresh intervals that measured frame times snap to.
pub open spec fn refresh_interval(s: u128) -> bool {
    s == NANOS_120FPS || s == NANOS_60FPS || s == NANOS_30FPS || s == NANOS_20FPS || s == NANOS_15FPS
}

/// `a` and `b` are less than `SNAP_THRESHOLD` apart.
pub open spec fn within_threshold(a: u128, b: u128) -> bool {
    a < b + SNAP_THRESHOLD && b < a + SNAP_THRESHOLD
}

/// A measured frame time snaps to exactly the refresh intervals less than `SNAP_THRESHOLD`
/// away from it (there is never more than one), and to none when no interval is that close.
/// So `begin_frame` accounts a frame as the refresh interval it is close to, or as measured:
/// the accounted time never differs from the measured one by the threshold or more, and a
/// frame that took a whole number of refreshes is accounted as that many refreshes.
pub proof fn lemma_snapped_is_nearby_interval(dt: u128)
    ensures
        forall|s: u128| snapped(dt) == Some(s) <==> #[trigger] refresh_interval(s) && within_threshold(dt, s),
        snapped(dt) is None <==> (forall|s: u128| #[trigger] refresh_interval(s) ==> !within_threshold(dt, s)),
{
    assert(NANOS_120FPS == 8_333_333);
    assert(NANOS_60FPS == 16_666_666);
    assert(NANOS_30FPS == 33_333_333);
    assert(NANOS_20FPS == 50_000_000);
    assert(NANOS_15FPS == 66_666_666);
    assert(SNAP_THRESHOLD == 200_000);
    assert(refresh_interval(NANOS_120FPS) && refresh_interval(NANOS_60FPS) && refresh_interval(NANOS_30FPS)
        && refresh_interval(NANOS_20FPS) && refresh_interval(NANOS_15FPS));
}

/// Graphics settings of a game: the tick rate, vsync, and the lighting quality settings `L`
/// of the renderer.
#[derive(Clone, Copy, Debug)]
pub struct GraphicsConfig<L> {
    pub fps: u32,
    pub use_vsync: bool,
    pub lighting_quality: L,
}

impl<L> GraphicsConfig<L> {
    /// The duration of a tick in nanoseconds.
    pub fn nanos_per_frame(&self) -> (r: u128)
        requires
            self.fps > 0,
        ensures
            r == 1_000_000_000int / (self.fps as int),
    {
        1_000_000_000 / (self.fps as u128)
    }
}

/// The clock of the game loop: the duration of a tick, and the measured time that no tick has
/// consumed yet.
pub struct FrameClock {
    nanos_per_frame: u128,
    acc: u128,
}

impl FrameClock {
    /// The duration of a tick in nanoseconds.
    pub closed spec fn tick_nanos(&self) -> u128 {
        self.nanos_per_frame
    }

    /// Measured time not consumed by ticks yet, in nanoseconds.
    pub closed spec fn accumulated(&self) -> u128 {
        self.acc
    }

    /// A clock ticking `fps` times a second. The accumulator starts at one tick, so that one
    /// tick is simulated before the first draw.
    pub fn new(fps: u32) -> (r: Self)
        requires
            fps > 0,
        ensures
            r.tick_nanos() == 1_000_000_000int / (fps as int),
            r.accumulated() == r.tick_nanos(),
    {
        let nanos_per_frame = 1_000_000_000 / (fps as u128);
        FrameClock { nanos_per_frame, acc: nanos_per_frame }
    }

    /// The duration of a tick in nanoseconds.
    pub fn nanos_per_frame(&self) -> (r: u128)
        ensures
            r == self.tick_nanos(),
    {
        self.nanos_per_frame
    }

    /// Account for a frame that took `dt_nanos`. A frame time close to a refresh interval is
    /// taken to be exactly that interval and restarts the accumulator; the accumulator is then
    /// capped at [`MAX_ACC_VALUE`]. Returns the frame time as accounted.
    pub fn begin_frame(&mut self, dt_nanos: u128) -> (r: u128)
        requires
            dt_nanos <= u128::MAX - old(self).accumulated(),
        ensures
            r == match snapped(dt_nanos) {
                Some(s) => s,
                None => dt_nanos,
            },
            final(self).tick_nanos() == old(self).tick_nanos(),
            final(self).accumulated() == ({
                let acc = match snapped(dt_nanos) {
                    Some(s) => s as int,
                    None => old(self).accumulated() + dt_nanos,
                };
                if acc > MAX_ACC_VALUE { MAX_ACC_VALUE as int } else { acc }
            }),
    {
        // if vsynced, pretend frame timing is exact
        let mut dt = dt_nanos;
        if should_snap(dt, NANOS_120FPS) {
            dt = NANOS_120FPS;
            self.acc = 0;
        } else if should_snap(dt, NANOS_60FPS) {
            dt = NANOS_60FPS;
            self.acc = 0;
        } else if should_snap(dt, NANOS_30FPS) {
            dt = NANOS_30FPS;
            self.acc = 0;
        } else if should_snap(dt, NANOS_20FPS) {
            dt = NANOS_20FPS;
            self.acc = 0;
        } else if should_snap(dt, NANOS_15FPS) {
            dt = NANOS_15FPS;
            self.acc = 0;
        }
        self.acc = self.acc + dt;
        // limit acc to prevent spiral of death
        if self.acc > MAX_ACC_VALUE {
            self.acc = MAX_ACC_VALUE;
        }
        dt
    }

    /// Whether a whole tick of time is accumulated; if so, it is consumed.
    pub fn next_tick(&mut self) -> (r: bool)
        ensures
            r == (old(self).accumulated() >= old(self).tick_nanos()),
            final(self).tick_nanos() == old(self).tick_nanos(),
            final(self).accumulated() == if r {
                old(self).accumulated() - old(self).tick_nanos()
            } else {
                old(self).accumulated() as int
            },
    {
        if self.acc >= self.nanos_per_frame {
            self.acc = self.acc - self.nanos_per_frame;
            true
        } else {
            false
        }
    }
}

/// What came of the last thing the game loop did in the current frame.
#[derive(Clone, Copy, Debug, PartialEq, Eq, Structural)]
pub enum Outcome {
    /// The frame has begun, or a tick ran and the game goes on.
    Running,
    /// A tick returned `None`: the game is over.
    Stopped,
}

/// What the game loop does next.
#[derive(Clone, Copy, Debug, PartialEq, Eq, Structural)]
pub enum FrameStep {
    /// Run a tick of the game.
    Tick,
    /// Draw the frame; the frame is done.
    Draw,
    /// Leave the loop, with no more ticks or draws.
    Exit,
}

impl FrameClock {
    /// Decide what the game loop does after `outcome`: leave at once when the game is over,
    /// otherwise run a tick while a whole tick of time is accumulated, consuming it, and draw
    /// when none is left.
    pub fn decide(&mut self, outcome: Outcome) -> (r: FrameStep)
        ensures
            final(self).tick_nanos() == old(self).tick_nanos(),
            outcome == Outcome::Stopped ==> r == FrameStep::Exit && final(self).accumulated() == old(self).accumulated(),
            outcome == Outcome::Running ==> {
                &&& (r == FrameStep::Tick) == (old(self).accumulated() >= old(self).tick_nanos())
                &&& r != FrameStep::Exit
                &&& final(self).accumulated() == if r == FrameStep::Tick {
                    old(self).accumulated() - old(self).tick_nanos()
                } else {
                    old(self).accumulated() as int
                }
            },
    {
        match outcome {
            Outcome::Stopped => FrameStep::Exit,
            Outcome::Running => {
                if self.next_tick() {
                    FrameStep::Tick
                } else {
                    FrameStep::Draw
                }
            },
        }
    }
}

/// Running ticks until none is left leaves less than a tick of time accumulated, and never
/// more than the cap allows.
pub proof fn lemma_ticks_drain(before: FrameClock, after: FrameClock, ticks: nat)
    requires
        before.tick_nanos() > 0,
        after.tick_nanos() == before.tick_nanos(),
        after.accumulated() < after.tick_nanos(),
        before.accumulated() == after.accumulated() + ticks * before.tick_nanos(),
    ensures
        ticks == before.accumulated() / before.tick_nanos(),
        after.accumulated() == before.accumulated() % before.tick_nanos(),
{
    vstd::arithmetic::div_mod::lemma_fundamental_div_mod_converse(
        before.accumulated() as int,
        before.tick_nanos() as int,
        ticks as int,
        after.accumulated() as int,
    );
}

/// A frame runs at most `MAX_ACC_VALUE / tick_nanos` ticks before it is drawn (7 at 60 fps):
/// `begin_frame` caps the accumulated time, and every tick that `decide` or `next_tick` hands
/// out consumes a tick's length of it.
pub proof fn lemma_ticks_per_frame(before: FrameClock, after: FrameClock, ticks: nat)
    requires
        before.tick_nanos() > 0,
        before.accumulated() <= MAX_ACC_VALUE,
        after.tick_nanos() == before.tick_nanos(),
        before.accumulated() == after.accumulated() + ticks * before.tick_nanos(),
    ensures
        ticks <= MAX_ACC_VALUE / before.tick_nanos(),
{
    let t = before.tick_nanos() as int;
    let m = MAX_ACC_VALUE as int;
    assert(ticks * t <= m);
    assert(ticks <= m / t) by (nonlinear_arith)
        requires
            ticks * t <= m,
            t > 0,
            ticks >= 0,
    {
        vstd::arithmetic::div_mod::lemma_fundamental_div_mod(m, t);
        assert(m == t * (m / t) + m % t);
        assert(m % t < t);
    }
}

} // verus!
