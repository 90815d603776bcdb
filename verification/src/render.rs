//! Which drawing of a thing is shown.

use vstd::prelude::*;

use crate::{STANCE_COUNT, STANCE_STAND, TEAM_COUNT};

verus! {

/// The soldiers' sheet: a row for each bearing, and in it a block of columns for
/// each stance.
pub const STANCE_COLS: usize = 13;

pub const SOLDIER_COLS: usize = 39;

pub const SOLDIER_DIRS: usize = 16;

/// In a block: the column for standing still, and where the walk and the run
/// begin, each this many columns long.
pub const IDLE_FRAME: usize = 0;

pub const WALK_START: usize = 1;

pub const RUN_START: usize = 7;

pub const CYCLE_FRAMES: usize = 6;

/// How many drawings of rocks and of bushes there are.
pub const ROCK_VARIANTS: u32 = 4;

pub const BUSH_VARIANTS: u32 = 6;

/// A stance's place in a table; anything past the lowest is the lowest.
pub fn stance_index(level: u8) -> (out: usize)
    ensures
        out == (if level < STANCE_COUNT {
            level as int
        } else {
            STANCE_COUNT - 1
        }),
        out < STANCE_COUNT,
{
    if (level as usize) < STANCE_COUNT {
        level as usize
    } else {
        STANCE_COUNT - 1
    }
}

/// A soldier's place on the sheet.
pub fn sheet_index(row: usize, level: u8, column: usize) -> (out: usize)
    requires
        row < SOLDIER_DIRS,
        column < STANCE_COLS,
    ensures
        out == row * SOLDIER_COLS + (if level < STANCE_COUNT {
            level as int
        } else {
            STANCE_COUNT - 1
        }) * STANCE_COLS + column,
        out < SOLDIER_DIRS * SOLDIER_COLS,
{
    row * SOLDIER_COLS + stance_index(level) * STANCE_COLS + column
}

/// How a soldier gets about.
#[derive(Debug, Clone, Copy, PartialEq, Eq, Structural)]
pub struct Gait {
    pub running: bool,
}

impl Default for Gait {
    fn default() -> (out: Self)
        ensures
            !out.running,
    {
        Gait { running: false }
    }
}

/// Whether a moving soldier runs: only one who stands, above the upper mark, or
/// above the lower one if already running.
pub open spec fn runs(running: bool, level: u8, above_upper: bool, above_lower: bool) -> bool {
    level == STANCE_STAND && (if running {
        above_lower
    } else {
        above_upper
    })
}

/// What one frame asks of a soldier: whether they move, in which stance, how their
/// pace stands to the two marks, and how far into its cycle the step is.
#[derive(Debug, Clone, Copy, PartialEq, Eq, Structural)]
pub struct Stride {
    pub moving: bool,
    pub level: u8,
    pub above_upper: bool,
    pub above_lower: bool,
    pub beat: usize,
}

/// Whether a soldier runs after a frame.
pub open spec fn running_after(running: bool, stride: Stride) -> bool {
    stride.moving && runs(running, stride.level, stride.above_upper, stride.above_lower)
}

/// Whether a soldier runs after a row of frames.
pub open spec fn running_after_all(running: bool, strides: Seq<Stride>) -> bool
    decreases strides.len(),
{
    if strides.len() == 0 {
        running
    } else {
        running_after(running_after_all(running, strides.drop_last()), strides.last())
    }
}

/// The column to show in a frame, by whether the soldier runs in it.
pub open spec fn column_of(running: bool, stride: Stride) -> int {
    if !stride.moving {
        IDLE_FRAME as int
    } else {
        (if running {
            RUN_START as int
        } else {
            WALK_START as int
        }) + (if stride.beat < CYCLE_FRAMES {
            stride.beat as int
        } else {
            CYCLE_FRAMES - 1
        })
    }
}

/// The column that the `k`-th of a row of frames shows.
pub open spec fn column_at(running: bool, strides: Seq<Stride>, k: int) -> int {
    column_of(running_after_all(running, strides.take(k + 1)), strides[k])
}

impl Gait {
    /// The column to show: `beat` is how far into its cycle the step is.
    pub fn advance(
        &mut self,
        moving: bool,
        level: u8,
        above_upper: bool,
        above_lower: bool,
        beat: usize,
    ) -> (column: usize)
        ensures
            ({
                let stride = Stride { moving, level, above_upper, above_lower, beat };
                &&& final(self).running == running_after(old(self).running, stride)
                &&& column == column_of(final(self).running, stride)
            }),
            column < STANCE_COLS,
    {
        if !moving {
            self.running = false;
            return IDLE_FRAME;
        }
        let over: bool = if self.running {
            above_lower
        } else {
            above_upper
        };
        self.running = level == STANCE_STAND && over;
        let start: usize = if self.running {
            RUN_START
        } else {
            WALK_START
        };
        start + if beat < CYCLE_FRAMES {
            beat
        } else {
            CYCLE_FRAMES - 1
        }
    }
}

/// Whatever a soldier does, every frame shows a column of its stance, and one of
/// the running ones only while they stand.
pub proof fn every_frame_is_on_the_sheet(running: bool, strides: Seq<Stride>, k: int)
    requires
        0 <= k < strides.len(),
    ensures
        0 <= column_at(running, strides, k) < STANCE_COLS,
        column_at(running, strides, k) >= RUN_START ==> strides[k].level == STANCE_STAND,
{
    assert(strides.take(k + 1).last() == strides[k]);
}

/// Whether a frame moves a standing soldier at a pace between the two marks.
pub open spec fn inside_the_band(stride: Stride) -> bool {
    stride.moving && stride.level == STANCE_STAND && !stride.above_upper && stride.above_lower
}

/// A pace between the two marks keeps whichever gait it came with, however long it
/// is held: a walk shows walking columns and a run running ones.
pub proof fn a_pace_inside_the_band_holds(running: bool, strides: Seq<Stride>)
    requires
        forall|k: int| 0 <= k < strides.len() ==> inside_the_band(#[trigger] strides[k]),
    ensures
        running_after_all(running, strides) == running,
        forall|k: int|
            0 <= k < strides.len() ==> (if running {
                RUN_START <= #[trigger] column_at(running, strides, k) < RUN_START + CYCLE_FRAMES
            } else {
                WALK_START <= column_at(running, strides, k) < WALK_START + CYCLE_FRAMES
            }),
    decreases strides.len(),
{
    if strides.len() > 0 {
        let rest = strides.drop_last();
        assert forall|k: int| 0 <= k < rest.len() implies inside_the_band(#[trigger] rest[k]) by {
            assert(rest[k] == strides[k]);
        }
        a_pace_inside_the_band_holds(running, rest);
        assert(inside_the_band(strides[strides.len() - 1]));
        assert forall|k: int| 0 <= k < strides.len() implies (if running {
            RUN_START <= #[trigger] column_at(running, strides, k) < RUN_START + CYCLE_FRAMES
        } else {
            WALK_START <= column_at(running, strides, k) < WALK_START + CYCLE_FRAMES
        }) by {
            assert(inside_the_band(strides[k]));
            if k < rest.len() {
                assert(rest.take(k + 1) =~= strides.take(k + 1));
                assert(column_at(running, rest, k) == column_at(running, strides, k));
            } else {
                assert(strides.take(k + 1) =~= strides);
            }
        }
    }
}

/// Nobody breaks into a run without passing the upper mark.
pub proof fn a_walk_lasts_below_the_upper_mark(strides: Seq<Stride>)
    requires
        forall|k: int| 0 <= k < strides.len() ==> !(#[trigger] strides[k]).above_upper,
    ensures
        !running_after_all(false, strides),
    decreases strides.len(),
{
    if strides.len() > 0 {
        let rest = strides.drop_last();
        assert forall|k: int| 0 <= k < rest.len() implies !(#[trigger] rest[k]).above_upper by {
            assert(rest[k] == strides[k]);
        }
        a_walk_lasts_below_the_upper_mark(rest);
        assert(!strides[strides.len() - 1].above_upper);
    }
}

/// A standing soldier past both marks runs.
pub proof fn past_both_marks_is_a_run(running: bool, stride: Stride)
    requires
        stride.moving,
        stride.level == STANCE_STAND,
        stride.above_upper,
        stride.above_lower,
    ensures
        running_after(running, stride),
{
}

/// Nobody runs but standing.
pub proof fn only_the_standing_run(
    running: bool,
    level: u8,
    above_upper: bool,
    above_lower: bool,
)
    requires
        level != STANCE_STAND,
    ensures
        !runs(running, level, above_upper, above_lower),
{
}

/// A pawn's stance.
#[derive(Debug, Clone, Copy, PartialEq, Eq, Structural)]
pub struct Posture {
    pub handle: usize,
    pub level: u8,
}

/// The stance of the first pawn with this handle, and standing where there is
/// none.
pub open spec fn level_of(pawns: Seq<Posture>, handle: usize) -> u8
    decreases pawns.len(),
{
    if pawns.len() == 0 {
        STANCE_STAND
    } else if pawns[0].handle == handle {
        pawns[0].level
    } else {
        level_of(pawns.drop_first(), handle)
    }
}

/// The stance that a bullet's shooter is in.
pub fn shooter_level(owner: usize, pawns: &Vec<Posture>) -> (out: u8)
    ensures
        out == level_of(pawns@, owner),
{
    let mut i: usize = 0;
    assert(pawns@.skip(0) =~= pawns@);
    while i < pawns.len()
        invariant
            i <= pawns.len(),
            level_of(pawns@, owner) == level_of(pawns@.skip(i as int), owner),
        decreases pawns.len() - i,
    {
        if pawns[i].handle == owner {
            return pawns[i].level;
        }
        assert(pawns@.skip(i as int).drop_first() =~= pawns@.skip(i + 1));
        i = i + 1;
    }
    STANCE_STAND
}

/// A pawn's place in its side's line: each is a shade darker than the last.
pub fn line_place(handle: usize) -> (out: usize)
    ensures
        out == handle as int / (TEAM_COUNT as int),
{
    handle / TEAM_COUNT
}

/// How a rock looks: its drawing, its turn in degrees, and its shade in steps.
#[derive(Debug, Clone, Copy, PartialEq, Eq, Structural)]
pub struct RockLook {
    pub variant: usize,
    pub degrees: u32,
    pub shade: u32,
}

pub fn rock_look(seed: u32) -> (out: RockLook)
    ensures
        out.variant == seed as int % (ROCK_VARIANTS as int),
        out.degrees == seed as int / (ROCK_VARIANTS as int) % 360,
        out.shade == seed as int / 1024 % 64,
{
    RockLook {
        variant: (seed % ROCK_VARIANTS) as usize,
        degrees: seed / ROCK_VARIANTS % 360,
        shade: seed / 1024 % 64,
    }
}

/// How a bush looks: its drawing, whether it is mirrored, and its shade in steps.
#[derive(Debug, Clone, Copy, PartialEq, Eq, Structural)]
pub struct BushLook {
    pub variant: usize,
    pub mirrored: bool,
    pub shade: u32,
}

pub fn bush_look(seed: u32) -> (out: BushLook)
    ensures
        out.variant == seed as int % (BUSH_VARIANTS as int),
        out.mirrored == (seed as int / (BUSH_VARIANTS as int) % 2 == 1),
        out.shade == seed as int / 1024 % 32,
{
    BushLook {
        variant: (seed % BUSH_VARIANTS) as usize,
        mirrored: seed / BUSH_VARIANTS % 2 == 1,
        shade: seed / 1024 % 32,
    }
}

/// How far a bush is out of step with the wind, in 1024ths.
pub fn bush_grain(seed: u32) -> (out: u32)
    ensures
        out == seed as int / 4096 % 1024,
{
    seed / 4096 % 1024
}

/// Counts the first frames, and says on the tenth that the game is ready.
pub fn signal_game_ready(frames: &mut u32) -> (ready: bool)
    ensures
        *final(frames) == (if *old(frames) > 10 {
            *old(frames) as int
        } else {
            *old(frames) + 1
        }),
        ready == (*old(frames) == 9),
{
    if *frames > 10 {
        return false;
    }
    *frames = *frames + 1;
    *frames == 10
}

/// Whoever does not move shows the first column; a walk shows the next six and a run the
/// six behind those, each in the order of its beats, and a beat past the last shows the
/// last.
pub proof fn each_gait_has_its_columns(stride: Stride)
    ensures
        !stride.moving ==> column_of(true, stride) == 0 && column_of(false, stride) == 0,
        stride.moving && stride.beat < 6 ==> column_of(false, stride) == 1 + stride.beat
            && column_of(true, stride) == 7 + stride.beat,
        stride.moving && stride.beat >= 6 ==> column_of(false, stride) == 6 && column_of(
            true,
            stride,
        ) == 12,
{
}

/// A walk turns into a run above the upper mark and a run into a walk at the lower one,
/// for whoever moves upright; standing still or getting down ends it.
pub proof fn a_gait_changes_at_its_own_mark(stride: Stride)
    ensures
        running_after(false, stride) <==> (stride.moving && stride.level == 0
            && stride.above_upper),
        running_after(true, stride) <==> (stride.moving && stride.level == 0
            && stride.above_lower),
{
}

/// A shooter's stance is that of the first pawn with their handle, and standing where
/// there is none.
pub proof fn the_first_pawn_gives_the_stance(pawns: Seq<Posture>, handle: usize, k: int)
    requires
        0 <= k <= pawns.len(),
        forall|i: int| 0 <= i < k ==> (#[trigger] pawns[i]).handle != handle,
        k < pawns.len() ==> pawns[k].handle == handle,
    ensures
        level_of(pawns, handle) == (if k < pawns.len() {
            pawns[k].level
        } else {
            0
        }),
    decreases pawns.len(),
{
    if pawns.len() > 0 && k > 0 {
        let rest = pawns.drop_first();
        assert(pawns[0].handle != handle);
        assert forall|i: int| 0 <= i < k - 1 implies (#[trigger] rest[i]).handle != handle by {
            assert(rest[i] == pawns[i + 1]);
        }
        the_first_pawn_gives_the_stance(rest, handle, k - 1);
    }
}

} // verus!
