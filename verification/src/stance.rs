//! The stance that the player asks for.

use vstd::prelude::*;

use crate::order;
use crate::{STANCE_CROUCH, STANCE_PRONE, STANCE_STAND};

verus! {

/// The stance that is asked for: a level, not a change.
#[derive(Debug, Clone, Copy, PartialEq, Eq, Structural)]
pub struct StanceControl {
    pub wanted: u8,
}

impl Default for StanceControl {
    fn default() -> (out: Self)
        ensures
            out.wanted == STANCE_STAND,
    {
        StanceControl { wanted: 0 }
    }
}

/// How many levels down a frame's taps add up to; a tap is down or up.
pub open spec fn levels_down(taps: Seq<bool>) -> int
    decreases taps.len(),
{
    if taps.len() == 0 {
        0
    } else {
        levels_down(taps.drop_last()) + (if taps.last() {
            1int
        } else {
            -1int
        })
    }
}

/// The level that is asked for after some steps down: never above standing,
/// never below prone. No step, no change.
pub open spec fn level_after(wanted: int, steps: int) -> int {
    if steps == 0 {
        wanted
    } else if wanted + steps < STANCE_STAND {
        STANCE_STAND as int
    } else if wanted + steps > STANCE_PRONE {
        STANCE_PRONE as int
    } else {
        wanted + steps
    }
}

impl StanceControl {
    /// A frame's taps on the buttons (`true` is the one for getting lower), and
    /// the two keys.
    pub fn read_stance_input(&mut self, taps: &Vec<bool>, key_down: bool, key_up: bool)
        requires
            taps@.len() < i32::MAX,
        ensures
            final(self).wanted == level_after(
                old(self).wanted as int,
                levels_down(taps@) + (if key_down {
                    1int
                } else {
                    0
                }) - (if key_up {
                    1int
                } else {
                    0
                }),
            ),
            old(self).wanted <= STANCE_PRONE ==> final(self).wanted <= STANCE_PRONE,
    {
        let mut step: i64 = 0;
        let mut i: usize = 0;
        assert(taps@.take(0) =~= Seq::empty());
        while i < taps.len()
            invariant
                i <= taps.len() < i32::MAX,
                -(i as int) <= step <= i,
                step == levels_down(taps@.take(i as int)),
            decreases taps.len() - i,
        {
            assert(taps@.take(i + 1).drop_last() =~= taps@.take(i as int));
            if taps[i] {
                step = step + 1;
            } else {
                step = step - 1;
            }
            i = i + 1;
        }
        assert(taps@.take(i as int) =~= taps@);
        if key_down {
            step = step + 1;
        }
        if key_up {
            step = step - 1;
        }
        if step != 0 {
            let next: i64 = self.wanted as i64 + step;
            self.wanted = if next < STANCE_STAND as i64 {
                STANCE_STAND
            } else if next > STANCE_PRONE as i64 {
                STANCE_PRONE
            } else {
                next as u8
            };
        }
    }

    /// Whether a button has nowhere left to go.
    pub fn spent(&self, down: bool) -> (yes: bool)
        ensures
            yes == (if down {
                self.wanted >= STANCE_PRONE
            } else {
                self.wanted == STANCE_STAND
            }),
    {
        if down {
            self.wanted >= STANCE_PRONE
        } else {
            self.wanted == STANCE_STAND
        }
    }
}

/// What a stance is called.
pub open spec fn stance_name_text(level: u8) -> Seq<char> {
    if level == STANCE_CROUCH {
        "CROUCHED"@
    } else if level == STANCE_PRONE {
        "PRONE"@
    } else {
        "STANDING"@
    }
}

pub fn stance_name(level: u8) -> (out: &'static str)
    ensures
        out@ == stance_name_text(level),
{
    if level == STANCE_CROUCH {
        "CROUCHED"
    } else if level == STANCE_PRONE {
        "PRONE"
    } else {
        "STANDING"
    }
}

/// What the stance column shows.
pub struct StanceView {
    pub up_spent: bool,
    pub down_spent: bool,
    pub name: &'static str,
}

/// What the stance column shows, if it has to be drawn anew: the buttons follow
/// what is asked for, the name what the pawn is really doing. `last` is what it
/// was drawn for.
pub fn update_stance_buttons(
    control: StanceControl,
    pawn: Option<u8>,
    last: &mut Option<(u8, u8)>,
) -> (out: Option<StanceView>)
    ensures
        ({
            let actual = match pawn {
                Some(level) => level,
                None => control.wanted,
            };
            &&& *final(last) == Some((control.wanted, actual))
            &&& match out {
                Some(view) => {
                    &&& *old(last) != Some((control.wanted, actual))
                    &&& view.up_spent == (control.wanted == STANCE_STAND)
                    &&& view.down_spent == (control.wanted >= STANCE_PRONE)
                    &&& view.name@ == stance_name_text(actual)
                },
                None => *old(last) == Some((control.wanted, actual)),
            }
        }),
{
    let actual: u8 = match pawn {
        Some(level) => level,
        None => control.wanted,
    };
    if let Some(drawn) = *last {
        if drawn.0 == control.wanted && drawn.1 == actual {
            return None;
        }
    }
    *last = Some((control.wanted, actual));
    Some(
        StanceView {
            up_spent: control.spent(false),
            down_spent: control.spent(true),
            name: stance_name(actual),
        },
    )
}

/// A frame's taps add up: so many down less so many up, in whatever order.
pub proof fn taps_add_up(taps: Seq<bool>)
    ensures
        levels_down(taps) == taps.filter(|down: bool| down).len() - taps.filter(
            |down: bool| !down,
        ).len(),
    decreases taps.len(),
{
    order::lemma_filter_last(taps, |down: bool| down);
    order::lemma_filter_last(taps, |down: bool| !down);
    if taps.len() > 0 {
        taps_add_up(taps.drop_last());
    }
}

/// A step down asks for the next lower stance and a step up for the next higher, prone
/// being the lowest and standing the highest; taps that cancel ask for no change.
pub proof fn a_step_goes_one_stance(wanted: int, steps: int)
    ensures
        level_after(wanted, 0) == wanted,
        steps != 0 && 0 <= wanted + steps <= 2 ==> level_after(wanted, steps) == wanted + steps,
        steps != 0 && wanted + steps < 0 ==> level_after(wanted, steps) == 0,
        steps != 0 && wanted + steps > 2 ==> level_after(wanted, steps) == 2,
{
}

/// Each stance goes by its own name, and what is no stance by that of standing.
pub proof fn every_stance_has_its_own_name(level: u8)
    ensures
        level == 0 ==> stance_name_text(level) == "STANDING"@,
        level == 1 ==> stance_name_text(level) == "CROUCHED"@,
        level == 2 ==> stance_name_text(level) == "PRONE"@,
        level > 2 ==> stance_name_text(level) == stance_name_text(0),
{
}

} // verus!
