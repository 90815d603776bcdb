//! Which shots are heard for the first time, and the dice that a ping is drawn with.

use bevy::platform::collections::HashMap;
use vstd::prelude::*;

use crate::table;

verus! {

/// Ticks between two shots.
pub const FIRE_COOLDOWN: i32 = 12;

/// A pawn's weapon: how many ticks until it can fire again.
#[derive(Debug, Clone, Copy, PartialEq, Eq, Structural)]
pub struct Gun {
    pub handle: usize,
    pub cooldown: i32,
}

/// The frame that a weapon's last shot was fired on: the weapon counts down from
/// it, so however late or often it is looked at it gives the same frame.
pub open spec fn fired_on(frame: int, cooldown: int) -> int {
    frame - (FIRE_COOLDOWN - cooldown)
}

/// A shot that is looked at later is the same shot.
pub proof fn a_shot_keeps_its_frame(frame: int, cooldown: int, later: int)
    ensures
        fired_on(frame + later, cooldown - later) == fired_on(frame, cooldown),
{
}

/// Whether a weapon has a shot to be heard: somebody else's, still cooling.
pub open spec fn audible(gun: Gun, me: usize) -> bool {
    gun.handle != me && gun.cooldown != 0
}

/// What is known of shots once these weapons have been looked at.
pub open spec fn known_after(
    known: Map<usize, i32>,
    guns: Seq<Gun>,
    me: usize,
    frame: i32,
) -> Map<usize, i32>
    decreases guns.len(),
{
    if guns.len() == 0 {
        known
    } else {
        let before = known_after(known, guns.drop_last(), me, frame);
        let gun = guns.last();
        if audible(gun, me) {
            before.insert(gun.handle, fired_on(frame as int, gun.cooldown as int) as i32)
        } else {
            before
        }
    }
}

/// Which of the weapons, by place, fired a shot that was not known.
pub open spec fn fresh_shots(
    known: Map<usize, i32>,
    guns: Seq<Gun>,
    me: usize,
    frame: i32,
) -> Seq<usize>
    decreases guns.len(),
{
    if guns.len() == 0 {
        Seq::empty()
    } else {
        let rest = guns.drop_last();
        let before = known_after(known, rest, me, frame);
        let gun = guns.last();
        let shot = fired_on(frame as int, gun.cooldown as int) as i32;
        if audible(gun, me) && !(before.dom().contains(gun.handle) && before[gun.handle] == shot) {
            fresh_shots(known, rest, me, frame).push((guns.len() - 1) as usize)
        } else {
            fresh_shots(known, rest, me, frame)
        }
    }
}

/// What has been heard, and the state of the dice.
pub struct Heard {
    pub shots: HashMap<usize, i32>,
    pub rng: u32,
}

/// The next state of the dice.
pub open spec fn dice_step(rng: u32) -> u32 {
    ((rng * 1_664_525 + 1_013_904_223) % 0x1_0000_0000) as u32
}

/// What a ping is drawn with, each in 2^24ths: where its error starts, how fast
/// it walks and which way round, where it is new or was quiet; and its grain.
#[derive(Debug, Clone, Copy, PartialEq, Eq)]
pub struct PingDice {
    pub walk: Option<(u32, u32, u32)>,
    pub grain: u32,
}

impl Default for Heard {
    fn default() -> (out: Self)
        ensures
            table::shots_in(out.shots) == Map::<usize, i32>::empty(),
            out.rng == 0x5EED_1234,
    {
        Heard { shots: table::no_shots(), rng: 0x5EED_1234 }
    }
}

impl Heard {
    /// Throws the dice: 24 bits.
    pub fn unit(&mut self) -> (out: u32)
        ensures
            final(self).rng == dice_step(old(self).rng),
            final(self).shots == old(self).shots,
            out == final(self).rng as int / 256,
            out < 0x100_0000,
    {
        let wide: u64 = (self.rng as u64 * 1_664_525 + 1_013_904_223) % 0x1_0000_0000;
        self.rng = wide as u32;
        self.rng / 256
    }

    /// Throws what a ping needs: three for its walk, where that is to start anew,
    /// and one for its grain.
    pub fn throw(&mut self, fresh: bool) -> (out: PingDice)
        ensures
            final(self).shots == old(self).shots,
            ({
                let a = dice_step(old(self).rng);
                let b = dice_step(a);
                let c = dice_step(b);
                let last = if fresh {
                    dice_step(c)
                } else {
                    a
                };
                &&& final(self).rng == last
                &&& out.grain == last as int / 256
                &&& out.walk == (if fresh {
                    Some((a / 256, b / 256, c / 256))
                } else {
                    None
                })
            }),
    {
        let walk: Option<(u32, u32, u32)> = if fresh {
            let start: u32 = self.unit();
            let period: u32 = self.unit();
            let side: u32 = self.unit();
            Some((start, period, side))
        } else {
            None
        };
        let grain: u32 = self.unit();
        PingDice { walk, grain }
    }

    /// Looks at every weapon, and gives the places of those that have fired since.
    pub fn hear_gunfire(&mut self, me: usize, frame: i32, guns: &Vec<Gun>) -> (out: Vec<usize>)
        requires
            i32::MIN + FIRE_COOLDOWN <= frame,
            forall|i: int|
                0 <= i < guns@.len() ==> 0 <= (#[trigger] guns@[i]).cooldown && fired_on(
                    frame as int,
                    guns@[i].cooldown as int,
                ) <= i32::MAX,
        ensures
            final(self).rng == old(self).rng,
            table::shots_in(final(self).shots) == known_after(
                table::shots_in(old(self).shots),
                guns@,
                me,
                frame,
            ),
            out@ == fresh_shots(table::shots_in(old(self).shots), guns@, me, frame),
    {
        let mut out: Vec<usize> = Vec::new();
        let ghost known = table::shots_in(self.shots);
        let mut i: usize = 0;
        assert(guns@.take(0) =~= Seq::empty());
        while i < guns.len()
            invariant
                i <= guns.len(),
                i32::MIN + FIRE_COOLDOWN <= frame,
                forall|k: int|
                    0 <= k < guns@.len() ==> 0 <= (#[trigger] guns@[k]).cooldown && fired_on(
                        frame as int,
                        guns@[k].cooldown as int,
                    ) <= i32::MAX,
                self.rng == old(self).rng,
                table::shots_in(self.shots) == known_after(
                    known,
                    guns@.take(i as int),
                    me,
                    frame,
                ),
                out@ == fresh_shots(known, guns@.take(i as int), me, frame),
            decreases guns.len() - i,
        {
            let gun = guns[i];
            assert(guns@.take(i + 1).drop_last() =~= guns@.take(i as int));
            assert(fired_on(frame as int, guns@[i as int].cooldown as int) <= i32::MAX);
            if gun.handle != me && gun.cooldown != 0 {
                let shot: i32 = (frame as i64 - (FIRE_COOLDOWN as i64 - gun.cooldown as i64)) as i32;
                let was = table::note_shot(&mut self.shots, gun.handle, shot);
                let same: bool = match was {
                    Some(earlier) => earlier == shot,
                    None => false,
                };
                if !same {
                    out.push(i);
                }
            }
            i = i + 1;
        }
        assert(guns@.take(i as int) =~= guns@);
        out
    }
}

proof fn lemma_known(
    known: Map<usize, i32>,
    guns: Seq<Gun>,
    me: usize,
    frame: i32,
    h: usize,
)
    ensures
        (forall|i: int| 0 <= i < guns.len() ==> !((#[trigger] guns[i]).handle == h && audible(
            guns[i],
            me,
        ))) ==> known_after(known, guns, me, frame).dom().contains(h) == known.dom().contains(h)
            && (known.dom().contains(h) ==> known_after(known, guns, me, frame)[h] == known[h]),
    decreases guns.len(),
{
    if guns.len() > 0 {
        let rest = guns.drop_last();
        lemma_known(known, rest, me, frame, h);
        if forall|i: int| 0 <= i < guns.len() ==> !((#[trigger] guns[i]).handle == h && audible(
            guns[i],
            me,
        )) {
            assert forall|i: int| 0 <= i < rest.len() implies !((#[trigger] rest[i]).handle == h
                && audible(rest[i], me)) by {
                assert(guns[i] == rest[i]);
            }
            assert(guns[guns.len() - 1] == guns.last());
        }
    }
}

proof fn lemma_filed(known: Map<usize, i32>, guns: Seq<Gun>, me: usize, frame: i32, k: int)
    requires
        0 <= k < guns.len(),
        audible(guns[k], me),
        forall|i: int, j: int|
            0 <= i < j < guns.len() ==> (#[trigger] guns[i]).handle != (#[trigger] guns[j]).handle,
    ensures
        known_after(known, guns, me, frame).dom().contains(guns[k].handle),
        known_after(known, guns, me, frame)[guns[k].handle] == fired_on(
            frame as int,
            guns[k].cooldown as int,
        ) as i32,
    decreases guns.len(),
{
    let rest = guns.drop_last();
    if k < rest.len() {
        assert(rest[k] == guns[k]);
        assert forall|i: int, j: int| 0 <= i < j < rest.len() implies (#[trigger] rest[i]).handle
            != (#[trigger] rest[j]).handle by {
            assert(guns[i] == rest[i] && guns[j] == rest[j]);
        }
        lemma_filed(known, rest, me, frame, k);
        assert(guns[k].handle != guns[guns.len() - 1].handle);
    }
}

proof fn lemma_nothing_fresh(
    known: Map<usize, i32>,
    guns: Seq<Gun>,
    me: usize,
    frame: i32,
    n: int,
)
    requires
        0 <= n <= guns.len(),
        forall|i: int, j: int|
            0 <= i < j < guns.len() ==> (#[trigger] guns[i]).handle != (#[trigger] guns[j]).handle,
    ensures
        fresh_shots(known_after(known, guns, me, frame), guns.take(n), me, frame).len() == 0,
    decreases n,
{
    if n > 0 {
        let all = known_after(known, guns, me, frame);
        let part = guns.take(n);
        lemma_nothing_fresh(known, guns, me, frame, n - 1);
        assert(part.drop_last() =~= guns.take(n - 1));
        let gun = part.last();
        assert(gun == guns[n - 1]);
        if audible(gun, me) {
            lemma_filed(known, guns, me, frame, n - 1);
            let earlier = guns.take(n - 1);
            assert forall|i: int| 0 <= i < earlier.len() implies !((#[trigger] earlier[i]).handle
                == gun.handle && audible(earlier[i], me)) by {
                assert(guns[i] == earlier[i]);
                assert(guns[i].handle != guns[n - 1].handle);
            }
            lemma_known(all, earlier, me, frame, gun.handle);
        }
    }
}

/// A shot is heard once: looking at the same weapons on the same frame again, as a
/// frame that is played over does, gives nothing new.
pub proof fn a_shot_is_heard_once(known: Map<usize, i32>, guns: Seq<Gun>, me: usize, frame: i32)
    requires
        forall|i: int, j: int|
            0 <= i < j < guns.len() ==> (#[trigger] guns[i]).handle != (#[trigger] guns[j]).handle,
    ensures
        fresh_shots(known_after(known, guns, me, frame), guns, me, frame) == Seq::<usize>::empty(),
{
    lemma_nothing_fresh(known, guns, me, frame, guns.len() as int);
    assert(guns.take(guns.len() as int) =~= guns);
}

/// A weapon that has just fired has all of its twelve ticks to cool, and one that is
/// ready fired that long ago at the latest.
pub proof fn a_shot_is_dated_by_its_cooling(frame: int, cooldown: int)
    ensures
        fired_on(frame, 12) == frame,
        fired_on(frame, 0) == frame - 12,
        fired_on(frame, cooldown + 1) == fired_on(frame, cooldown) + 1,
{
}

/// Whether no two of these weapons are one pawn's.
pub open spec fn one_gun_each(guns: Seq<Gun>) -> bool {
    forall|i: int, j: int|
        0 <= i < j < guns.len() ==> (#[trigger] guns[i]).handle != (#[trigger] guns[j]).handle
}

/// Looking at the weapons files, for everybody else whose weapon is cooling, the frame
/// that it fired on, and leaves what is known of all others as it was.
pub proof fn what_was_fired_is_filed(
    known: Map<usize, i32>,
    guns: Seq<Gun>,
    me: usize,
    frame: i32,
    k: int,
)
    requires
        one_gun_each(guns),
        0 <= k < guns.len(),
    ensures
        ({
            let gun = guns[k];
            let after = known_after(known, guns, me, frame);
            let shot = frame - 12 + gun.cooldown;
            &&& gun.handle != me && gun.cooldown != 0 && i32::MIN <= shot <= i32::MAX ==> {
                &&& after.dom().contains(gun.handle)
                &&& after[gun.handle] == shot
            }
            &&& gun.handle == me || gun.cooldown == 0 ==> after.dom().contains(gun.handle)
                == known.dom().contains(gun.handle) && (known.dom().contains(gun.handle)
                ==> after[gun.handle] == known[gun.handle])
        }),
{
    let gun = guns[k];
    if audible(gun, me) {
        lemma_filed(known, guns, me, frame, k);
    } else {
        assert forall|i: int| 0 <= i < guns.len() implies !((#[trigger] guns[i]).handle
            == gun.handle && audible(guns[i], me)) by {
            if i != k {
                assert(guns[if i < k {
                    i
                } else {
                    k
                }].handle != guns[if i < k {
                    k
                } else {
                    i
                }].handle);
            }
        }
        lemma_known(known, guns, me, frame, gun.handle);
    }
}

/// A weapon is heard exactly when it is somebody else's, is cooling, and its shot is not
/// the one that is known; each is heard once, in order.
pub proof fn every_new_shot_is_heard(
    known: Map<usize, i32>,
    guns: Seq<Gun>,
    me: usize,
    frame: i32,
    k: int,
)
    requires
        one_gun_each(guns),
        0 <= k < guns.len() <= usize::MAX,
        i32::MIN <= frame - 12 + guns[k].cooldown <= i32::MAX,
    ensures
        fresh_shots(known, guns, me, frame).contains(k as usize) <==> (guns[k].handle != me
            && guns[k].cooldown != 0 && !(known.dom().contains(guns[k].handle)
            && known[guns[k].handle] == frame - 12 + guns[k].cooldown)),
        forall|i: int, j: int|
            0 <= i < j < fresh_shots(known, guns, me, frame).len() ==> #[trigger] fresh_shots(
                known,
                guns,
                me,
                frame,
            )[i] < #[trigger] fresh_shots(known, guns, me, frame)[j],
{
    lemma_fresh_in_order(known, guns, me, frame);
    lemma_fresh(known, guns, me, frame, k);
}

proof fn lemma_fresh_in_order(known: Map<usize, i32>, guns: Seq<Gun>, me: usize, frame: i32)
    requires
        guns.len() <= usize::MAX,
    ensures
        forall|i: int|
            0 <= i < fresh_shots(known, guns, me, frame).len() ==> #[trigger] fresh_shots(
                known,
                guns,
                me,
                frame,
            )[i] < guns.len(),
        forall|i: int, j: int|
            0 <= i < j < fresh_shots(known, guns, me, frame).len() ==> #[trigger] fresh_shots(
                known,
                guns,
                me,
                frame,
            )[i] < #[trigger] fresh_shots(known, guns, me, frame)[j],
    decreases guns.len(),
{
    if guns.len() > 0 {
        let rest = guns.drop_last();
        let before = fresh_shots(known, rest, me, frame);
        let out = fresh_shots(known, guns, me, frame);
        lemma_fresh_in_order(known, rest, me, frame);
        assert(out == before || out == before.push((guns.len() - 1) as usize));
        assert forall|i: int| 0 <= i < out.len() implies #[trigger] out[i] < guns.len() by {
            if i < before.len() {
                assert(before[i] < rest.len());
            }
        }
        assert forall|i: int, j: int| 0 <= i < j < out.len() implies #[trigger] out[i]
            < #[trigger] out[j] by {
            assert(before[i] < rest.len());
            if j < before.len() {
                assert(before[i] < before[j]);
            }
        }
    }
}

proof fn lemma_fresh(known: Map<usize, i32>, guns: Seq<Gun>, me: usize, frame: i32, k: int)
    requires
        one_gun_each(guns),
        0 <= k < guns.len() <= usize::MAX,
        i32::MIN <= frame - 12 + guns[k].cooldown <= i32::MAX,
    ensures
        fresh_shots(known, guns, me, frame).contains(k as usize) <==> (guns[k].handle != me
            && guns[k].cooldown != 0 && !(known.dom().contains(guns[k].handle)
            && known[guns[k].handle] == frame - 12 + guns[k].cooldown)),
    decreases guns.len(),
{
    let rest = guns.drop_last();
    let out = fresh_shots(known, guns, me, frame);
    let before = fresh_shots(known, rest, me, frame);
    lemma_fresh_in_order(known, rest, me, frame);
    assert forall|i: int, j: int| 0 <= i < j < rest.len() implies (#[trigger] rest[i]).handle != (
    #[trigger] rest[j]).handle by {
        assert(rest[i] == guns[i] && rest[j] == guns[j]);
    }
    if k < guns.len() - 1 {
        assert(rest[k] == guns[k]);
        lemma_fresh(known, rest, me, frame, k);
        if before.contains(k as usize) {
            let i = choose|i: int| 0 <= i < before.len() && before[i] == k as usize;
            assert(out[i] == k as usize);
        }
        if out.contains(k as usize) {
            let i = choose|i: int| 0 <= i < out.len() && out[i] == k as usize;
            assert(i < before.len());
            assert(before[i] == k as usize);
        }
    } else {
        let gun = guns[k];
        assert forall|i: int| 0 <= i < rest.len() implies !((#[trigger] rest[i]).handle
            == gun.handle && audible(rest[i], me)) by {
            assert(guns[i].handle != guns[k].handle);
        }
        lemma_known(known, rest, me, frame, gun.handle);
        assert(!before.contains(k as usize)) by {
            if before.contains(k as usize) {
                let i = choose|i: int| 0 <= i < before.len() && before[i] == k as usize;
                assert(before[i] < rest.len());
            }
        }
        if out.len() > before.len() {
            assert(out[before.len() as int] == k as usize);
        }
    }
}

/// The dice go round by one multiplication and one addition in thirty-two bits: from
/// nothing to the addend, and from a number to what its successor has less the factor.
pub proof fn the_dice_go_round(rng: u32)
    ensures
        dice_step(0) == 1_013_904_223,
        rng < u32::MAX ==> (dice_step((rng + 1) as u32) - dice_step(rng) - 1_664_525)
            % 0x1_0000_0000 == 0,
{
    let a = rng * 1_664_525 + 1_013_904_223;
    let b = a + 1_664_525;
    assert((rng + 1) * 1_664_525 + 1_013_904_223 == b);
    assert(a == 0x1_0000_0000 * (a / 0x1_0000_0000) + a % 0x1_0000_0000);
    assert(b == 0x1_0000_0000 * (b / 0x1_0000_0000) + b % 0x1_0000_0000);
}

} // verus!
