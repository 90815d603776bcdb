//! Whose names hang over the field.

use vstd::prelude::*;

use crate::launch::Scenario;
use crate::order;
use crate::order::Ranked;

verus! {

/// A pawn, as far as its name goes.
#[derive(Debug, Clone, Copy, PartialEq, Eq, Structural)]
pub struct PlatePawn {
    pub handle: usize,
    pub team: u8,
    pub alive: bool,
}

/// A pawn that is named: its handle, and its place among the pawns.
#[derive(Debug, Clone, Copy, PartialEq, Eq, Structural)]
pub struct Plate {
    pub handle: usize,
    pub place: usize,
}

impl Ranked for Plate {
    open spec fn le(self, other: Self) -> bool {
        self.handle <= other.handle
    }

    proof fn le_total(a: Self, b: Self) {
    }

    proof fn le_trans(a: Self, b: Self, c: Self) {
    }

    fn may_precede(&self, other: &Self) -> (yes: bool) {
        self.handle <= other.handle
    }
}

/// The side of the first pawn with this handle.
pub open spec fn side_of(pawns: Seq<PlatePawn>, handle: usize) -> Option<u8>
    decreases pawns.len(),
{
    if pawns.len() == 0 {
        None
    } else if pawns[0].handle == handle {
        Some(pawns[0].team)
    } else {
        side_of(pawns.drop_first(), handle)
    }
}

/// Whether a pawn is named: on this side, standing, and not ourselves.
pub open spec fn is_named(pawn: PlatePawn, me: usize, team: u8) -> bool {
    pawn.handle != me && pawn.team == team && pawn.alive
}

/// The pawns that are named, in the order they come.
pub open spec fn named_pawns(pawns: Seq<PlatePawn>, me: usize, team: u8) -> Seq<Plate>
    decreases pawns.len(),
{
    if pawns.len() == 0 {
        Seq::empty()
    } else {
        let rest = named_pawns(pawns.drop_last(), me, team);
        if is_named(pawns.last(), me, team) {
            rest.push(Plate { handle: pawns.last().handle, place: (pawns.len() - 1) as usize })
        } else {
            rest
        }
    }
}

/// Whose names are shown, in handle order: our side's, and only in the game.
pub open spec fn plates(
    scenario: Scenario,
    me: Option<usize>,
    pawns: Seq<PlatePawn>,
) -> Seq<Plate> {
    match me {
        Some(h) => match side_of(pawns, h) {
            Some(team) => if scenario == Scenario::Arena {
                order::arranged(named_pawns(pawns, h, team))
            } else {
                Seq::empty()
            },
            None => Seq::empty(),
        },
        None => Seq::empty(),
    }
}

fn find_side(pawns: &Vec<PlatePawn>, handle: usize) -> (out: Option<u8>)
    ensures
        out == side_of(pawns@, handle),
{
    let mut i: usize = 0;
    assert(pawns@.skip(0) =~= pawns@);
    while i < pawns.len()
        invariant
            i <= pawns.len(),
            side_of(pawns@, handle) == side_of(pawns@.skip(i as int), handle),
        decreases pawns.len() - i,
    {
        if pawns[i].handle == handle {
            return Some(pawns[i].team);
        }
        assert(pawns@.skip(i as int).drop_first() =~= pawns@.skip(i + 1));
        i = i + 1;
    }
    None
}

/// Whose names are shown.
pub fn teammates(scenario: Scenario, me: Option<usize>, pawns: &Vec<PlatePawn>) -> (out: Vec<Plate>)
    ensures
        out@ == plates(scenario, me, pawns@),
        order::in_order(out@),
{
    let h: usize = match me {
        Some(h) => h,
        None => return Vec::new(),
    };
    let team: u8 = match find_side(pawns, h) {
        Some(team) => team,
        None => return Vec::new(),
    };
    if scenario != Scenario::Arena {
        return Vec::new();
    }
    let mut out: Vec<Plate> = Vec::new();
    let mut i: usize = 0;
    assert(pawns@.take(0) =~= Seq::empty());
    while i < pawns.len()
        invariant
            i <= pawns.len(),
            out@ == named_pawns(pawns@.take(i as int), h, team),
        decreases pawns.len() - i,
    {
        assert(pawns@.take(i + 1).drop_last() =~= pawns@.take(i as int));
        let pawn = pawns[i];
        if pawn.handle != h && pawn.team == team && pawn.alive {
            out.push(Plate { handle: pawn.handle, place: i });
        }
        i = i + 1;
    }
    assert(pawns@.take(i as int) =~= pawns@);
    proof {
        order::arranging_puts_in_order(out@);
    }
    order::arrange(&out)
}

proof fn lemma_named(pawns: Seq<PlatePawn>, me: usize, team: u8, i: int)
    requires
        0 <= i < named_pawns(pawns, me, team).len(),
    ensures
        ({
            let plate = named_pawns(pawns, me, team)[i];
            &&& plate.place < pawns.len()
            &&& pawns.len() <= usize::MAX ==> plate.handle == pawns[plate.place as int].handle
            &&& pawns.len() <= usize::MAX ==> is_named(pawns[plate.place as int], me, team)
        }),
    decreases pawns.len(),
{
    if pawns.len() > 0 {
        let rest = named_pawns(pawns.drop_last(), me, team);
        if i < rest.len() {
            lemma_named(pawns.drop_last(), me, team, i);
            if pawns.len() <= usize::MAX {
                let place = rest[i].place as int;
                assert(pawns.drop_last()[place] == pawns[place]);
            }
        } else if pawns.len() <= usize::MAX {
            assert(pawns[pawns.len() - 1] == pawns.last());
        } else {
            assert(((pawns.len() - 1) as usize) < pawns.len());
        }
    }
}

/// An enemy is never named, nor the fallen, nor ourselves.
pub proof fn no_enemy_is_named(
    scenario: Scenario,
    me: usize,
    pawns: Seq<PlatePawn>,
    plate: Plate,
)
    requires
        pawns.len() <= usize::MAX,
        plates(scenario, Some(me), pawns).contains(plate),
    ensures
        side_of(pawns, me) is Some,
        plate.place < pawns.len(),
        plate.handle == pawns[plate.place as int].handle,
        is_named(pawns[plate.place as int], me, side_of(pawns, me)->0),
{
    let team = side_of(pawns, me)->0;
    let unordered = named_pawns(pawns, me, team);
    order::lemma_arranged_contains(unordered, plate);
    let i = choose|i: int| 0 <= i < unordered.len() && unordered[i] == plate;
    lemma_named(pawns, me, team, i);
}

/// Our side is that of the first pawn with our handle.
pub proof fn our_side_is_our_own_pawns(pawns: Seq<PlatePawn>, handle: usize, k: int)
    requires
        0 <= k <= pawns.len(),
        forall|i: int| 0 <= i < k ==> (#[trigger] pawns[i]).handle != handle,
        k < pawns.len() ==> pawns[k].handle == handle,
    ensures
        side_of(pawns, handle) == (if k < pawns.len() {
            Some(pawns[k].team)
        } else {
            None
        }),
    decreases pawns.len(),
{
    if pawns.len() > 0 && k > 0 {
        let rest = pawns.drop_first();
        assert(pawns[0].handle != handle);
        assert forall|i: int| 0 <= i < k - 1 implies (#[trigger] rest[i]).handle != handle by {
            assert(rest[i] == pawns[i + 1]);
        }
        our_side_is_our_own_pawns(rest, handle, k - 1);
    }
}

/// In the game everybody of our side who stands is named but ourselves, each at their own
/// place, and nobody else is; the names go by handle. Outside the game, or without a pawn
/// of our own, nobody is named.
pub proof fn every_standing_teammate_is_named(
    scenario: Scenario,
    me: Option<usize>,
    pawns: Seq<PlatePawn>,
    i: int,
)
    requires
        0 <= i < pawns.len() <= usize::MAX,
    ensures
        ({
            let shown = plates(scenario, me, pawns);
            let plate = Plate { handle: pawns[i].handle, place: i as usize };
            &&& scenario != Scenario::Arena ==> shown.len() == 0
            &&& me is None ==> shown.len() == 0
            &&& me matches Some(h) ==> {
                &&& side_of(pawns, h) is None ==> shown.len() == 0
                &&& scenario == Scenario::Arena && side_of(pawns, h) is Some ==> {
                    let team = side_of(pawns, h)->0;
                    &&& shown.contains(plate) <==> (pawns[i].handle != h && pawns[i].team == team
                        && pawns[i].alive)
                    &&& shown.len() == pawns.filter(
                        |p: PlatePawn| p.handle != h && p.team == team && p.alive,
                    ).len()
                }
            }
            &&& forall|a: int, b: int|
                0 <= a <= b < shown.len() ==> (#[trigger] shown[a]).handle <= (
                #[trigger] shown[b]).handle
        }),
{
    let shown = plates(scenario, me, pawns);
    if me is Some && side_of(pawns, me->0) is Some && scenario == Scenario::Arena {
        let h = me->0;
        let team = side_of(pawns, h)->0;
        let row = named_pawns(pawns, h, team);
        let plate = Plate { handle: pawns[i].handle, place: i as usize };
        order::arranging_puts_in_order(row);
        order::lemma_arranged_contains(row, plate);
        lemma_every_named(pawns, h, team, i);
        if row.contains(plate) {
            let k = choose|k: int| 0 <= k < row.len() && row[k] == plate;
            lemma_named(pawns, h, team, k);
        }
        assert forall|a: int, b: int| 0 <= a <= b < shown.len() implies (
        #[trigger] shown[a]).handle <= (#[trigger] shown[b]).handle by {
            if a < b {
                assert(shown[a].le(shown[b]));
            }
        }
    }
}

proof fn lemma_every_named(pawns: Seq<PlatePawn>, me: usize, team: u8, i: int)
    requires
        pawns.len() <= usize::MAX,
    ensures
        0 <= i < pawns.len() && pawns[i].handle != me && pawns[i].team == team && pawns[i].alive
            ==> named_pawns(pawns, me, team).contains(
            Plate { handle: pawns[i].handle, place: i as usize },
        ),
        named_pawns(pawns, me, team).len() == pawns.filter(
            |p: PlatePawn| p.handle != me && p.team == team && p.alive,
        ).len(),
    decreases pawns.len(),
{
    order::lemma_filter_last(
        pawns,
        |p: PlatePawn| p.handle != me && p.team == team && p.alive,
    );
    if pawns.len() > 0 {
        let rest = pawns.drop_last();
        let row = named_pawns(pawns, me, team);
        let before = named_pawns(rest, me, team);
        lemma_every_named(rest, me, team, i);
        if 0 <= i < pawns.len() && pawns[i].handle != me && pawns[i].team == team
            && pawns[i].alive {
            let plate = Plate { handle: pawns[i].handle, place: i as usize };
            if i < pawns.len() - 1 {
                assert(rest[i] == pawns[i]);
                let k = choose|k: int| 0 <= k < before.len() && before[k] == plate;
                assert(row[k] == plate);
            } else {
                assert(row[before.len() as int] == plate);
            }
        }
    }
}

} // verus!
