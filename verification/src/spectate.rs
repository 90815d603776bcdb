//! Whom to watch while out of the round.

use vstd::prelude::*;

use crate::order;

verus! {

/// A pawn, as far as watching goes.
#[derive(Debug, Clone, Copy, PartialEq, Eq, Structural)]
pub struct Mate {
    pub handle: usize,
    pub team: u8,
    pub alive: bool,
}

/// The first pawn with this handle.
pub open spec fn pawn_at(pawns: Seq<Mate>, handle: usize) -> Option<Mate>
    decreases pawns.len(),
{
    if pawns.len() == 0 {
        None
    } else if pawns[0].handle == handle {
        Some(pawns[0])
    } else {
        pawn_at(pawns.drop_first(), handle)
    }
}

pub fn find_pawn(pawns: &Vec<Mate>, handle: usize) -> (out: Option<Mate>)
    ensures
        out == pawn_at(pawns@, handle),
{
    let mut i: usize = 0;
    assert(pawns@.skip(0) =~= pawns@);
    while i < pawns.len()
        invariant
            i <= pawns.len(),
            pawn_at(pawns@, handle) == pawn_at(pawns@.skip(i as int), handle),
        decreases pawns.len() - i,
    {
        if pawns[i].handle == handle {
            return Some(pawns[i]);
        }
        assert(pawns@.skip(i as int).drop_first() =~= pawns@.skip(i + 1));
        i = i + 1;
    }
    None
}

/// Whether a pawn is one to watch: on this side, standing, and not ourselves.
pub open spec fn watchable(pawn: Mate, me: usize, team: u8) -> bool {
    pawn.handle != me && pawn.team == team && pawn.alive
}

/// The handles of the pawns to watch, in the order they come.
pub open spec fn mate_handles(pawns: Seq<Mate>, me: usize, team: u8) -> Seq<usize>
    decreases pawns.len(),
{
    if pawns.len() == 0 {
        Seq::empty()
    } else {
        let rest = mate_handles(pawns.drop_last(), me, team);
        if watchable(pawns.last(), me, team) {
            rest.push(pawns.last().handle)
        } else {
            rest
        }
    }
}

/// Everybody still standing on our side but ourselves, in handle order.
pub open spec fn mates_of(pawns: Seq<Mate>, me: usize) -> Seq<usize> {
    match pawn_at(pawns, me) {
        Some(own) => order::arranged(mate_handles(pawns, me, own.team)),
        None => Seq::empty(),
    }
}

pub fn living_teammates(me: usize, pawns: &Vec<Mate>) -> (out: Vec<usize>)
    ensures
        out@ == mates_of(pawns@, me),
{
    let team: u8 = match find_pawn(pawns, me) {
        Some(own) => own.team,
        None => return Vec::new(),
    };
    let mut mates: Vec<usize> = Vec::new();
    let mut i: usize = 0;
    assert(pawns@.take(0) =~= Seq::empty());
    while i < pawns.len()
        invariant
            i <= pawns.len(),
            mates@ == mate_handles(pawns@.take(i as int), me, team),
        decreases pawns.len() - i,
    {
        assert(pawns@.take(i + 1).drop_last() =~= pawns@.take(i as int));
        let pawn = pawns[i];
        if pawn.handle != me && pawn.team == team && pawn.alive {
            mates.push(pawn.handle);
        }
        i = i + 1;
    }
    assert(pawns@.take(i as int) =~= pawns@);
    order::arrange(&mates)
}

proof fn lemma_mate_handles(pawns: Seq<Mate>, me: usize, team: u8, h: usize)
    ensures
        mate_handles(pawns, me, team).contains(h) <==> exists|i: int|
            0 <= i < pawns.len() && (#[trigger] pawns[i]).handle == h && watchable(
                pawns[i],
                me,
                team,
            ),
    decreases pawns.len(),
{
    if pawns.len() > 0 {
        let rest = pawns.drop_last();
        let before = mate_handles(rest, me, team);
        let all = mate_handles(pawns, me, team);
        lemma_mate_handles(rest, me, team, h);
        if before.contains(h) {
            let i = choose|i: int|
                0 <= i < rest.len() && (#[trigger] rest[i]).handle == h && watchable(
                    rest[i],
                    me,
                    team,
                );
            assert(pawns[i] == rest[i]);
            let k = choose|k: int| 0 <= k < before.len() && before[k] == h;
            assert(all[k] == h);
        }
        if watchable(pawns.last(), me, team) {
            assert(all[before.len() as int] == pawns.last().handle);
            assert(pawns[pawns.len() - 1] == pawns.last());
        }
        if all.contains(h) && !before.contains(h) {
            assert(pawns[pawns.len() - 1].handle == h);
        }
        if exists|i: int|
            0 <= i < pawns.len() && (#[trigger] pawns[i]).handle == h && watchable(
                pawns[i],
                me,
                team,
            ) {
            let i = choose|i: int|
                0 <= i < pawns.len() && (#[trigger] pawns[i]).handle == h && watchable(
                    pawns[i],
                    me,
                    team,
                );
            if i < rest.len() {
                assert(rest[i] == pawns[i]);
                assert(before.contains(h));
            }
        }
    }
}

/// The list of whom to watch holds the standing of our own side and nobody else:
/// never ourselves, never an enemy, never the fallen. It is in handle order.
pub proof fn only_standing_teammates_are_watched(pawns: Seq<Mate>, me: usize, h: usize)
    ensures
        order::in_order(mates_of(pawns, me)),
        mates_of(pawns, me).contains(h) <==> (pawn_at(pawns, me) matches Some(own) && exists|i: int|
            0 <= i < pawns.len() && (#[trigger] pawns[i]).handle == h && watchable(
                pawns[i],
                me,
                own.team,
            )),
{
    if let Some(own) = pawn_at(pawns, me) {
        lemma_mate_handles(pawns, me, own.team, h);
        order::lemma_arranged_contains(mate_handles(pawns, me, own.team), h);
        order::arranging_puts_in_order(mate_handles(pawns, me, own.team));
    }
}

/// The first place of a handle in a row, from `from` on.
pub open spec fn place_of(mates: Seq<usize>, who: usize, from: int) -> Option<int>
    decreases mates.len() - from,
{
    if from >= mates.len() {
        None
    } else if mates[from] == who {
        Some(from)
    } else {
        place_of(mates, who, from + 1)
    }
}

/// Whom to watch, out of `mates`: the one watched so far, if they still stand,
/// and else the first; the next one round, if that was asked for; and our own
/// body if there is nobody.
pub open spec fn pick(current: Option<usize>, mates: Seq<usize>, advance: bool) -> Option<usize> {
    if mates.len() == 0 {
        None
    } else {
        let at: int = match current {
            Some(who) => match place_of(mates, who, 0) {
                Some(i) => i,
                None => 0,
            },
            None => 0,
        };
        let next: int = if advance {
            (at + 1) % (mates.len() as int)
        } else {
            at
        };
        Some(mates[next])
    }
}

proof fn lemma_place_of(mates: Seq<usize>, who: usize, from: int)
    requires
        0 <= from <= mates.len(),
    ensures
        match place_of(mates, who, from) {
            Some(i) => from <= i < mates.len() && mates[i] == who,
            None => forall|i: int| from <= i < mates.len() ==> mates[i] != who,
        },
    decreases mates.len() - from,
{
    if from < mates.len() && mates[from] != who {
        lemma_place_of(mates, who, from + 1);
    }
}

pub fn choose_mate(current: Option<usize>, mates: &Vec<usize>, advance: bool) -> (out: Option<
    usize,
>)
    ensures
        out == pick(current, mates@, advance),
{
    if mates.len() == 0 {
        return None;
    }
    let mut at: usize = 0;
    if let Some(who) = current {
        let mut i: usize = 0;
        while i < mates.len() && mates[i] != who
            invariant
                i <= mates.len(),
                place_of(mates@, who, 0) == place_of(mates@, who, i as int),
            decreases mates.len() - i,
        {
            i = i + 1;
        }
        if i < mates.len() {
            at = i;
        }
    }
    let next: usize = if advance {
        (at + 1) % mates.len()
    } else {
        at
    };
    Some(mates[next])
}

/// Whoever is picked is one of the list; without a request the camera stays on
/// whom it watches.
pub proof fn a_pick_is_a_mate(current: Option<usize>, mates: Seq<usize>, advance: bool)
    ensures
        pick(current, mates, advance) is None <==> mates.len() == 0,
        pick(current, mates, advance) matches Some(who) ==> mates.contains(who),
        !advance && current is Some && mates.contains(current->0) ==> pick(current, mates, advance)
            == current,
{
    if mates.len() > 0 {
        if let Some(who) = current {
            lemma_place_of(mates, who, 0);
        }
        let at: int = match current {
            Some(who) => match place_of(mates, who, 0) {
                Some(i) => i,
                None => 0,
            },
            None => 0,
        };
        let next: int = if advance {
            (at + 1) % (mates.len() as int)
        } else {
            at
        };
        assert(0 <= next < mates.len());
        assert(mates[next] == pick(current, mates, advance)->0);
    }
}

/// Whom `taps` requests one after the other lead to.
pub open spec fn after_taps(current: Option<usize>, mates: Seq<usize>, taps: nat) -> Option<usize>
    decreases taps,
{
    if taps == 0 {
        current
    } else {
        pick(after_taps(current, mates, (taps - 1) as nat), mates, true)
    }
}

/// Tapping walks round the list and wraps: from any place, `taps` requests lead
/// that many places on, so everybody is reached and nobody is stuck.
pub proof fn tapping_walks_round(mates: Seq<usize>, from: int, taps: nat)
    requires
        0 <= from < mates.len(),
        forall|i: int, j: int|
            0 <= i < j < mates.len() ==> #[trigger] mates[i] != #[trigger] mates[j],
    ensures
        after_taps(Some(mates[from]), mates, taps) == Some(
            mates[(from + taps) % (mates.len() as int)],
        ),
    decreases taps,
{
    let n: int = mates.len() as int;
    if taps == 0 {
        assert(from % n == from) by (nonlinear_arith)
            requires
                0 <= from < n,
        ;
    } else {
        tapping_walks_round(mates, from, (taps - 1) as nat);
        let at = (from + taps - 1) % n;
        assert(0 <= at < n) by (nonlinear_arith)
            requires
                n > 0,
                at == (from + taps - 1) % n,
        ;
        lemma_place_of(mates, mates[at], 0);
        let found = place_of(mates, mates[at], 0)->0;
        assert(place_of(mates, mates[at], 0) is Some);
        assert(found == at);
        vstd::arithmetic::div_mod::lemma_add_mod_noop_right(1, from + taps - 1, n);
        assert((at + 1) % n == (from + taps) % n);
    }
}

/// Whom the camera watches; nobody means our own pawn.
#[derive(Debug, Clone, Copy, PartialEq, Eq, Structural)]
pub struct Spectating {
    pub watching: Option<usize>,
}

impl Default for Spectating {
    fn default() -> (out: Self)
        ensures
            out.watching is None,
    {
        Spectating { watching: None }
    }
}

impl Spectating {
    /// A frame of watching: while we stand, or are not in the game, we watch
    /// ourselves; while we are out, somebody of our side.
    pub fn update_spectate(&mut self, me: Option<usize>, pawns: &Vec<Mate>, advance: bool)
        ensures
            final(self).watching == (match me {
                Some(h) => match pawn_at(pawns@, h) {
                    Some(own) => if own.alive {
                        None
                    } else {
                        pick(old(self).watching, mates_of(pawns@, h), advance)
                    },
                    None => None,
                },
                None => None,
            }),
    {
        let h: usize = match me {
            Some(h) => h,
            None => {
                self.watching = None;
                return ;
            },
        };
        let out: bool = match find_pawn(pawns, h) {
            Some(own) => !own.alive,
            None => false,
        };
        if !out {
            self.watching = None;
            return ;
        }
        let mates = living_teammates(h, pawns);
        self.watching = choose_mate(self.watching, &mates, advance);
    }
}

/// Whose eyes and ears are ours: whoever is watched, and else the first local
/// player.
pub fn watched(first_local: Option<usize>, spectating: Spectating) -> (out: Option<usize>)
    ensures
        out == (match spectating.watching {
            Some(h) => Some(h),
            None => first_local,
        }),
{
    match spectating.watching {
        Some(h) => Some(h),
        None => first_local,
    }
}

/// The pawn of a handle is the first that has it, if any has.
pub proof fn the_first_pawn_of_a_handle(pawns: Seq<Mate>, handle: usize, k: int)
    requires
        0 <= k <= pawns.len(),
        forall|i: int| 0 <= i < k ==> (#[trigger] pawns[i]).handle != handle,
        k < pawns.len() ==> pawns[k].handle == handle,
    ensures
        pawn_at(pawns, handle) == (if k < pawns.len() {
            Some(pawns[k])
        } else {
            None
        }),
    decreases pawns.len(),
{
    if pawns.len() > 0 && k > 0 {
        let rest = pawns.drop_first();
        assert(pawns[0].handle != handle);
        assert forall|i: int| 0 <= i < k - 1 implies (#[trigger] rest[i]).handle != handle by {
            assert(rest[i] == pawns[i + 1]);
        }
        the_first_pawn_of_a_handle(rest, handle, k - 1);
    }
}

/// Whom there is to watch is every pawn but our own that stands on our own pawn's side,
/// by handle from the lowest up. Without a pawn of our own there is nobody.
pub proof fn whom_there_is_to_watch(pawns: Seq<Mate>, me: usize, h: usize)
    ensures
        pawn_at(pawns, me) is None ==> mates_of(pawns, me).len() == 0,
        pawn_at(pawns, me) matches Some(own) ==> {
            &&& mates_of(pawns, me).len() == pawns.filter(
                |p: Mate| p.handle != me && p.team == own.team && p.alive,
            ).len()
            &&& mates_of(pawns, me).contains(h) <==> (exists|i: int|
                0 <= i < pawns.len() && (#[trigger] pawns[i]).handle == h && h != me
                    && pawns[i].team == own.team && pawns[i].alive)
        },
        forall|i: int, j: int|
            0 <= i <= j < mates_of(pawns, me).len() ==> #[trigger] mates_of(pawns, me)[i]
                <= #[trigger] mates_of(pawns, me)[j],
{
    only_standing_teammates_are_watched(pawns, me, h);
    if pawn_at(pawns, me) is Some {
        let team = (pawn_at(pawns, me)->0).team;
        let row = mate_handles(pawns, me, team);
        order::arranging_puts_in_order(row);
        lemma_as_many_mates(pawns, me, team);
        assert forall|i: int, j: int| 0 <= i <= j < mates_of(pawns, me).len() implies
            #[trigger] mates_of(pawns, me)[i] <= #[trigger] mates_of(pawns, me)[j] by {
            order::numbers_go_up(Seq::empty(), row, i, j);
        }
        if mates_of(pawns, me).contains(h) {
            let i = choose|i: int|
                0 <= i < pawns.len() && (#[trigger] pawns[i]).handle == h && watchable(
                    pawns[i],
                    me,
                    team,
                );
            assert(pawns[i].handle == h && h != me);
        }
        if exists|i: int|
            0 <= i < pawns.len() && (#[trigger] pawns[i]).handle == h && h != me && pawns[i].team
                == team && pawns[i].alive {
            let i = choose|i: int|
                0 <= i < pawns.len() && (#[trigger] pawns[i]).handle == h && h != me
                    && pawns[i].team == team && pawns[i].alive;
            assert(watchable(pawns[i], me, team));
        }
    }
}

proof fn lemma_as_many_mates(pawns: Seq<Mate>, me: usize, team: u8)
    ensures
        mate_handles(pawns, me, team).len() == pawns.filter(
            |p: Mate| p.handle != me && p.team == team && p.alive,
        ).len(),
    decreases pawns.len(),
{
    order::lemma_filter_last(pawns, |p: Mate| p.handle != me && p.team == team && p.alive);
    if pawns.len() > 0 {
        lemma_as_many_mates(pawns.drop_last(), me, team);
    }
}

/// Whoever watches nobody on the list begins with the first of it, and with the one
/// behind if they ask to move on.
pub proof fn watching_begins_with_the_first(
    current: Option<usize>,
    mates: Seq<usize>,
    advance: bool,
)
    requires
        mates.len() > 0,
        current matches Some(who) ==> !mates.contains(who),
    ensures
        !advance ==> pick(current, mates, advance) == Some(mates[0]),
        advance && mates.len() > 1 ==> pick(current, mates, advance) == Some(mates[1]),
        mates.len() == 1 ==> pick(current, mates, advance) == Some(mates[0]),
{
    if current is Some {
        lemma_place_of(mates, current->0, 0);
    }
    assert(mates.len() > 1 ==> 1int % (mates.len() as int) == 1) by {
        if mates.len() > 1 {
            vstd::arithmetic::div_mod::lemma_small_mod(1, mates.len());
        }
    }
    assert(1int % 1int == 0);
}

} // verus!
