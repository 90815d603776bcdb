//! What each of our handles asks of the simulation this tick.

use bevy::platform::collections::HashMap;
use vstd::prelude::*;

use crate::net;
use crate::wire;
use crate::wire::{MatchRoom, RoomModel};

verus! {

/// What a handle asks for. Where nothing is said nothing is asked.
#[derive(Debug, Clone, Copy, PartialEq, Eq)]
pub struct LocalInput {
    /// The match's two dials: how many bots, and how hard they push.
    pub dials: Option<(u8, u32)>,
    /// The side that the player wants.
    pub side: Option<u8>,
    pub move_x: i8,
    pub move_y: i8,
    pub fire: bool,
    pub ads: bool,
    pub stance: Option<u8>,
}

/// What the player is doing.
#[derive(Debug, Clone, Copy, PartialEq, Eq)]
pub struct Controls {
    pub left: bool,
    pub right: bool,
    pub down: bool,
    pub up: bool,
    pub fire_key: bool,
    /// The stick, while a thumb is on it, in 127ths of its throw.
    pub stick: Option<(i32, i32)>,
    pub fire_touch: bool,
    pub ads: bool,
    pub stance: u8,
    pub side: u8,
    pub bots: u8,
    pub aggro: u32,
    /// The stance of pawns that nobody drives.
    pub idle_stance: u8,
}

/// Asking for nothing.
pub open spec fn blank() -> LocalInput {
    LocalInput {
        dials: None,
        side: None,
        move_x: 0,
        move_y: 0,
        fire: false,
        ads: false,
        stance: None,
    }
}

/// Brought into the stick's range.
pub open spec fn in_throw(n: int) -> int {
    if n < -127 {
        -127
    } else if n > 127 {
        127
    } else {
        n
    }
}

/// One axis: the stick, while it is held, and else the two keys, which cancel
/// each other.
pub open spec fn axis(stick: Option<i32>, less: bool, more: bool) -> int {
    match stick {
        Some(n) => in_throw(n as int),
        None => (if more {
            127int
        } else {
            0
        }) - (if less {
            127int
        } else {
            0
        }),
    }
}

pub open spec fn stick_x(c: Controls) -> Option<i32> {
    match c.stick {
        Some(v) => Some(v.0),
        None => None,
    }
}

pub open spec fn stick_y(c: Controls) -> Option<i32> {
    match c.stick {
        Some(v) => Some(v.1),
        None => None,
    }
}

/// Which handle sends the match's dials.
pub open spec fn dial_handle(room: Option<RoomModel>) -> int {
    match room {
        Some(r) => match net::occupied_at(r.seats, 0) {
            Some(h) => h,
            None => 0,
        },
        None => 0,
    }
}

pub open spec fn is_vacant(room: Option<RoomModel>, handle: usize) -> bool {
    match room {
        Some(r) => handle < r.seats.len() && r.seats[handle as int].peer is None,
        None => false,
    }
}

/// Whether a handle is the player's own: in a match its own seat, and without
/// one the first of the list.
pub open spec fn is_mine(room: Option<RoomModel>, handle: usize, first: bool) -> bool {
    match room {
        Some(r) => handle == r.me,
        None => first,
    }
}

/// What a handle asks for: nothing, where its player has gone; the controls,
/// where it is ours; and to stay as it is, where nobody drives it. The handle
/// that holds the dials sends them besides.
pub open spec fn input_for(
    handle: usize,
    first: bool,
    c: Controls,
    room: Option<RoomModel>,
) -> LocalInput {
    let dials = if handle == dial_handle(room) {
        Some((c.bots, c.aggro))
    } else {
        None
    };
    if is_vacant(room, handle) {
        blank()
    } else if is_mine(room, handle, first) {
        LocalInput {
            dials,
            side: Some(c.side),
            move_x: axis(stick_x(c), c.left, c.right) as i8,
            move_y: axis(stick_y(c), c.down, c.up) as i8,
            fire: c.fire_key || c.fire_touch,
            ads: c.ads,
            stance: Some(c.stance),
        }
    } else {
        LocalInput { dials, stance: Some(c.idle_stance), ..blank() }
    }
}

/// What all our handles ask for.
pub open spec fn inputs_for(
    handles: Seq<usize>,
    c: Controls,
    room: Option<RoomModel>,
) -> Map<usize, LocalInput>
    decreases handles.len(),
{
    if handles.len() == 0 {
        Map::empty()
    } else {
        inputs_for(handles.drop_last(), c, room).insert(
            handles.last(),
            input_for(handles.last(), handles.len() == 1, c, room),
        )
    }
}

/// What each handle asks for, out of the table that holds it.
pub uninterp spec fn inputs_in(table: HashMap<usize, LocalInput>) -> Map<usize, LocalInput>;

/// `HashMap::new` holds nothing.
#[verifier::external_body]
fn no_inputs() -> (table: HashMap<usize, LocalInput>)
    ensures
        (inputs_in(table) == Map::<usize, LocalInput>::empty()),
{
    HashMap::new()
}

/// `HashMap::insert` files the value under the key in place of what was there.
#[verifier::external_body]
fn file_input(table: &mut HashMap<usize, LocalInput>, handle: usize, input: LocalInput)
    ensures
        inputs_in(*final(table)) == inputs_in(*old(table)).insert(handle, input),
{
    table.insert(handle, input);
}

fn clamp_throw(n: i32) -> (out: i8)
    ensures
        out == in_throw(n as int),
{
    if n < -127 {
        -127
    } else if n > 127 {
        127
    } else {
        n as i8
    }
}

fn key_axis(less: bool, more: bool) -> (out: i8)
    ensures
        out == axis(None, less, more),
{
    if less == more {
        0
    } else if more {
        127
    } else {
        -127
    }
}

/// What each of our handles asks for this tick.
pub fn read_local_inputs(handles: &Vec<usize>, c: Controls, room: Option<&MatchRoom>) -> (out:
    HashMap<usize, LocalInput>)
    ensures
        inputs_in(out) == inputs_for(handles@, c, wire::room_view(room)),
{
    let holder: usize = match room {
        Some(r) => match r.dial_holder() {
            Some(h) => h,
            None => 0,
        },
        None => 0,
    };
    proof {
        if let Some(r) = room {
            net::lemma_occupied_at(r@.seats, 0);
        }
    }
    let mut out = no_inputs();
    let mut i: usize = 0;
    assert(handles@.take(0) =~= Seq::empty());
    while i < handles.len()
        invariant
            i <= handles.len(),
            holder == dial_handle(wire::room_view(room)),
            inputs_in(out) == inputs_for(handles@.take(i as int), c, wire::room_view(room)),
        decreases handles.len() - i,
    {
        let handle: usize = handles[i];
        assert(handles@.take(i + 1).drop_last() =~= handles@.take(i as int));
        let mut input = LocalInput {
            dials: None,
            side: None,
            move_x: 0,
            move_y: 0,
            fire: false,
            ads: false,
            stance: None,
        };
        let gone: bool = match room {
            Some(r) => r.vacant(handle),
            None => false,
        };
        if !gone {
            if handle == holder {
                input.dials = Some((c.bots, c.aggro));
            }
            let mine: bool = match room {
                Some(r) => handle == r.me,
                None => i == 0,
            };
            if mine {
                input.side = Some(c.side);
                match c.stick {
                    Some(v) => {
                        input.move_x = clamp_throw(v.0);
                        input.move_y = clamp_throw(v.1);
                    },
                    None => {
                        input.move_x = key_axis(c.left, c.right);
                        input.move_y = key_axis(c.down, c.up);
                    },
                }
                input.fire = c.fire_key || c.fire_touch;
                input.ads = c.ads;
                input.stance = Some(c.stance);
            } else {
                input.stance = Some(c.idle_stance);
            }
        }
        assert(input == input_for(handle, i == 0, c, wire::room_view(room)));
        file_input(&mut out, handle, input);
        i = i + 1;
    }
    assert(handles@.take(i as int) =~= handles@);
    out
}

proof fn lemma_inputs_for(
    handles: Seq<usize>,
    c: Controls,
    room: Option<RoomModel>,
    h: usize,
)
    ensures
        inputs_for(handles, c, room).dom().contains(h) <==> handles.contains(h),
        inputs_for(handles, c, room).dom().contains(h) ==> (inputs_for(handles, c, room)[h]
            == input_for(h, true, c, room) || inputs_for(handles, c, room)[h] == input_for(
            h,
            false,
            c,
            room,
        )),
    decreases handles.len(),
{
    if handles.len() > 0 {
        lemma_inputs_for(handles.drop_last(), c, room, h);
        let rest = handles.drop_last();
        if rest.contains(h) {
            let k = choose|k: int| 0 <= k < rest.len() && rest[k] == h;
            assert(handles[k] == h);
        }
        assert(handles[handles.len() - 1] == handles.last());
        if handles.contains(h) && handles.last() != h {
            let k = choose|k: int| 0 <= k < handles.len() && handles[k] == h;
            assert(rest[k] == h);
        }
    }
}

/// A seat whose player has gone asks for the same on every peer, whatever its
/// players are doing: nothing.
pub proof fn a_vacant_seat_asks_for_nothing(
    handles: Seq<usize>,
    c: Controls,
    room: RoomModel,
    h: usize,
)
    requires
        handles.contains(h),
        is_vacant(Some(room), h),
    ensures
        inputs_for(handles, c, Some(room)).dom().contains(h),
        inputs_for(handles, c, Some(room))[h] == blank(),
{
    lemma_inputs_for(handles, c, Some(room), h);
}

/// In a match with anybody in it the dials come from one handle alone, and that
/// is a handle somebody sits at.
pub proof fn one_handle_sends_the_dials(
    handles: Seq<usize>,
    c: Controls,
    room: RoomModel,
    h: usize,
)
    requires
        handles.contains(h),
        inputs_for(handles, c, Some(room))[h].dials is Some,
        net::occupied_at(room.seats, 0) is Some,
    ensures
        net::occupied_at(room.seats, 0) == Some(h as int),
        !is_vacant(Some(room), h),
{
    lemma_inputs_for(handles, c, Some(room), h);
    net::lemma_occupied_at(room.seats, 0);
}

/// In a match only our own seat does what the controls say.
pub proof fn only_our_own_seat_is_driven(
    handles: Seq<usize>,
    c: Controls,
    room: RoomModel,
    h: usize,
)
    requires
        handles.contains(h),
        h != room.me,
    ensures
        ({
            let input = inputs_for(handles, c, Some(room))[h];
            &&& input.move_x == 0
            &&& input.move_y == 0
            &&& !input.fire
            &&& !input.ads
            &&& input.side is None
        }),
{
    lemma_inputs_for(handles, c, Some(room), h);
}

proof fn lemma_own_input(
    handles: Seq<usize>,
    c: Controls,
    room: Option<RoomModel>,
    h: usize,
)
    requires
        handles.contains(h),
        match room {
            Some(r) => h == r.me,
            None => handles[0] == h && forall|j: int|
                0 < j < handles.len() ==> #[trigger] handles[j] != h,
        },
    ensures
        inputs_for(handles, c, room).dom().contains(h),
        inputs_for(handles, c, room)[h] == input_for(h, true, c, room),
    decreases handles.len(),
{
    let rest = handles.drop_last();
    let k = choose|k: int| 0 <= k < handles.len() && handles[k] == h;
    if handles.last() != h {
        assert(rest[k] == h);
        assert forall|j: int| room is None && 0 < j < rest.len() implies #[trigger] rest[j] != h by {
            assert(rest[j] == handles[j]);
        }
        lemma_own_input(rest, c, room, h);
    } else if room is None {
        assert(handles[handles.len() - 1] == h);
    }
}

/// Every handle that is ours to speak for asks for something, and no other does.
pub proof fn every_handle_asks(
    handles: Seq<usize>,
    c: Controls,
    room: Option<RoomModel>,
    h: usize,
)
    ensures
        inputs_for(handles, c, room).dom().contains(h) <==> handles.contains(h),
{
    lemma_inputs_for(handles, c, room, h);
}

/// Either trigger fires: our own seat, while we sit in it, asks to fire exactly
/// when the key is down or the button on the glass is held, whatever else is
/// pressed.
pub proof fn either_trigger_fires(
    handles: Seq<usize>,
    c: Controls,
    room: RoomModel,
    h: usize,
)
    requires
        handles.contains(h),
        h == room.me,
        h < room.seats.len() ==> room.seats[h as int].peer is Some,
    ensures
        inputs_for(handles, c, Some(room))[h].fire <==> (c.fire_key || c.fire_touch),
{
    lemma_own_input(handles, c, Some(room), h);
}

/// Our own seat asks for the side, the sights and the stance that the controls
/// stand at.
pub proof fn our_own_seat_follows_the_controls(
    handles: Seq<usize>,
    c: Controls,
    room: RoomModel,
    h: usize,
)
    requires
        handles.contains(h),
        h == room.me,
        h < room.seats.len() ==> room.seats[h as int].peer is Some,
    ensures
        inputs_for(handles, c, Some(room))[h].side == Some(c.side),
        inputs_for(handles, c, Some(room))[h].ads == c.ads,
        inputs_for(handles, c, Some(room))[h].stance == Some(c.stance),
{
    lemma_own_input(handles, c, Some(room), h);
}

/// The keys walk: each pulls its own way, two that oppose each other come to
/// nothing, and neither axis moves the other.
pub proof fn the_keys_walk(handles: Seq<usize>, c: Controls, room: RoomModel, h: usize)
    requires
        handles.contains(h),
        h == room.me,
        h < room.seats.len() ==> room.seats[h as int].peer is Some,
        c.stick is None,
    ensures
        ({
            let input = inputs_for(handles, c, Some(room))[h];
            &&& input.move_x == 127 <==> (c.right && !c.left)
            &&& input.move_x == -127 <==> (c.left && !c.right)
            &&& input.move_x == 0 <==> c.left == c.right
            &&& input.move_y == 127 <==> (c.up && !c.down)
            &&& input.move_y == -127 <==> (c.down && !c.up)
            &&& input.move_y == 0 <==> c.down == c.up
        }),
{
    lemma_own_input(handles, c, Some(room), h);
}

/// A thumb on the stick outranks the keys: each axis is as far out as the thumb,
/// and no further than the stick goes.
pub proof fn the_stick_outranks_the_keys(
    handles: Seq<usize>,
    c: Controls,
    room: RoomModel,
    h: usize,
    x: i32,
    y: i32,
)
    requires
        handles.contains(h),
        h == room.me,
        h < room.seats.len() ==> room.seats[h as int].peer is Some,
        c.stick == Some((x, y)),
    ensures
        ({
            let input = inputs_for(handles, c, Some(room))[h];
            &&& -127 <= x <= 127 ==> input.move_x == x
            &&& x > 127 ==> input.move_x == 127
            &&& x < -127 ==> input.move_x == -127
            &&& -127 <= y <= 127 ==> input.move_y == y
            &&& y > 127 ==> input.move_y == 127
            &&& y < -127 ==> input.move_y == -127
        }),
{
    lemma_own_input(handles, c, Some(room), h);
}

/// Without a match the first of our handles is the one that the controls drive,
/// the same way as our own seat in a match of one.
pub proof fn alone_the_first_handle_is_driven(handles: Seq<usize>, c: Controls, room: RoomModel)
    requires
        handles.len() > 0,
        forall|j: int| 0 < j < handles.len() ==> #[trigger] handles[j] != handles[0],
        handles[0] == 0,
        room.me == 0,
        room.seats.len() > 0,
        room.seats[0].peer is Some,
    ensures
        inputs_for(handles, c, None)[0] == inputs_for(handles, c, Some(room))[0],
        forall|j: int|
            #![trigger handles[j]]
            0 < j < handles.len() ==> inputs_for(handles, c, None)[handles[j]] == (LocalInput {
                dials: None,
                side: None,
                move_x: 0,
                move_y: 0,
                fire: false,
                ads: false,
                stance: Some(c.idle_stance),
            }),
{
    assert(handles.contains(handles[0]));
    lemma_own_input(handles, c, None, 0);
    lemma_own_input(handles, c, Some(room), 0);
    assert forall|j: int| 0 < j < handles.len() implies inputs_for(handles, c, None)[#[trigger] handles[j]]
        == input_for(handles[j], false, c, None) by {
        lemma_idle_input(handles, c, handles[j]);
    }
}

proof fn lemma_idle_input(handles: Seq<usize>, c: Controls, h: usize)
    requires
        handles.contains(h),
        handles[0] != h,
    ensures
        inputs_for(handles, c, None)[h] == input_for(h, false, c, None),
    decreases handles.len(),
{
    if handles.last() != h {
        let rest = handles.drop_last();
        let k = choose|k: int| 0 <= k < handles.len() && handles[k] == h;
        assert(rest[k] == h);
        lemma_idle_input(rest, c, h);
    }
}

/// A seat whose player has gone asks for nothing at all, our own too.
pub proof fn nothing_comes_from_an_empty_seat(
    handles: Seq<usize>,
    c: Controls,
    room: RoomModel,
    h: usize,
)
    requires
        handles.contains(h),
        h < room.seats.len(),
        room.seats[h as int].peer is None,
    ensures
        inputs_for(handles, c, Some(room))[h] == (LocalInput {
            dials: None,
            side: None,
            move_x: 0,
            move_y: 0,
            fire: false,
            ads: false,
            stance: None,
        }),
{
    lemma_inputs_for(handles, c, Some(room), h);
}

/// A seat that somebody sits in and that is not ours holds the idle stance.
pub proof fn an_undriven_seat_holds_the_idle_stance(
    handles: Seq<usize>,
    c: Controls,
    room: RoomModel,
    h: usize,
)
    requires
        handles.contains(h),
        h != room.me,
        h < room.seats.len() ==> room.seats[h as int].peer is Some,
    ensures
        inputs_for(handles, c, Some(room))[h].stance == Some(c.idle_stance),
{
    lemma_inputs_for(handles, c, Some(room), h);
}

/// The first seat that anybody sits in sends both dials as they stand, and no seat
/// behind it sends any.
pub proof fn the_first_seat_taken_sends_the_dials(
    handles: Seq<usize>,
    c: Controls,
    room: RoomModel,
    h: usize,
    other: usize,
)
    requires
        handles.contains(h),
        h < room.seats.len(),
        room.seats[h as int].peer is Some,
        forall|i: int| 0 <= i < h ==> (#[trigger] room.seats[i]).peer is None,
        handles.contains(other),
        other != h,
    ensures
        inputs_for(handles, c, Some(room))[h].dials == Some((c.bots, c.aggro)),
        inputs_for(handles, c, Some(room))[other].dials is None,
{
    lemma_inputs_for(handles, c, Some(room), h);
    lemma_inputs_for(handles, c, Some(room), other);
    net::lemma_occupied_at(room.seats, 0);
}

} // verus!
