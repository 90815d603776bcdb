//! Starting a match, letting somebody back into it, and taking a start up.

use vstd::prelude::*;

use crate::menu::{Aggression, BotCount};
use crate::net;
use crate::net::{find_seat, reachable, Lobby, LobbyModel, GGRS_CHANNEL_BASE, LOBBY_CHANNEL,
    SESSION_CHANNELS};
use crate::order;
use crate::peer::PeerId;
use crate::persist;
use crate::persist::Dials;
use crate::room;
use crate::room::Letter;
use crate::roster;
use crate::roster::{copy_seats, Seat, SeatModel};
use crate::text;
use crate::wire;
use crate::wire::{go_message, GoModel, MatchRoom, PendingGo, RoomModel, GO};
use crate::MAX_PLAYERS;

verus! {

/// The peers in these seats but for ourselves, in seat order.
pub open spec fn others(seats: Seq<SeatModel>, me: Option<PeerId>) -> Seq<PeerId>
    decreases seats.len(),
{
    if seats.len() == 0 {
        Seq::empty()
    } else {
        let rest = others(seats.drop_last(), me);
        match seats.last().peer {
            Some(p) => if me != Some(p) {
                rest.push(p)
            } else {
                rest
            },
            None => rest,
        }
    }
}

fn list_others(seats: &Vec<Seat>, me: Option<PeerId>) -> (out: Vec<PeerId>)
    ensures
        out@ == others(roster::roster(seats@), me),
{
    let mut out: Vec<PeerId> = Vec::new();
    let mut i: usize = 0;
    let ghost all = roster::roster(seats@);
    assert(all.take(0) =~= Seq::empty());
    while i < seats.len()
        invariant
            i <= seats.len(),
            all == roster::roster(seats@),
            out@ == others(all.take(i as int), me),
        decreases seats.len() - i,
    {
        proof {
            assert(all.take(i + 1).drop_last() =~= all.take(i as int));
            assert(all.take(i + 1).last() == seats@[i as int]@);
        }
        if let Some(p) = seats[i].peer {
            let mine: bool = match me {
                Some(m) => m == p,
                None => false,
            };
            if !mine {
                out.push(p);
            }
        }
        i = i + 1;
    }
    assert(all.take(i as int) =~= all);
    out
}

// ---------------------------------------------------------------------------
// The first start.
// ---------------------------------------------------------------------------

/// Whether everybody in the room has said what they are called.
pub open spec fn all_named(lobby: LobbyModel) -> bool {
    forall|i: int|
        0 <= i < lobby.ids.len() ==> net::named(lobby.names, #[trigger] lobby.ids[i]) is Some
}

/// The seats of a first start: everybody in the room, in order, as far as the
/// seats go.
pub open spec fn first_seats(lobby: LobbyModel, cap: nat) -> Seq<SeatModel> {
    Seq::new(
        if cap < lobby.ids.len() {
            cap
        } else {
            lobby.ids.len()
        },
        |i: int|
            SeatModel {
                player: net::named(lobby.names, lobby.ids[i])->0,
                peer: Some(lobby.ids[i]),
            },
    )
}

/// Whether a first start is due: we are the host, nothing is under way here or
/// anywhere in the room, there is somebody to play with, and either it was
/// asked for or the seats are taken; everybody has said who they are, and we
/// have a seat.
pub open spec fn start_due(
    lobby: LobbyModel,
    player: Seq<char>,
    cap: nat,
    connected: bool,
    joining: bool,
    going: bool,
) -> bool {
    &&& connected
    &&& !joining
    &&& !going
    &&& lobby.roster is None
    &&& lobby.away is None
    &&& lobby.my_id is Some
    &&& lobby.is_host
    &&& lobby.ids.len() >= 2
    &&& lobby.start_requested || lobby.ids.len() >= cap
    &&& all_named(lobby)
    &&& net::seat_at(first_seats(lobby, cap), player, 0) is Some
}

impl Lobby {
    /// A frame of the lobby: starts the match if it is due. The request to start
    /// is used up either way.
    pub fn run_lobby(
        &mut self,
        player: &str,
        cap: usize,
        connected: bool,
        joining: bool,
        going: bool,
    ) -> (out: Option<(PendingGo, Letter)>)
        ensures
            ({
                let seats = first_seats(old(self)@, cap as nat);
                match out {
                    Some(start) => {
                        &&& start_due(old(self)@, player@, cap as nat, connected, joining, going)
                        &&& start.0@ == (GoModel { generation: 0, seats, world: None })
                        &&& start.1.text@ == GO@ + wire::go_body(0, seats, Seq::empty())
                        &&& start.1.to@ == others(seats, old(self)@.my_id)
                        &&& final(self)@ == (LobbyModel {
                            start_requested: false,
                            roster: Some(seats),
                            ..old(self)@
                        })
                    },
                    None => {
                        &&& !start_due(old(self)@, player@, cap as nat, connected, joining, going)
                        &&& final(self)@ == (LobbyModel { start_requested: false, ..old(self)@ })
                    },
                }
            }),
    {
        let requested: bool = self.start_requested;
        self.start_requested = false;
        if !connected || joining || going || self.roster.is_some() || self.away.is_some() {
            return None;
        }
        if self.my_id.is_none() || !self.is_host || self.ids.len() < 2 {
            return None;
        }
        if !(requested || self.ids.len() >= cap) {
            return None;
        }
        let ghost wanted = first_seats(self@, cap as nat);
        let mut seats: Vec<Seat> = Vec::new();
        let mut i: usize = 0;
        assert(roster::roster(seats@) =~= wanted.take(0));
        while i < self.ids.len()
            invariant
                i <= self.ids.len(),
                self@ == (LobbyModel { start_requested: false, ..old(self)@ }),
                wanted == first_seats(self@, cap as nat),
                forall|j: int|
                    0 <= j < i ==> net::named(self@.names, #[trigger] self@.ids[j]) is Some,
                roster::roster(seats@) == wanted.take(
                    if i < wanted.len() {
                        i as int
                    } else {
                        wanted.len() as int
                    },
                ),
            decreases self.ids.len() - i,
        {
            let name = match self.name_of(self.ids[i]) {
                Some(name) => name,
                None => {
                    assert(net::named(self@.names, self@.ids[i as int]) is None);
                    return None;
                },
            };
            if i < cap {
                let ghost before = roster::roster(seats@);
                let next = Seat { player: text::copy_of(name), peer: Some(self.ids[i]) };
                seats.push(next);
                assert(roster::roster(seats@) =~= before.push(next@));
                assert(wanted.take(i + 1) =~= before.push(wanted[i as int]));
            }
            i = i + 1;
        }
        assert(wanted.take(wanted.len() as int) =~= wanted);
        if find_seat(&seats, player).is_none() {
            return None;
        }
        let message = go_message(0, &seats, "");
        proof {
            reveal_strlit("");
            assert(""@ =~= Seq::empty());
        }
        let to = list_others(&seats, self.my_id);
        self.roster = Some(copy_seats(&seats));
        Some((PendingGo { generation: 0, seats, world: None }, Letter { text: message, to }))
    }
}

/// A first start can travel: it seats at least one and at most as many as there
/// are seats, everybody in it is there, and every player is a token.
pub proof fn a_first_start_can_travel(lobby: LobbyModel, cap: nat)
    requires
        1 <= cap <= MAX_PLAYERS,
        lobby.ids.len() >= 1,
        all_named(lobby),
        room::names_are_sound(lobby.names),
    ensures
        roster::sane(first_seats(lobby, cap)),
        first_seats(lobby, cap).len() <= cap,
        forall|i: int|
            0 <= i < first_seats(lobby, cap).len() ==> (#[trigger] first_seats(lobby, cap)[i]).peer
                == Some(lobby.ids[i]),
{
    let seats = first_seats(lobby, cap);
    assert forall|i: int| 0 <= i < seats.len() implies persist::token(
        #[trigger] seats[i].player,
    ) by {
        assert(net::named(lobby.names, lobby.ids[i]) is Some);
        lemma_named_sound(lobby.names, lobby.ids[i]);
    }
}

proof fn lemma_named_sound(names: Seq<(PeerId, Seq<char>)>, peer: PeerId)
    requires
        forall|i: int| 0 <= i < names.len() ==> persist::token(#[trigger] names[i].1),
    ensures
        net::named(names, peer) matches Some(name) ==> persist::token(name),
    decreases names.len(),
{
    if names.len() > 0 && names[0].0 != peer {
        let rest = names.drop_first();
        assert forall|i: int| 0 <= i < rest.len() implies persist::token(#[trigger] rest[i].1) by {
            assert(rest[i] == names[i + 1]);
        }
        lemma_named_sound(rest, peer);
    }
}

/// Nobody starts a second match in a room: a host that knows of one being played,
/// or is on its way into one, does not start.
pub proof fn a_room_has_one_match(
    lobby: LobbyModel,
    player: Seq<char>,
    cap: nat,
    connected: bool,
    joining: bool,
    going: bool,
)
    requires
        lobby.away is Some || lobby.roster is Some || joining || going,
    ensures
        !start_due(lobby, player, cap, connected, joining, going),
{
}

// ---------------------------------------------------------------------------
// Letting somebody back in.
// ---------------------------------------------------------------------------

/// The generation after this one, while there is a channel for it.
pub fn next_generation(current: u32) -> (out: Option<u32>)
    requires
        current < u32::MAX,
    ensures
        match out {
            Some(next) => next == current + 1 && next < SESSION_CHANNELS,
            None => current + 1 >= SESSION_CHANNELS,
        },
{
    let next: u32 = current + 1;
    if next as usize >= SESSION_CHANNELS {
        None
    } else {
        Some(next)
    }
}

/// Rebuilds the match: the start to act on ourselves, and the message for
/// everybody else in it.
pub fn serve_rejoin(generation: u32, seats: Vec<Seat>, me: Option<PeerId>, blob: &str) -> (out: (
    PendingGo,
    Letter,
))
    ensures
        ({
            let listed = roster::roster(seats@);
            &&& out.0@ == (GoModel { generation, seats: listed, world: Some(blob@) })
            &&& out.1.text@ == GO@ + wire::go_body(generation, listed, blob@)
            &&& out.1.to@ == others(listed, me)
        }),
{
    let message = go_message(generation, &seats, blob);
    let to = list_others(&seats, me);
    (PendingGo { generation, seats, world: Some(text::copy_of(blob)) }, Letter { text: message, to })
}

// ---------------------------------------------------------------------------
// Taking a start up.
// ---------------------------------------------------------------------------

/// Who provides a handle's input.
#[derive(Debug, Clone, Copy, PartialEq, Eq, Structural)]
pub enum SeatKind {
    Local,
    Remote(PeerId),
}

/// A seat's input comes from its peer, unless that is us or nobody is there: a
/// vacant seat is played by everybody alike.
pub open spec fn kind_of(seat: SeatModel, me: PeerId) -> SeatKind {
    match seat.peer {
        Some(p) => if p == me {
            SeatKind::Local
        } else {
            SeatKind::Remote(p)
        },
        None => SeatKind::Local,
    }
}

/// The channel of a generation.
pub open spec fn channel_of(generation: int) -> int {
    GGRS_CHANNEL_BASE + generation
}

/// The peers in these seats whom we cannot reach, in seat order.
pub open spec fn missing_peers(seats: Seq<SeatModel>, lobby: LobbyModel) -> Seq<PeerId>
    decreases seats.len(),
{
    if seats.len() == 0 {
        Seq::empty()
    } else {
        let rest = missing_peers(seats.drop_last(), lobby);
        match seats.last().peer {
            Some(p) => if net::reaches(lobby, p) {
                rest
            } else {
                rest.push(p)
            },
            None => rest,
        }
    }
}

/// A session that is ready to be built.
#[derive(Debug)]
pub struct PendingSession {
    pub players: Vec<SeatKind>,
    pub channel: usize,
    pub world: Option<String>,
    pub room: MatchRoom,
}

/// What becomes of a start.
#[derive(Debug)]
pub enum Adoption {
    /// We are not in the room yet.
    Unconnected,
    /// It has no seat for us: it is dropped.
    NoSeat,
    /// Somebody in it cannot be reached yet.
    Waiting(Vec<PeerId>),
    /// It is beyond the last channel: it is dropped.
    NoChannel,
    /// Everybody is there.
    Ready(PendingSession),
}

fn list_missing(seats: &Vec<Seat>, lobby: &Lobby) -> (out: Vec<PeerId>)
    ensures
        out@ == missing_peers(roster::roster(seats@), lobby@),
{
    let mut out: Vec<PeerId> = Vec::new();
    let mut i: usize = 0;
    let ghost all = roster::roster(seats@);
    assert(all.take(0) =~= Seq::empty());
    while i < seats.len()
        invariant
            i <= seats.len(),
            all == roster::roster(seats@),
            out@ == missing_peers(all.take(i as int), lobby@),
        decreases seats.len() - i,
    {
        proof {
            assert(all.take(i + 1).drop_last() =~= all.take(i as int));
            assert(all.take(i + 1).last() == seats@[i as int]@);
        }
        if let Some(p) = seats[i].peer {
            if !reachable(lobby, p) {
                out.push(p);
            }
        }
        i = i + 1;
    }
    assert(all.take(i as int) =~= all);
    out
}

/// What becomes of a start: it waits until everybody in it can be reached, and
/// then becomes a session on a channel of its own.
pub fn adopt_pending_go(going: &PendingGo, lobby: &Lobby, player: &str) -> (out: Adoption)
    ensures
        ({
            let go = going@;
            let seat = net::seat_at(go.seats, player@, 0);
            let missing = missing_peers(go.seats, lobby@);
            match out {
                Adoption::Unconnected => lobby@.my_id is None,
                Adoption::NoSeat => lobby@.my_id is Some && seat is None,
                Adoption::Waiting(peers) => {
                    &&& lobby@.my_id is Some
                    &&& seat is Some
                    &&& missing.len() > 0
                    &&& peers@ == missing
                },
                Adoption::NoChannel => {
                    &&& lobby@.my_id is Some
                    &&& seat is Some
                    &&& missing.len() == 0
                    &&& go.generation >= SESSION_CHANNELS
                },
                Adoption::Ready(session) => {
                    &&& lobby@.my_id is Some
                    &&& seat is Some
                    &&& missing.len() == 0
                    &&& go.generation < SESSION_CHANNELS
                    &&& session.channel == channel_of(go.generation as int)
                    &&& session.players@ == go.seats.map_values(
                        |s: SeatModel| kind_of(s, lobby@.my_id->0),
                    )
                    &&& wire::text_view(session.world) == go.world
                    &&& session.room@ == (RoomModel {
                        generation: go.generation,
                        seats: go.seats,
                        me: (seat->0) as usize,
                    })
                },
            }
        }),
{
    let my_id: PeerId = match lobby.my_id {
        Some(id) => id,
        None => return Adoption::Unconnected,
    };
    let me: usize = match find_seat(&going.seats, player) {
        Some(h) => h,
        None => return Adoption::NoSeat,
    };
    let missing = list_missing(&going.seats, lobby);
    if missing.len() > 0 {
        return Adoption::Waiting(missing);
    }
    if going.generation as usize >= SESSION_CHANNELS {
        return Adoption::NoChannel;
    }
    let mut players: Vec<SeatKind> = Vec::new();
    let mut i: usize = 0;
    let ghost wanted = going@.seats.map_values(|s: SeatModel| kind_of(s, lobby@.my_id->0));
    while i < going.seats.len()
        invariant
            i <= going.seats.len(),
            lobby.my_id == Some(my_id),
            wanted == going@.seats.map_values(|s: SeatModel| kind_of(s, lobby@.my_id->0)),
            players@ == wanted.take(i as int),
        decreases going.seats.len() - i,
    {
        let kind = match going.seats[i].peer {
            Some(p) => if p == my_id {
                SeatKind::Local
            } else {
                SeatKind::Remote(p)
            },
            None => SeatKind::Local,
        };
        players.push(kind);
        assert(wanted[i as int] == kind);
        assert(wanted.take(i + 1) =~= wanted.take(i as int).push(kind));
        i = i + 1;
    }
    assert(wanted.take(i as int) =~= wanted);
    let world: Option<String> = match &going.world {
        Some(blob) => Some(text::copy_of(blob.as_str())),
        None => None,
    };
    Adoption::Ready(
        PendingSession {
            players,
            channel: GGRS_CHANNEL_BASE + going.generation as usize,
            world,
            room: MatchRoom { generation: going.generation, seats: copy_seats(&going.seats), me },
        },
    )
}

/// Every generation that is adopted has a channel of its own, apart from the one
/// that the room talks on.
pub proof fn every_generation_has_a_channel(a: int, b: int)
    requires
        0 <= a < SESSION_CHANNELS,
        0 <= b < SESSION_CHANNELS,
    ensures
        LOBBY_CHANNEL < channel_of(a) < GGRS_CHANNEL_BASE + SESSION_CHANNELS,
        a != b ==> channel_of(a) != channel_of(b),
{
}

/// Two players of one match agree on every seat but their own two: a vacant seat
/// is local to both, and any third one's is remote to both, from the same peer.
pub proof fn players_agree_on_third_seats(seat: SeatModel, a: PeerId, b: PeerId)
    requires
        seat.peer != Some(a),
        seat.peer != Some(b),
    ensures
        kind_of(seat, a) == kind_of(seat, b),
        seat.peer is None ==> kind_of(seat, a) == SeatKind::Local,
        seat.peer matches Some(p) ==> kind_of(seat, a) == SeatKind::Remote(p),
{
}

/// A seat that somebody sits in is local to them alone.
pub proof fn a_seat_is_local_to_its_own_peer(seat: SeatModel, me: PeerId)
    requires
        seat.peer is Some,
    ensures
        kind_of(seat, me) == SeatKind::Local <==> seat.peer == Some(me),
{
}

/// Sets the dials as a stored match has them: never more bots than pawns, and no
/// change to the push where none was stored.
pub fn apply_dials(dials: Dials, bots: &mut BotCount, aggro: &mut Aggression)
    ensures
        final(bots).0 == (if dials.bots < MAX_PLAYERS {
            dials.bots as int
        } else {
            MAX_PLAYERS as int
        }),
        final(aggro).0 == (if dials.aggro > 0 {
            dials.aggro
        } else {
            old(aggro).0
        }),
{
    bots.0 = if (dials.bots as usize) < MAX_PLAYERS {
        dials.bots as usize
    } else {
        MAX_PLAYERS
    };
    if dials.aggro > 0 {
        aggro.0 = dials.aggro;
    }
}

// ---------------------------------------------------------------------------
// What holds of every start.
// ---------------------------------------------------------------------------

/// In a first start everybody sits in the seat of their place in the room, under the
/// name that they gave; names being different, everybody finds that seat by their own
/// name.
pub proof fn everybody_sits_under_their_own_name(lobby: LobbyModel, cap: nat, i: int)
    requires
        0 <= i < lobby.ids.len(),
        i < cap,
        forall|k: int|
            0 <= k < lobby.ids.len() ==> net::named(lobby.names, #[trigger] lobby.ids[k]) is Some,
    ensures
        i < first_seats(lobby, cap).len(),
        first_seats(lobby, cap)[i].peer == Some(lobby.ids[i]),
        Some(first_seats(lobby, cap)[i].player) == net::named(lobby.names, lobby.ids[i]),
        (forall|k: int|
            0 <= k < i ==> net::named(lobby.names, #[trigger] lobby.ids[k]) != net::named(
                lobby.names,
                lobby.ids[i],
            )) ==> net::seat_at(
            first_seats(lobby, cap),
            net::named(lobby.names, lobby.ids[i])->0,
            0,
        ) == Some(i),
{
    let seats = first_seats(lobby, cap);
    let name = net::named(lobby.names, lobby.ids[i])->0;
    if forall|k: int|
        0 <= k < i ==> net::named(lobby.names, #[trigger] lobby.ids[k]) != net::named(
            lobby.names,
            lobby.ids[i],
        ) {
        assert forall|k: int| 0 <= k < i implies (#[trigger] seats[k]).player != name by {
            assert(net::named(lobby.names, lobby.ids[k]) is Some);
        }
        net::a_player_sits_where_their_name_stands(seats, name, i);
    }
}

/// A first start has a seat for everybody in the room, as far as the seats go.
pub proof fn a_first_start_leaves_no_seat_out(lobby: LobbyModel, cap: nat)
    ensures
        lobby.ids.len() <= cap ==> first_seats(lobby, cap).len() == lobby.ids.len(),
        lobby.ids.len() > cap ==> first_seats(lobby, cap).len() == cap,
{
}

/// A start that is asked for is made, and so is one that fills the seats, by a host in
/// company whom nothing keeps, once everybody has a name and the host has a seat.
pub proof fn a_start_comes_when_it_can(
    lobby: LobbyModel,
    player: Seq<char>,
    cap: nat,
    k: int,
)
    requires
        lobby.roster is None,
        lobby.away is None,
        lobby.my_id is Some,
        lobby.is_host,
        lobby.ids.len() >= 2,
        lobby.start_requested || lobby.ids.len() >= cap,
        forall|i: int|
            0 <= i < lobby.ids.len() ==> net::named(lobby.names, #[trigger] lobby.ids[i]) is Some,
        0 <= k < lobby.ids.len(),
        k < cap,
        net::named(lobby.names, lobby.ids[k]) == Some(player),
    ensures
        start_due(lobby, player, cap, true, false, false),
{
    let seats = first_seats(lobby, cap);
    assert(seats[k].player == player);
    net::lemma_seat_at(seats, player, 0);
}

/// Nothing starts without a connection, by anybody but the host, for one alone, unasked
/// before the seats are taken, while somebody has no name, or without a seat of our own.
pub proof fn a_start_waits_while_it_must(
    lobby: LobbyModel,
    player: Seq<char>,
    cap: nat,
    connected: bool,
    joining: bool,
    going: bool,
    k: int,
)
    requires
        start_due(lobby, player, cap, connected, joining, going),
        0 <= k < lobby.ids.len(),
    ensures
        connected,
        !joining,
        !going,
        lobby.roster is None,
        lobby.away is None,
        lobby.my_id is Some,
        lobby.is_host,
        lobby.ids.len() >= 2,
        !lobby.start_requested ==> lobby.ids.len() >= cap,
        net::named(lobby.names, lobby.ids[k]) is Some,
        exists|i: int|
            0 <= i < lobby.ids.len() && i < cap && net::named(lobby.names, #[trigger] lobby.ids[i])
                == Some(player),
{
    let seats = first_seats(lobby, cap);
    net::lemma_seat_at(seats, player, 0);
    let h = net::seat_at(seats, player, 0)->0;
    assert(net::named(lobby.names, lobby.ids[k]) is Some);
    assert(net::named(lobby.names, lobby.ids[h]) is Some);
    assert(net::named(lobby.names, lobby.ids[h]) == Some(player));
}

/// A start goes to the peer in every seat that is not our own, in seat order, and to
/// nobody else.
pub proof fn a_start_goes_to_every_other_seat(seats: Seq<SeatModel>, me: Option<PeerId>)
    ensures
        others(seats, me) == seats.filter(
            |s: SeatModel| s.peer is Some && s.peer != me,
        ).map_values(|s: SeatModel| s.peer->0),
    decreases seats.len(),
{
    let keep = |s: SeatModel| s.peer is Some && s.peer != me;
    let peer = |s: SeatModel| s.peer->0;
    order::lemma_filter_last(seats, keep);
    if seats.len() > 0 {
        let rest = seats.drop_last();
        a_start_goes_to_every_other_seat(rest, me);
        assert(rest.filter(keep).push(seats.last()).map_values(peer) =~= rest.filter(
            keep,
        ).map_values(peer).push(seats.last().peer->0));
    } else {
        assert(seats.filter(keep).map_values(peer) =~= Seq::<PeerId>::empty());
    }
}

/// A start waits for the peer in every seat whom we cannot reach, in seat order, and for
/// nobody else.
pub proof fn a_start_waits_for_whoever_is_out_of_reach(seats: Seq<SeatModel>, lobby: LobbyModel)
    ensures
        missing_peers(seats, lobby) == seats.filter(
            |s: SeatModel| s.peer is Some && !net::reaches(lobby, s.peer->0),
        ).map_values(|s: SeatModel| s.peer->0),
    decreases seats.len(),
{
    let keep = |s: SeatModel| s.peer is Some && !net::reaches(lobby, s.peer->0);
    let peer = |s: SeatModel| s.peer->0;
    order::lemma_filter_last(seats, keep);
    if seats.len() > 0 {
        let rest = seats.drop_last();
        a_start_waits_for_whoever_is_out_of_reach(rest, lobby);
        assert(rest.filter(keep).push(seats.last()).map_values(peer) =~= rest.filter(
            keep,
        ).map_values(peer).push(seats.last().peer->0));
    } else {
        assert(seats.filter(keep).map_values(peer) =~= Seq::<PeerId>::empty());
    }
}

/// The generations take the channels one after the other, beginning right behind the
/// room's own.
pub proof fn generations_take_the_channels_in_turn(generation: int)
    ensures
        channel_of(0) == LOBBY_CHANNEL + 1,
        channel_of(generation + 1) == channel_of(generation) + 1,
{
}

} // verus!
