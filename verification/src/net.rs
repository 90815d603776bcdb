//! The room: who is in it, who is in the match, and how somebody who dropped out
//! gets their seat back.

use vstd::prelude::*;

use crate::peer::PeerId;
use crate::roster;
use crate::roster::{Seat, SeatModel};
use crate::text;
use crate::wire;
use crate::wire::{MatchRoom, RoomModel};

verus! {

/// The channel that the room talks on.
pub const LOBBY_CHANNEL: usize = 0;

/// The channel of the first session; each rebuild takes the next one.
pub const GGRS_CHANNEL_BASE: usize = 1;

/// How many sessions a room can go through.
pub const SESSION_CHANNELS: usize = 8;

/// Frames between two requests for our seat.
pub const REJOIN_RETRY_FRAMES: u32 = 20;

// ---------------------------------------------------------------------------
// Seats.
// ---------------------------------------------------------------------------

/// The first seat, from `from` on, that is this player's.
pub open spec fn seat_at(seats: Seq<SeatModel>, player: Seq<char>, from: int) -> Option<int>
    decreases seats.len() - from,
{
    if from >= seats.len() {
        None
    } else if seats[from].player == player {
        Some(from)
    } else {
        seat_at(seats, player, from + 1)
    }
}

/// The first seat, from `from` on, that somebody sits in.
pub open spec fn occupied_at(seats: Seq<SeatModel>, from: int) -> Option<int>
    decreases seats.len() - from,
{
    if from >= seats.len() {
        None
    } else if seats[from].peer is Some {
        Some(from)
    } else {
        occupied_at(seats, from + 1)
    }
}

pub proof fn lemma_seat_at(seats: Seq<SeatModel>, player: Seq<char>, from: int)
    requires
        0 <= from <= seats.len(),
    ensures
        match seat_at(seats, player, from) {
            Some(h) => {
                &&& from <= h < seats.len()
                &&& seats[h].player == player
                &&& forall|i: int| from <= i < h ==> (#[trigger] seats[i]).player != player
            },
            None => forall|i: int|
                from <= i < seats.len() ==> (#[trigger] seats[i]).player != player,
        },
    decreases seats.len() - from,
{
    if from < seats.len() && seats[from].player != player {
        lemma_seat_at(seats, player, from + 1);
    }
}

pub proof fn lemma_occupied_at(seats: Seq<SeatModel>, from: int)
    requires
        0 <= from <= seats.len(),
    ensures
        match occupied_at(seats, from) {
            Some(h) => {
                &&& from <= h < seats.len()
                &&& seats[h].peer is Some
                &&& forall|i: int| from <= i < h ==> (#[trigger] seats[i]).peer is None
            },
            None => forall|i: int| from <= i < seats.len() ==> (#[trigger] seats[i]).peer is None,
        },
    decreases seats.len() - from,
{
    if from < seats.len() && seats[from].peer is None {
        lemma_occupied_at(seats, from + 1);
    }
}

/// A place in a row, as the number that code has for it.
pub open spec fn index(at: Option<int>) -> Option<usize> {
    match at {
        Some(h) => Some(h as usize),
        None => None,
    }
}

pub(crate) fn find_seat(seats: &Vec<Seat>, player: &str) -> (out: Option<usize>)
    ensures
        out == index(seat_at(roster::roster(seats@), player@, 0)),
        match out {
            Some(h) => h < seats.len() && seats[h as int].player@ == player@,
            None => true,
        },
{
    let mut i: usize = 0;
    while i < seats.len()
        invariant
            i <= seats.len(),
            seat_at(roster::roster(seats@), player@, 0) == seat_at(
                roster::roster(seats@),
                player@,
                i as int,
            ),
        decreases seats.len() - i,
    {
        if text::same_str(seats[i].player.as_str(), player) {
            return Some(i);
        }
        i = i + 1;
    }
    None
}

/// The seat that is this player's.
pub fn seat_of(room: &MatchRoom, player: &str) -> (out: Option<usize>)
    ensures
        out == index(seat_at(room@.seats, player@, 0)),
        match out {
            Some(h) => h < room.seats.len() && room.seats[h as int].player@ == player@,
            None => true,
        },
{
    find_seat(&room.seats, player)
}

impl MatchRoom {
    /// Whether nobody sits at this handle, though it is a seat of the match.
    pub fn vacant(&self, handle: usize) -> (yes: bool)
        ensures
            yes == (handle < self@.seats.len() && self@.seats[handle as int].peer is None),
    {
        handle < self.seats.len() && self.seats[handle].peer.is_none()
    }

    /// The one seat that sends the dials: the first that somebody sits in.
    pub fn dial_holder(&self) -> (out: Option<usize>)
        ensures
            out == index(occupied_at(self@.seats, 0)),
            match out {
                Some(h) => {
                    &&& h < self@.seats.len()
                    &&& self@.seats[h as int].peer is Some
                    &&& forall|i: int| 0 <= i < h ==> (#[trigger] self@.seats[i]).peer is None
                },
                None => forall|i: int|
                    0 <= i < self@.seats.len() ==> (#[trigger] self@.seats[i]).peer is None,
            },
    {
        proof {
            lemma_occupied_at(self@.seats, 0);
        }
        let mut i: usize = 0;
        while i < self.seats.len()
            invariant
                i <= self.seats.len(),
                occupied_at(self@.seats, 0) == occupied_at(self@.seats, i as int),
            decreases self.seats.len() - i,
        {
            if self.seats[i].peer.is_some() {
                proof {
                    lemma_occupied_at(self@.seats, 0);
                }
                return Some(i);
            }
            i = i + 1;
        }
        None
    }
}

// ---------------------------------------------------------------------------
// The lobby.
// ---------------------------------------------------------------------------

/// What we know of the room.
#[derive(Debug)]
pub struct Lobby {
    /// Everybody connected, ourselves included, lowest first.
    pub ids: Vec<PeerId>,
    pub my_id: Option<PeerId>,
    pub is_host: bool,
    /// The roster of the match that is starting.
    pub roster: Option<Vec<Seat>>,
    pub start_requested: bool,
    /// Who has told us what they are called.
    pub names: Vec<(PeerId, String)>,
    /// Who has said anything at all since they came.
    pub heard: Vec<PeerId>,
    /// Whom we have introduced ourselves to, and which match we were in then.
    pub greeted: Vec<PeerId>,
    pub greeted_at: Option<u32>,
    /// A match that is being played without us.
    pub away: Option<(u32, Vec<Seat>)>,
    /// Whether that match has a seat of ours in it.
    pub returning: bool,
    pub retry: u32,
}

#[verifier::ext_equal]
pub struct LobbyModel {
    pub ids: Seq<PeerId>,
    pub my_id: Option<PeerId>,
    pub is_host: bool,
    pub roster: Option<Seq<SeatModel>>,
    pub start_requested: bool,
    pub names: Seq<(PeerId, Seq<char>)>,
    pub heard: Seq<PeerId>,
    pub greeted: Seq<PeerId>,
    pub greeted_at: Option<u32>,
    pub away: Option<(u32, Seq<SeatModel>)>,
    pub returning: bool,
    pub retry: u32,
}

pub open spec fn names_view(names: Seq<(PeerId, String)>) -> Seq<(PeerId, Seq<char>)> {
    names.map_values(|n: (PeerId, String)| (n.0, n.1@))
}

pub open spec fn seats_view(seats: Option<Vec<Seat>>) -> Option<Seq<SeatModel>> {
    match seats {
        Some(s) => Some(roster::roster(s@)),
        None => None,
    }
}

impl View for Lobby {
    type V = LobbyModel;

    open spec fn view(&self) -> LobbyModel {
        LobbyModel {
            ids: self.ids@,
            my_id: self.my_id,
            is_host: self.is_host,
            roster: seats_view(self.roster),
            start_requested: self.start_requested,
            names: names_view(self.names@),
            heard: self.heard@,
            greeted: self.greeted@,
            greeted_at: self.greeted_at,
            away: wire::state_view(self.away),
            returning: self.returning,
            retry: self.retry,
        }
    }
}

impl Default for Lobby {
    fn default() -> (out: Self)
        ensures
            out@ == (LobbyModel {
                ids: Seq::empty(),
                my_id: None,
                is_host: false,
                roster: None,
                start_requested: false,
                names: Seq::empty(),
                heard: Seq::empty(),
                greeted: Seq::empty(),
                greeted_at: None,
                away: None,
                returning: false,
                retry: 0,
            }),
    {
        let out = Lobby {
            ids: Vec::new(),
            my_id: None,
            is_host: false,
            roster: None,
            start_requested: false,
            names: Vec::new(),
            heard: Vec::new(),
            greeted: Vec::new(),
            greeted_at: None,
            away: None,
            returning: false,
            retry: 0,
        };
        assert(out@.names =~= Seq::empty());
        out
    }
}

/// What a peer is called, if they have said.
pub open spec fn named(names: Seq<(PeerId, Seq<char>)>, peer: PeerId) -> Option<Seq<char>>
    decreases names.len(),
{
    if names.len() == 0 {
        None
    } else if names[0].0 == peer {
        Some(names[0].1)
    } else {
        named(names.drop_first(), peer)
    }
}

impl Lobby {
    /// What a peer is called, if they have said.
    pub fn name_of(&self, peer: PeerId) -> (out: Option<&str>)
        ensures
            (match out {
                Some(name) => Some(name@),
                None => None,
            }) == named(self@.names, peer),
    {
        let mut i: usize = 0;
        assert(self@.names.skip(0) =~= self@.names);
        while i < self.names.len()
            invariant
                i <= self.names.len(),
                named(self@.names, peer) == named(self@.names.skip(i as int), peer),
            decreases self.names.len() - i,
        {
            assert(self@.names.skip(i as int)[0] == (
                self.names@[i as int].0,
                self.names@[i as int].1@,
            ));
            if self.names[i].0 == peer {
                return Some(self.names[i].1.as_str());
            }
            assert(self@.names.skip(i as int).drop_first() =~= self@.names.skip(i + 1));
            i = i + 1;
        }
        None
    }
}

pub(crate) fn lists(row: &Vec<PeerId>, peer: PeerId) -> (yes: bool)
    ensures
        yes == row@.contains(peer),
{
    let mut i: usize = 0;
    while i < row.len()
        invariant
            i <= row.len(),
            forall|j: int| 0 <= j < i ==> row@[j] != peer,
        decreases row.len() - i,
    {
        if row[i] == peer {
            assert(row@[i as int] == peer);
            return true;
        }
        i = i + 1;
    }
    false
}

/// Whether we can get through to a peer: ourselves, anybody connected, and
/// anybody who has said something since they came.
pub open spec fn reaches(lobby: LobbyModel, peer: PeerId) -> bool {
    lobby.my_id == Some(peer) || lobby.ids.contains(peer) || lobby.heard.contains(peer)
}

pub fn reachable(lobby: &Lobby, peer: PeerId) -> (yes: bool)
    ensures
        yes == reaches(lobby@, peer),
{
    if let Some(me) = lobby.my_id {
        if me == peer {
            return true;
        }
    }
    lists(&lobby.ids, peer) || lists(&lobby.heard, peer)
}

/// The first seat, from `from` on, whose peer can be reached.
pub open spec fn answering_at(seats: Seq<SeatModel>, lobby: LobbyModel, from: int) -> Option<int>
    decreases seats.len() - from,
{
    if from >= seats.len() {
        None
    } else if seats[from].peer matches Some(p) && reaches(lobby, p) {
        Some(from)
    } else {
        answering_at(seats, lobby, from + 1)
    }
}

pub proof fn lemma_answering_at(seats: Seq<SeatModel>, lobby: LobbyModel, from: int)
    requires
        0 <= from <= seats.len(),
    ensures
        match answering_at(seats, lobby, from) {
            Some(h) => {
                &&& from <= h < seats.len()
                &&& seats[h].peer is Some
                &&& reaches(lobby, seats[h].peer->0)
            },
            None => true,
        },
    decreases seats.len() - from,
{
    if from < seats.len() && !(seats[from].peer matches Some(p) && reaches(lobby, p)) {
        lemma_answering_at(seats, lobby, from + 1);
    }
}

pub(crate) fn find_answering(seats: &Vec<Seat>, lobby: &Lobby) -> (out: Option<usize>)
    ensures
        out == index(answering_at(roster::roster(seats@), lobby@, 0)),
        match out {
            Some(h) => {
                &&& h < seats.len()
                &&& seats[h as int].peer is Some
                &&& answering_at(roster::roster(seats@), lobby@, 0) == Some(h as int)
            },
            None => true,
        },
{
    let mut i: usize = 0;
    while i < seats.len()
        invariant
            i <= seats.len(),
            answering_at(roster::roster(seats@), lobby@, 0) == answering_at(
                roster::roster(seats@),
                lobby@,
                i as int,
            ),
        decreases seats.len() - i,
    {
        if let Some(peer) = seats[i].peer {
            if reachable(lobby, peer) {
                return Some(i);
            }
        }
        i = i + 1;
    }
    None
}

/// Whose business it is to let somebody back in: the first seat whose peer can
/// be reached.
pub fn answering_peer(room: &MatchRoom, lobby: &Lobby) -> (out: Option<usize>)
    ensures
        out == index(answering_at(room@.seats, lobby@, 0)),
{
    find_answering(&room.seats, lobby)
}

/// A seat as the next generation has it: the returning player sits down again,
/// and whoever cannot be reached leaves theirs vacant.
pub open spec fn reseated_seat(
    seat: SeatModel,
    lobby: LobbyModel,
    returning: Seq<char>,
    peer: PeerId,
) -> SeatModel {
    SeatModel {
        player: seat.player,
        peer: if seat.player == returning {
            Some(peer)
        } else {
            match seat.peer {
                Some(p) => if reaches(lobby, p) {
                    Some(p)
                } else {
                    None
                },
                None => None,
            }
        },
    }
}

pub open spec fn reseated(
    seats: Seq<SeatModel>,
    lobby: LobbyModel,
    returning: Seq<char>,
    peer: PeerId,
) -> Seq<SeatModel> {
    seats.map_values(|s: SeatModel| reseated_seat(s, lobby, returning, peer))
}

/// The roster of the next generation.
pub fn reseat(room: &MatchRoom, lobby: &Lobby, returning: &str, peer: PeerId) -> (out: Vec<Seat>)
    ensures
        roster::roster(out@) == reseated(room@.seats, lobby@, returning@, peer),
{
    let mut out: Vec<Seat> = Vec::new();
    let mut i: usize = 0;
    let ghost wanted = reseated(room@.seats, lobby@, returning@, peer);
    while i < room.seats.len()
        invariant
            i <= room.seats.len(),
            wanted == reseated(room@.seats, lobby@, returning@, peer),
            roster::roster(out@) == wanted.take(i as int),
        decreases room.seats.len() - i,
    {
        let seat = &room.seats[i];
        let player = text::copy_of(seat.player.as_str());
        let here: Option<PeerId> = if text::same_str(seat.player.as_str(), returning) {
            Some(peer)
        } else {
            match seat.peer {
                Some(p) => {
                    if reachable(lobby, p) {
                        Some(p)
                    } else {
                        None
                    }
                },
                None => None,
            }
        };
        let next = Seat { player, peer: here };
        let ghost before = roster::roster(out@);
        out.push(next);
        assert(roster::roster(out@) =~= before.push(next@));
        assert(wanted[i as int] == next@);
        assert(wanted.take(i + 1) =~= before.push(wanted[i as int]));
        i = i + 1;
    }
    assert(wanted.take(i as int) =~= wanted);
    out
}

/// Letting somebody back in moves no handle: every player keeps their place, the
/// returning one is back in theirs, nobody who can be reached is disturbed, and
/// a seat is only ever vacated, never removed.
pub proof fn reseating_moves_no_handle(
    seats: Seq<SeatModel>,
    lobby: LobbyModel,
    returning: Seq<char>,
    peer: PeerId,
)
    ensures
        ({
            let next = reseated(seats, lobby, returning, peer);
            &&& next.len() == seats.len()
            &&& forall|i: int|
                0 <= i < seats.len() ==> {
                    &&& (#[trigger] next[i]).player == seats[i].player
                    &&& seats[i].player == returning ==> next[i].peer == Some(peer)
                    &&& seats[i].player != returning && (seats[i].peer matches Some(p) && reaches(
                        lobby,
                        p,
                    )) ==> next[i].peer == seats[i].peer
                    &&& seats[i].player != returning && !(seats[i].peer matches Some(p)
                        && reaches(lobby, p)) ==> next[i].peer is None
                }
        }),
        roster::sane(seats) ==> roster::sane(reseated(seats, lobby, returning, peer)),
{
}

proof fn lemma_same_answer(seats: Seq<SeatModel>, a: LobbyModel, b: LobbyModel, from: int)
    requires
        0 <= from,
        forall|i: int|
            0 <= i < seats.len() && (#[trigger] seats[i]).peer is Some ==> reaches(
                a,
                seats[i].peer->0,
            ) == reaches(b, seats[i].peer->0),
    ensures
        answering_at(seats, a, from) == answering_at(seats, b, from),
    decreases seats.len() - from,
{
    if from < seats.len() {
        lemma_same_answer(seats, a, b, from + 1);
    }
}

/// Of two players of one match who can reach the same people, at most one
/// answers a request to be let back in.
pub proof fn only_one_peer_answers(a: RoomModel, at_a: LobbyModel, b: RoomModel, at_b: LobbyModel)
    requires
        a.seats == b.seats,
        a.me != b.me,
        forall|i: int|
            0 <= i < a.seats.len() && (#[trigger] a.seats[i]).peer is Some ==> reaches(
                at_a,
                a.seats[i].peer->0,
            ) == reaches(at_b, a.seats[i].peer->0),
    ensures
        !(index(answering_at(a.seats, at_a, 0)) == Some(a.me) && index(
            answering_at(b.seats, at_b, 0),
        ) == Some(b.me)),
{
    lemma_same_answer(a.seats, at_a, at_b, 0);
}

/// Somebody answers whenever anybody who can be reached sits in the match.
pub proof fn somebody_answers(room: RoomModel, lobby: LobbyModel, h: int)
    requires
        0 <= h < room.seats.len(),
        room.seats[h].peer matches Some(p) && reaches(lobby, p),
    ensures
        answering_at(room.seats, lobby, 0) matches Some(first) && 0 <= first <= h,
{
    lemma_answers_by(room.seats, lobby, 0, h);
}

pub proof fn lemma_answers_by(seats: Seq<SeatModel>, lobby: LobbyModel, from: int, h: int)
    requires
        0 <= from <= h < seats.len(),
        seats[h].peer matches Some(p) && reaches(lobby, p),
    ensures
        answering_at(seats, lobby, from) matches Some(first) && from <= first <= h,
    decreases h - from,
{
    if !(seats[from].peer matches Some(p) && reaches(lobby, p)) {
        lemma_answers_by(seats, lobby, from + 1, h);
    }
}

// ---------------------------------------------------------------------------
// What holds of every room.
// ---------------------------------------------------------------------------

/// We get through to ourselves, to whoever is connected and to whoever has spoken
/// since they came, and to nobody else.
pub proof fn who_can_be_reached(lobby: LobbyModel, peer: PeerId)
    ensures
        lobby.my_id == Some(peer) ==> reaches(lobby, peer),
        lobby.ids.contains(peer) ==> reaches(lobby, peer),
        lobby.heard.contains(peer) ==> reaches(lobby, peer),
        lobby.my_id != Some(peer) && !lobby.ids.contains(peer) && !lobby.heard.contains(peer)
            ==> !reaches(lobby, peer),
{
}

/// The first seat whose peer can be reached is the one that answers, and without such
/// a seat none does.
pub proof fn the_first_seat_in_reach_answers(seats: Seq<SeatModel>, lobby: LobbyModel, h: int)
    requires
        0 <= h <= seats.len(),
        forall|i: int|
            0 <= i < h ==> !((#[trigger] seats[i]).peer matches Some(p) && reaches(lobby, p)),
        h < seats.len() ==> (seats[h].peer matches Some(p) && reaches(lobby, p)),
    ensures
        answering_at(seats, lobby, 0) == (if h < seats.len() {
            Some(h)
        } else {
            None
        }),
{
    lemma_nobody_before(seats, lobby, 0, h);
}

proof fn lemma_nobody_before(seats: Seq<SeatModel>, lobby: LobbyModel, from: int, h: int)
    requires
        0 <= from <= h <= seats.len(),
        forall|i: int|
            0 <= i < h ==> !((#[trigger] seats[i]).peer matches Some(p) && reaches(lobby, p)),
        h < seats.len() ==> (seats[h].peer matches Some(p) && reaches(lobby, p)),
    ensures
        answering_at(seats, lobby, from) == (if h < seats.len() {
            Some(h)
        } else {
            None
        }),
    decreases h - from,
{
    if from < h {
        assert(!(seats[from].peer matches Some(p) && reaches(lobby, p)));
        lemma_nobody_before(seats, lobby, from + 1, h);
    }
}

/// A player's seat is the first that bears their name.
pub proof fn a_player_sits_where_their_name_stands(
    seats: Seq<SeatModel>,
    player: Seq<char>,
    h: int,
)
    requires
        0 <= h <= seats.len(),
        forall|i: int| 0 <= i < h ==> (#[trigger] seats[i]).player != player,
        h < seats.len() ==> seats[h].player == player,
    ensures
        seat_at(seats, player, 0) == (if h < seats.len() {
            Some(h)
        } else {
            None
        }),
{
    lemma_seat_at(seats, player, 0);
    if seat_at(seats, player, 0) is Some {
        let at = seat_at(seats, player, 0)->0;
        if at < h {
            assert(seats[at].player != player);
        }
    }
}

/// What a peer is called is the first name they are listed under, and a peer who is
/// not listed has none.
pub proof fn a_peer_is_called_what_is_listed(
    names: Seq<(PeerId, Seq<char>)>,
    peer: PeerId,
    k: int,
)
    requires
        0 <= k <= names.len(),
        forall|i: int| 0 <= i < k ==> (#[trigger] names[i]).0 != peer,
        k < names.len() ==> names[k].0 == peer,
    ensures
        named(names, peer) == (if k < names.len() {
            Some(names[k].1)
        } else {
            None
        }),
    decreases names.len(),
{
    if names.len() > 0 && k > 0 {
        let rest = names.drop_first();
        assert(names[0].0 != peer);
        assert forall|i: int| 0 <= i < k - 1 implies (#[trigger] rest[i]).0 != peer by {
            assert(rest[i] == names[i + 1]);
        }
        a_peer_is_called_what_is_listed(rest, peer, k - 1);
    }
}

/// A name that is listed last counts for a peer who had none, and for nobody else.
pub proof fn a_name_listed_last(
    names: Seq<(PeerId, Seq<char>)>,
    from: PeerId,
    name: Seq<char>,
    peer: PeerId,
)
    ensures
        named(names, peer) is Some ==> named(names.push((from, name)), peer) == named(names, peer),
        named(names, peer) is None && peer == from ==> named(names.push((from, name)), peer)
            == Some(name),
        named(names, peer) is None && peer != from ==> named(names.push((from, name)), peer)
            is None,
    decreases names.len(),
{
    let more = names.push((from, name));
    if names.len() > 0 {
        assert(more.drop_first() =~= names.drop_first().push((from, name)));
        assert(more[0] == names[0]);
        a_name_listed_last(names.drop_first(), from, name, peer);
    } else {
        assert(more[0] == (from, name));
        assert(more.drop_first() =~= names);
    }
}

/// Contracts speak of the lobby by what it holds.
pub proof fn a_lobby_is_seen_as_it_is(lobby: Lobby, i: int)
    ensures
        lobby@.ids == lobby.ids@,
        lobby@.my_id == lobby.my_id,
        lobby@.is_host == lobby.is_host,
        lobby.roster matches Some(seats) ==> lobby@.roster == Some(roster::roster(seats@)),
        lobby.roster is None ==> lobby@.roster is None,
        lobby@.start_requested == lobby.start_requested,
        lobby@.names.len() == lobby.names@.len(),
        0 <= i < lobby.names@.len() ==> lobby@.names[i].0 == lobby.names@[i].0 && lobby@.names[i].1
            == lobby.names@[i].1@,
        lobby@.heard == lobby.heard@,
        lobby@.greeted == lobby.greeted@,
        lobby@.greeted_at == lobby.greeted_at,
        lobby.away matches Some(s) ==> lobby@.away == Some((s.0, roster::roster(s.1@))),
        lobby.away is None ==> lobby@.away is None,
        lobby@.returning == lobby.returning,
        lobby@.retry == lobby.retry,
{
}

/// A place that code can count to is counted as it is.
pub proof fn a_place_is_its_own_number(h: int)
    requires
        0 <= h <= usize::MAX,
    ensures
        index(Some(h)) matches Some(at) && at == h,
        index(None) is None,
{
}

} // verus!
