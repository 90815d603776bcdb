//! One frame of the room: see who is there, introduce ourselves to whoever does
//! not know us, act on what was said, and ask for our seat if we have lost it.

use vstd::prelude::*;

use crate::net;
use crate::net::{answering_peer, lists, reseat, seat_of, Lobby, LobbyModel,
    REJOIN_RETRY_FRAMES};
use crate::order;
use crate::peer::PeerId;
use crate::persist;
use crate::roster;
use crate::roster::{copy_seats, Seat, SeatModel};
use crate::text;
use crate::wire;
use crate::wire::{hi_message, parse_go, parse_hi, GoModel, MatchRoom, PendingGo, RoomModel, GO, HI,
    REJOIN};

verus! {

/// A message and whom to send it to, in order.
#[derive(Debug)]
pub struct Letter {
    pub text: String,
    pub to: Vec<PeerId>,
}

/// A message that arrived. Where it is a start that carries a world,
/// `world_reads` says whether that world could be decoded.
#[derive(Debug)]
pub struct Packet {
    pub from: PeerId,
    pub text: String,
    pub world_reads: bool,
}

pub struct PacketModel {
    pub from: PeerId,
    pub text: Seq<char>,
    pub world_reads: bool,
}

impl View for Packet {
    type V = PacketModel;

    open spec fn view(&self) -> PacketModel {
        PacketModel { from: self.from, text: self.text@, world_reads: self.world_reads }
    }
}

pub open spec fn packets_view(packets: Seq<Packet>) -> Seq<PacketModel> {
    packets.map_values(|p: Packet| p@)
}

// ---------------------------------------------------------------------------
// Rows of peers and names.
// ---------------------------------------------------------------------------

/// The peers of the row that are not in `gone`.
pub open spec fn staying(row: Seq<PeerId>, gone: Seq<PeerId>) -> Seq<PeerId> {
    row.filter(|p: PeerId| !gone.contains(p))
}

/// The peers of the row that are in `ids`.
pub open spec fn among(row: Seq<PeerId>, ids: Seq<PeerId>) -> Seq<PeerId> {
    row.filter(|p: PeerId| ids.contains(p))
}

/// Whom among `ids` we have not introduced ourselves to yet.
pub open spec fn strangers(ids: Seq<PeerId>, me: PeerId, greeted: Seq<PeerId>) -> Seq<PeerId> {
    ids.filter(|p: PeerId| p != me && !greeted.contains(p))
}

/// The names of the peers in `ids`.
pub open spec fn names_among(names: Seq<(PeerId, Seq<char>)>, ids: Seq<PeerId>) -> Seq<
    (PeerId, Seq<char>),
> {
    names.filter(|n: (PeerId, Seq<char>)| ids.contains(n.0))
}

/// The names of everybody but one peer.
pub open spec fn names_without(names: Seq<(PeerId, Seq<char>)>, peer: PeerId) -> Seq<
    (PeerId, Seq<char>),
> {
    names.filter(|n: (PeerId, Seq<char>)| n.0 != peer)
}

proof fn lemma_staying_push(row: Seq<PeerId>, gone: Seq<PeerId>, p: PeerId)
    ensures
        staying(row.push(p), gone) == if gone.contains(p) {
            staying(row, gone)
        } else {
            staying(row, gone).push(p)
        },
{
    reveal(Seq::filter);
    assert(row.push(p).drop_last() =~= row);
}

proof fn lemma_among_push(row: Seq<PeerId>, ids: Seq<PeerId>, p: PeerId)
    ensures
        among(row.push(p), ids) == if ids.contains(p) {
            among(row, ids).push(p)
        } else {
            among(row, ids)
        },
{
    reveal(Seq::filter);
    assert(row.push(p).drop_last() =~= row);
}

proof fn lemma_strangers_push(row: Seq<PeerId>, me: PeerId, greeted: Seq<PeerId>, p: PeerId)
    ensures
        strangers(row.push(p), me, greeted) == if p != me && !greeted.contains(p) {
            strangers(row, me, greeted).push(p)
        } else {
            strangers(row, me, greeted)
        },
{
    reveal(Seq::filter);
    assert(row.push(p).drop_last() =~= row);
}

proof fn lemma_names_among_push(
    names: Seq<(PeerId, Seq<char>)>,
    ids: Seq<PeerId>,
    n: (PeerId, Seq<char>),
)
    ensures
        names_among(names.push(n), ids) == if ids.contains(n.0) {
            names_among(names, ids).push(n)
        } else {
            names_among(names, ids)
        },
{
    reveal(Seq::filter);
    assert(names.push(n).drop_last() =~= names);
}

proof fn lemma_names_without_push(
    names: Seq<(PeerId, Seq<char>)>,
    peer: PeerId,
    n: (PeerId, Seq<char>),
)
    ensures
        names_without(names.push(n), peer) == if n.0 != peer {
            names_without(names, peer).push(n)
        } else {
            names_without(names, peer)
        },
{
    reveal(Seq::filter);
    assert(names.push(n).drop_last() =~= names);
}

fn keep_staying(row: &Vec<PeerId>, gone: &Vec<PeerId>) -> (out: Vec<PeerId>)
    ensures
        out@ == staying(row@, gone@),
{
    let mut out: Vec<PeerId> = Vec::new();
    let mut i: usize = 0;
    proof {
        reveal(Seq::filter);
        assert(row@.take(0) =~= Seq::empty());
    }
    while i < row.len()
        invariant
            i <= row.len(),
            out@ == staying(row@.take(i as int), gone@),
        decreases row.len() - i,
    {
        proof {
            lemma_staying_push(row@.take(i as int), gone@, row@[i as int]);
            assert(row@.take(i + 1) =~= row@.take(i as int).push(row@[i as int]));
        }
        if !lists(gone, row[i]) {
            out.push(row[i]);
        }
        i = i + 1;
    }
    assert(row@.take(i as int) =~= row@);
    out
}

fn keep_among(row: &Vec<PeerId>, ids: &Vec<PeerId>) -> (out: Vec<PeerId>)
    ensures
        out@ == among(row@, ids@),
{
    let mut out: Vec<PeerId> = Vec::new();
    let mut i: usize = 0;
    proof {
        reveal(Seq::filter);
        assert(row@.take(0) =~= Seq::empty());
    }
    while i < row.len()
        invariant
            i <= row.len(),
            out@ == among(row@.take(i as int), ids@),
        decreases row.len() - i,
    {
        proof {
            lemma_among_push(row@.take(i as int), ids@, row@[i as int]);
            assert(row@.take(i + 1) =~= row@.take(i as int).push(row@[i as int]));
        }
        if lists(ids, row[i]) {
            out.push(row[i]);
        }
        i = i + 1;
    }
    assert(row@.take(i as int) =~= row@);
    out
}

fn find_strangers(ids: &Vec<PeerId>, me: PeerId, greeted: &Vec<PeerId>) -> (out: Vec<PeerId>)
    ensures
        out@ == strangers(ids@, me, greeted@),
{
    let mut out: Vec<PeerId> = Vec::new();
    let mut i: usize = 0;
    proof {
        reveal(Seq::filter);
        assert(ids@.take(0) =~= Seq::empty());
    }
    while i < ids.len()
        invariant
            i <= ids.len(),
            out@ == strangers(ids@.take(i as int), me, greeted@),
        decreases ids.len() - i,
    {
        proof {
            lemma_strangers_push(ids@.take(i as int), me, greeted@, ids@[i as int]);
            assert(ids@.take(i + 1) =~= ids@.take(i as int).push(ids@[i as int]));
        }
        if ids[i] != me && !lists(greeted, ids[i]) {
            out.push(ids[i]);
        }
        i = i + 1;
    }
    assert(ids@.take(i as int) =~= ids@);
    out
}

fn keep_names_among(names: &Vec<(PeerId, String)>, ids: &Vec<PeerId>) -> (out: Vec<
    (PeerId, String),
>)
    ensures
        net::names_view(out@) == names_among(net::names_view(names@), ids@),
{
    let mut out: Vec<(PeerId, String)> = Vec::new();
    let mut i: usize = 0;
    let ghost all = net::names_view(names@);
    proof {
        reveal(Seq::filter);
        assert(all.take(0) =~= Seq::empty());
        assert(net::names_view(out@) =~= Seq::empty());
    }
    while i < names.len()
        invariant
            i <= names.len(),
            all == net::names_view(names@),
            net::names_view(out@) == names_among(all.take(i as int), ids@),
        decreases names.len() - i,
    {
        let ghost before = net::names_view(out@);
        proof {
            lemma_names_among_push(all.take(i as int), ids@, all[i as int]);
            assert(all.take(i + 1) =~= all.take(i as int).push(all[i as int]));
        }
        if lists(ids, names[i].0) {
            out.push((names[i].0, text::copy_of(names[i].1.as_str())));
            assert(net::names_view(out@) =~= before.push(all[i as int]));
        }
        i = i + 1;
    }
    assert(all.take(i as int) =~= all);
    out
}

fn keep_names_without(names: &Vec<(PeerId, String)>, peer: PeerId) -> (out: Vec<(PeerId, String)>)
    ensures
        net::names_view(out@) == names_without(net::names_view(names@), peer),
{
    let mut out: Vec<(PeerId, String)> = Vec::new();
    let mut i: usize = 0;
    let ghost all = net::names_view(names@);
    proof {
        reveal(Seq::filter);
        assert(all.take(0) =~= Seq::empty());
        assert(net::names_view(out@) =~= Seq::empty());
    }
    while i < names.len()
        invariant
            i <= names.len(),
            all == net::names_view(names@),
            net::names_view(out@) == names_without(all.take(i as int), peer),
        decreases names.len() - i,
    {
        let ghost before = net::names_view(out@);
        proof {
            lemma_names_without_push(all.take(i as int), peer, all[i as int]);
            assert(all.take(i + 1) =~= all.take(i as int).push(all[i as int]));
        }
        if names[i].0 != peer {
            out.push((names[i].0, text::copy_of(names[i].1.as_str())));
            assert(net::names_view(out@) =~= before.push(all[i as int]));
        }
        i = i + 1;
    }
    assert(all.take(i as int) =~= all);
    out
}

// ---------------------------------------------------------------------------
// Seeing who is there.
// ---------------------------------------------------------------------------

pub open spec fn generation_of(room: Option<RoomModel>) -> Option<u32> {
    match room {
        Some(r) => Some(r.generation),
        None => None,
    }
}

/// Everybody in the room, ourselves included, lowest first.
pub open spec fn everybody(connected: Seq<PeerId>, me: PeerId) -> Seq<PeerId> {
    order::arranged(connected.push(me))
}

/// Whom we have already introduced ourselves to as we are now: an introduction
/// says which match we are in, so a new match means introducing ourselves anew.
pub open spec fn already_greeted(
    lobby: LobbyModel,
    ids: Seq<PeerId>,
    generation: Option<u32>,
) -> Seq<PeerId> {
    if lobby.greeted_at == generation {
        among(lobby.greeted, ids)
    } else {
        Seq::empty()
    }
}

/// The lobby once we have looked round the room.
pub open spec fn met(
    lobby: LobbyModel,
    me: PeerId,
    connected: Seq<PeerId>,
    gone: Seq<PeerId>,
    player: Seq<char>,
    generation: Option<u32>,
) -> LobbyModel {
    let ids = everybody(connected, me);
    let known = names_among(lobby.names, ids);
    let greeted = already_greeted(lobby, ids, generation);
    LobbyModel {
        ids,
        my_id: Some(me),
        is_host: ids[0] == me,
        names: if net::named(known, me) is Some {
            known
        } else {
            known.push((me, player))
        },
        heard: staying(lobby.heard, gone),
        greeted: greeted + strangers(ids, me, greeted),
        greeted_at: generation,
        ..lobby
    }
}

impl Lobby {
    /// Looks round the room, and gives the introduction to send and whom to.
    pub fn meet(
        &mut self,
        me: PeerId,
        connected: &Vec<PeerId>,
        gone: &Vec<PeerId>,
        player: &str,
        room: Option<&MatchRoom>,
    ) -> (hi: Letter)
        ensures
            final(self)@ == met(
                old(self)@,
                me,
                connected@,
                gone@,
                player@,
                generation_of(wire::room_view(room)),
            ),
            hi.text@ == HI@ + wire::hi_body(player@, wire::state_of(wire::room_view(room))),
            hi.to@ == strangers(
                everybody(connected@, me),
                me,
                already_greeted(
                    old(self)@,
                    everybody(connected@, me),
                    generation_of(wire::room_view(room)),
                ),
            ),
    {
        let generation: Option<u32> = match room {
            Some(r) => Some(r.generation),
            None => None,
        };
        let mut unordered: Vec<PeerId> = connected.clone();
        assert(unordered@ =~= connected@);
        unordered.push(me);
        let ids = order::arrange(&unordered);
        proof {
            order::arranging_puts_in_order(unordered@);
        }
        self.heard = keep_staying(&self.heard, gone);
        self.my_id = Some(me);
        self.is_host = ids[0] == me;
        self.names = keep_names_among(&self.names, &ids);
        if self.name_of(me).is_none() {
            let ghost known = self@.names;
            self.names.push((me, text::copy_of(player)));
            assert(self@.names =~= known.push((me, player@)));
        }
        let mut greeted: Vec<PeerId> = Vec::new();
        if self.greeted_at == generation {
            greeted = keep_among(&self.greeted, &ids);
        }
        self.greeted_at = generation;
        let to = find_strangers(&ids, me, &greeted);
        let mut more: Vec<PeerId> = to.clone();
        assert(more@ =~= to@);
        greeted.append(&mut more);
        self.greeted = greeted;
        self.ids = ids;
        Letter { text: hi_message(player, room), to }
    }
}

proof fn lemma_strangers(ids: Seq<PeerId>, me: PeerId, greeted: Seq<PeerId>, p: PeerId)
    ensures
        strangers(ids, me, greeted).contains(p) <==> ids.contains(p) && p != me
            && !greeted.contains(p),
    decreases ids.len(),
{
    reveal(Seq::filter);
    if ids.len() > 0 {
        let rest = ids.drop_last();
        let last = ids.last();
        let before = strangers(rest, me, greeted);
        let all = strangers(ids, me, greeted);
        lemma_strangers(rest, me, greeted, p);
        lemma_strangers_push(rest, me, greeted, last);
        assert(ids =~= rest.push(last));
        assert(ids[ids.len() - 1] == last);
        if rest.contains(p) {
            let k = choose|k: int| 0 <= k < rest.len() && rest[k] == p;
            assert(ids[k] == p);
        }
        if ids.contains(p) && !rest.contains(p) {
            let k = choose|k: int| 0 <= k < ids.len() && ids[k] == p;
            if k < rest.len() {
                assert(rest[k] == p);
            }
        }
        if before.contains(p) {
            let k = choose|k: int| 0 <= k < before.len() && before[k] == p;
            assert(all[k] == p);
        }
        if last != me && !greeted.contains(last) {
            assert(all[before.len() as int] == last);
        }
    }
}

/// Once we have looked round, everybody present but ourselves has our introduction
/// as we are now, and looking round again would greet nobody anew.
pub proof fn everybody_present_is_greeted_once(
    lobby: LobbyModel,
    me: PeerId,
    connected: Seq<PeerId>,
    gone: Seq<PeerId>,
    player: Seq<char>,
    generation: Option<u32>,
    p: PeerId,
)
    ensures
        ({
            let after = met(lobby, me, connected, gone, player, generation);
            &&& after.ids.contains(p) && p != me ==> after.greeted.contains(p)
            &&& !strangers(after.ids, me, after.greeted).contains(p)
        }),
{
    let ids = everybody(connected, me);
    let before = already_greeted(lobby, ids, generation);
    let fresh = strangers(ids, me, before);
    let after = met(lobby, me, connected, gone, player, generation);
    lemma_strangers(ids, me, before, p);
    lemma_strangers(after.ids, me, after.greeted, p);
    if ids.contains(p) && p != me {
        if before.contains(p) {
            let k = choose|k: int| 0 <= k < before.len() && before[k] == p;
            assert(after.greeted[k] == p);
        } else {
            let k = choose|k: int| 0 <= k < fresh.len() && fresh[k] == p;
            assert(after.greeted[before.len() + k] == p);
        }
    }
}

/// Peers who see the same people see them in the same order, so they agree on who
/// hosts: of two of them at most one does.
pub proof fn a_room_has_one_host(
    a: LobbyModel,
    b: LobbyModel,
    me_a: PeerId,
    me_b: PeerId,
    seen_a: Seq<PeerId>,
    seen_b: Seq<PeerId>,
    gone_a: Seq<PeerId>,
    gone_b: Seq<PeerId>,
    player_a: Seq<char>,
    player_b: Seq<char>,
    at_a: Option<u32>,
    at_b: Option<u32>,
)
    requires
        me_a != me_b,
        seen_a.push(me_a).to_multiset() == seen_b.push(me_b).to_multiset(),
    ensures
        ({
            let left = met(a, me_a, seen_a, gone_a, player_a, at_a);
            let right = met(b, me_b, seen_b, gone_b, player_b, at_b);
            &&& left.ids == right.ids
            &&& !(left.is_host && right.is_host)
        }),
{
    order::arranging_forgets_the_order_of_arrival(seen_a.push(me_a), seen_b.push(me_b));
}

// ---------------------------------------------------------------------------
// Acting on what was said.
// ---------------------------------------------------------------------------

/// Where hearing a frame's messages has got to.
#[derive(Debug)]
pub struct Hearing {
    /// Who wants their seat back, and what they are called.
    pub rejoining: Option<(PeerId, String)>,
    /// The start that will be acted on.
    pub go: Option<PendingGo>,
}

#[verifier::ext_equal]
pub struct HearingModel {
    pub lobby: LobbyModel,
    pub rejoining: Option<(PeerId, Seq<char>)>,
    pub go: Option<GoModel>,
}

pub open spec fn rejoining_view(r: Option<(PeerId, String)>) -> Option<(PeerId, Seq<char>)> {
    match r {
        Some(who) => Some((who.0, who.1@)),
        None => None,
    }
}

pub open spec fn hearing_view(lobby: LobbyModel, hearing: Hearing) -> HearingModel {
    HearingModel {
        lobby,
        rejoining: rejoining_view(hearing.rejoining),
        go: wire::go_view(hearing.go),
    }
}

/// Whether the match has a seat of this player's that another peer, or nobody,
/// sits in.
pub open spec fn displaced(room: Option<RoomModel>, name: Seq<char>, from: PeerId) -> bool {
    match room {
        Some(r) => match net::seat_at(r.seats, name, 0) {
            Some(h) => r.seats[h].peer != Some(from),
            None => false,
        },
        None => false,
    }
}

/// Whether a start is old news: not later than the match we are in, or than the
/// start we are already acting on.
pub open spec fn stale(generation: u32, room: Option<RoomModel>, going: Option<u32>) -> bool {
    ||| room matches Some(r) && generation <= r.generation
    ||| going matches Some(g) && generation <= g
}

/// After an introduction: the sender's name is what they say, the match they are
/// in is the one being played without us, and if they have lost their seat in
/// ours they are the first to want it back.
pub open spec fn heard_hi(
    h: HearingModel,
    from: PeerId,
    rest: Seq<char>,
    player: Seq<char>,
    room: Option<RoomModel>,
) -> HearingModel {
    match wire::read_hi(rest) {
        Some((name, state)) => HearingModel {
            lobby: LobbyModel {
                names: names_without(h.lobby.names, from).push((from, name)),
                returning: match state {
                    Some((generation, seats)) => net::seat_at(seats, player, 0) is Some,
                    None => h.lobby.returning,
                },
                away: match state {
                    Some(s) => Some(s),
                    None => h.lobby.away,
                },
                ..h.lobby
            },
            rejoining: if h.rejoining is None && displaced(room, name, from) {
                Some((from, name))
            } else {
                h.rejoining
            },
            ..h
        },
        None => h,
    }
}

/// After a request for a seat.
pub open spec fn heard_rejoin(
    h: HearingModel,
    from: PeerId,
    name: Seq<char>,
    room: Option<RoomModel>,
) -> HearingModel {
    if displaced(room, name, from) {
        HearingModel { rejoining: Some((from, name)), ..h }
    } else {
        h
    }
}

/// After a start: it is taken up unless it is old news or its world is garbled.
pub open spec fn heard_go(
    h: HearingModel,
    rest: Seq<char>,
    world_reads: bool,
    room: Option<RoomModel>,
    going: Option<u32>,
) -> HearingModel {
    match wire::read_go(rest) {
        Some(go) => if (go.world is Some && !world_reads) || stale(go.generation, room, going) {
            h
        } else {
            HearingModel {
                lobby: LobbyModel { roster: Some(go.seats), ..h.lobby },
                go: Some(go),
                ..h
            }
        },
        None => h,
    }
}

/// The lobby once it has noticed that a peer speaks.
pub open spec fn noticed(lobby: LobbyModel, from: PeerId) -> LobbyModel {
    LobbyModel {
        heard: if lobby.heard.contains(from) {
            lobby.heard
        } else {
            lobby.heard.push(from)
        },
        ..lobby
    }
}

/// After one message.
pub open spec fn heard_one(
    h: HearingModel,
    packet: PacketModel,
    player: Seq<char>,
    room: Option<RoomModel>,
    going: Option<u32>,
) -> HearingModel {
    let h = HearingModel { lobby: noticed(h.lobby, packet.from), ..h };
    match text::after(packet.text, HI@) {
        Some(rest) => heard_hi(h, packet.from, rest, player, room),
        None => match text::after(packet.text, REJOIN@) {
            Some(name) => heard_rejoin(h, packet.from, name, room),
            None => match text::after(packet.text, GO@) {
                Some(rest) => heard_go(h, rest, packet.world_reads, room, going),
                None => h,
            },
        },
    }
}

/// After all messages, in the order they came.
pub open spec fn heard_all(
    lobby: LobbyModel,
    packets: Seq<PacketModel>,
    player: Seq<char>,
    room: Option<RoomModel>,
    going: Option<u32>,
) -> HearingModel
    decreases packets.len(),
{
    if packets.len() == 0 {
        HearingModel { lobby, rejoining: None, go: None }
    } else {
        heard_one(
            heard_all(lobby, packets.drop_last(), player, room, going),
            packets.last(),
            player,
            room,
            going,
        )
    }
}

fn is_displaced(room: Option<&MatchRoom>, name: &str, from: PeerId) -> (yes: bool)
    ensures
        yes == displaced(wire::room_view(room), name@, from),
{
    match room {
        Some(r) => match seat_of(r, name) {
            Some(h) => {
                proof {
                    net::lemma_seat_at(r@.seats, name@, 0);
                }
                match r.seats[h].peer {
                    Some(p) => p != from,
                    None => true,
                }
            },
            None => false,
        },
        None => false,
    }
}

impl Lobby {
    fn hear_hi(
        &mut self,
        hearing: &mut Hearing,
        from: PeerId,
        rest: &str,
        player: &str,
        room: Option<&MatchRoom>,
    )
        ensures
            hearing_view(final(self)@, *final(hearing)) == heard_hi(
                hearing_view(old(self)@, *old(hearing)),
                from,
                rest@,
                player@,
                wire::room_view(room),
            ),
    {
        let (name, state) = match parse_hi(rest) {
            Some(read) => read,
            None => return ,
        };
        self.names = keep_names_without(&self.names, from);
        let ghost others = self@.names;
        self.names.push((from, text::copy_of(name.as_str())));
        assert(self@.names =~= others.push((from, name@)));
        if let Some((generation, seats)) = state {
            self.returning = net::find_seat(&seats, player).is_some();
            self.away = Some((generation, seats));
        }
        if hearing.rejoining.is_none() {
            if is_displaced(room, name.as_str(), from) {
                hearing.rejoining = Some((from, name));
            }
        }
    }

    fn hear_go(
        &mut self,
        hearing: &mut Hearing,
        rest: &str,
        world_reads: bool,
        room: Option<&MatchRoom>,
        going: Option<u32>,
    )
        ensures
            hearing_view(final(self)@, *final(hearing)) == heard_go(
                hearing_view(old(self)@, *old(hearing)),
                rest@,
                world_reads,
                wire::room_view(room),
                going,
            ),
    {
        let go = match parse_go(rest) {
            Some(go) => go,
            None => return ,
        };
        if go.world.is_some() && !world_reads {
            return ;
        }
        if let Some(r) = room {
            if go.generation <= r.generation {
                return ;
            }
        }
        if let Some(g) = going {
            if go.generation <= g {
                return ;
            }
        }
        self.roster = Some(copy_seats(&go.seats));
        hearing.go = Some(go);
    }

    fn hear_one(
        &mut self,
        hearing: &mut Hearing,
        packet: &Packet,
        player: &str,
        room: Option<&MatchRoom>,
        going: Option<u32>,
    )
        ensures
            hearing_view(final(self)@, *final(hearing)) == heard_one(
                hearing_view(old(self)@, *old(hearing)),
                packet@,
                player@,
                wire::room_view(room),
                going,
            ),
    {
        if !lists(&self.heard, packet.from) {
            self.heard.push(packet.from);
        }
        let chars = text::chars_of(packet.text.as_str());
        if let Some(rest) = text::strip_prefix(&chars, HI) {
            let body = text::string_of(&rest);
            self.hear_hi(hearing, packet.from, body.as_str(), player, room);
            return ;
        }
        if let Some(rest) = text::strip_prefix(&chars, REJOIN) {
            let name = text::string_of(&rest);
            if is_displaced(room, name.as_str(), packet.from) {
                hearing.rejoining = Some((packet.from, name));
            }
            return ;
        }
        if let Some(rest) = text::strip_prefix(&chars, GO) {
            let body = text::string_of(&rest);
            self.hear_go(hearing, body.as_str(), packet.world_reads, room, going);
        }
    }

    fn hear_all(
        &mut self,
        packets: &Vec<Packet>,
        player: &str,
        room: Option<&MatchRoom>,
        going: Option<u32>,
    ) -> (hearing: Hearing)
        ensures
            hearing_view(final(self)@, hearing) == heard_all(
                old(self)@,
                packets_view(packets@),
                player@,
                wire::room_view(room),
                going,
            ),
    {
        let mut hearing = Hearing { rejoining: None, go: None };
        let mut i: usize = 0;
        let ghost all = packets_view(packets@);
        assert(all.take(0) =~= Seq::empty());
        while i < packets.len()
            invariant
                i <= packets.len(),
                all == packets_view(packets@),
                hearing_view(self@, hearing) == heard_all(
                    old(self)@,
                    all.take(i as int),
                    player@,
                    wire::room_view(room),
                    going,
                ),
            decreases packets.len() - i,
        {
            self.hear_one(&mut hearing, &packets[i], player, room, going);
            proof {
                assert(all.take(i + 1).drop_last() =~= all.take(i as int));
                assert(all.take(i + 1).last() == packets@[i as int]@);
            }
            i = i + 1;
        }
        assert(all.take(i as int) =~= all);
        hearing
    }
}

// ---------------------------------------------------------------------------
// Answering, and asking.
// ---------------------------------------------------------------------------

/// The roster to rebuild the match with, if somebody wants their seat back and
/// it is ours to let them in.
pub open spec fn answer(
    h: HearingModel,
    room: Option<RoomModel>,
    joining: bool,
    going: Option<u32>,
) -> Option<Seq<SeatModel>> {
    match (room, h.rejoining) {
        (Some(r), Some((peer, name))) => if !joining && going is None && net::index(
            net::answering_at(r.seats, h.lobby, 0),
        ) == Some(r.me) {
            Some(net::reseated(r.seats, h.lobby, name, peer))
        } else {
            None
        },
        _ => None,
    }
}

/// Whether we are outside a match that has a seat of ours.
pub open spec fn asking(
    lobby: LobbyModel,
    room: Option<RoomModel>,
    joining: bool,
    going: Option<u32>,
) -> bool {
    room is None && !joining && going is None && lobby.returning
}

/// Whether this is a frame to ask on.
pub open spec fn ask_now(lobby: LobbyModel) -> bool {
    lobby.retry <= 1
}

pub open spec fn after_asking(
    lobby: LobbyModel,
    room: Option<RoomModel>,
    joining: bool,
    going: Option<u32>,
) -> LobbyModel {
    if !asking(lobby, room, joining, going) {
        lobby
    } else if ask_now(lobby) {
        LobbyModel { retry: REJOIN_RETRY_FRAMES, ..lobby }
    } else {
        LobbyModel { retry: (lobby.retry - 1) as u32, ..lobby }
    }
}

/// Whom a request for our seat goes to: the one peer whose business it is to
/// answer it, if anybody can be reached.
pub open spec fn asked_of(seats: Seq<SeatModel>, lobby: LobbyModel) -> Seq<PeerId> {
    match net::answering_at(seats, lobby, 0) {
        Some(h) => seq![seats[h].peer->0],
        None => Seq::empty(),
    }
}

fn list_asked(seats: &Vec<Seat>, lobby: &Lobby) -> (out: Vec<PeerId>)
    ensures
        out@ == asked_of(roster::roster(seats@), lobby@),
{
    let mut out: Vec<PeerId> = Vec::new();
    if let Some(h) = net::find_answering(seats, lobby) {
        if let Some(p) = seats[h].peer {
            out.push(p);
        }
    }
    out
}

/// What a frame of the room leads to.
#[derive(Debug)]
pub struct RoomNews {
    /// A start to act on.
    pub go: Option<PendingGo>,
    /// A roster to rebuild the match with.
    pub rejoin: Option<Vec<Seat>>,
    /// A request for our seat.
    pub ask: Option<Letter>,
}

impl Lobby {
    /// Acts on a frame's messages. `joining` says whether a session is being
    /// built, `going` which start is being acted on.
    pub fn hear(
        &mut self,
        packets: &Vec<Packet>,
        player: &str,
        room: Option<&MatchRoom>,
        joining: bool,
        going: Option<u32>,
    ) -> (news: RoomNews)
        ensures
            ({
                let h = heard_all(
                    old(self)@,
                    packets_view(packets@),
                    player@,
                    wire::room_view(room),
                    going,
                );
                let here = wire::room_view(room);
                &&& final(self)@ == after_asking(h.lobby, here, joining, going)
                &&& wire::go_view(news.go) == h.go
                &&& net::seats_view(news.rejoin) == answer(h, here, joining, going)
                &&& match news.ask {
                    Some(letter) => {
                        &&& asking(h.lobby, here, joining, going)
                        &&& ask_now(h.lobby)
                        &&& h.lobby.away is Some
                        &&& letter.text@ == REJOIN@ + player@
                        &&& letter.to@ == asked_of((h.lobby.away->0).1, h.lobby)
                    },
                    None => !(asking(h.lobby, here, joining, going) && ask_now(h.lobby)
                        && h.lobby.away is Some),
                }
            }),
    {
        let hearing = self.hear_all(packets, player, room, going);
        let mut rejoin: Option<Vec<Seat>> = None;
        if let Some(r) = room {
            if let Some(who) = &hearing.rejoining {
                if !joining && going.is_none() {
                    if let Some(first) = answering_peer(r, self) {
                        if first == r.me {
                            rejoin = Some(reseat(r, self, who.1.as_str(), who.0));
                        }
                    }
                }
            }
        }
        let mut ask: Option<Letter> = None;
        if room.is_none() && !joining && going.is_none() && self.returning {
            if self.retry <= 1 {
                if let Some((generation, seats)) = &self.away {
                    let mut asked: String = text::copy_of(REJOIN);
                    asked.append(player);
                    let to = list_asked(seats, self);
                    ask = Some(Letter { text: asked, to });
                }
                self.retry = REJOIN_RETRY_FRAMES;
            } else {
                self.retry = self.retry - 1;
            }
        }
        RoomNews { go: hearing.go, rejoin, ask }
    }
}

// ---------------------------------------------------------------------------
// What holds of every frame.
// ---------------------------------------------------------------------------

/// Every start that is taken up is later than the match we are in and than the
/// start we were acting on: a match only moves forward.
pub proof fn a_match_only_moves_forward(
    lobby: LobbyModel,
    packets: Seq<PacketModel>,
    player: Seq<char>,
    room: Option<RoomModel>,
    going: Option<u32>,
)
    ensures
        heard_all(lobby, packets, player, room, going).go matches Some(go) ==> {
            &&& !stale(go.generation, room, going)
            &&& roster::sane(go.seats)
        },
    decreases packets.len(),
{
    if packets.len() > 0 {
        a_match_only_moves_forward(lobby, packets.drop_last(), player, room, going);
        if let Some(rest) = text::after(packets.last().text, GO@) {
            if let Some((generation, more)) = text::cut(rest, ':') {
                if let Some((seats, blob)) = text::cut(more, '|') {
                    roster::a_roster_that_was_read_is_sane(seats);
                }
            }
        }
    }
}

/// Whether every name is a token, and no peer has two.
pub open spec fn names_are_sound(names: Seq<(PeerId, Seq<char>)>) -> bool {
    &&& forall|i: int| 0 <= i < names.len() ==> persist::token(#[trigger] names[i].1)
    &&& forall|i: int, j: int|
        0 <= i < j < names.len() ==> #[trigger] names[i].0 != #[trigger] names[j].0
}

proof fn lemma_names_among(names: Seq<(PeerId, Seq<char>)>, ids: Seq<PeerId>)
    requires
        names_are_sound(names),
    ensures
        names_are_sound(names_among(names, ids)),
        forall|i: int| #![trigger names_among(names, ids)[i]]
            0 <= i < names_among(names, ids).len() ==> names.contains(names_among(names, ids)[i]),
    decreases names.len(),
{
    reveal(Seq::filter);
    if names.len() > 0 {
        let rest = names.drop_last();
        assert forall|i: int| 0 <= i < rest.len() implies persist::token(#[trigger] rest[i].1) by {
            assert(names[i] == rest[i]);
        }
        assert forall|i: int, j: int| 0 <= i < j < rest.len() implies #[trigger] rest[i].0
            != #[trigger] rest[j].0 by {
            assert(names[i] == rest[i] && names[j] == rest[j]);
        }
        lemma_names_among(rest, ids);
        lemma_names_among_push(rest, ids, names.last());
        assert(names =~= rest.push(names.last()));
        let kept = names_among(rest, ids);
        assert forall|i: int| 0 <= i < kept.len() implies kept[i].0 != names.last().0 && names.contains(
            kept[i],
        ) by {
            assert(rest.contains(kept[i]));
            let k = choose|k: int| 0 <= k < rest.len() && rest[k] == kept[i];
            assert(names[k] == kept[i]);
            assert(names[k].0 != names[names.len() - 1].0);
        }
        assert(names.contains(names.last())) by {
            assert(names[names.len() - 1] == names.last());
        }
    }
}

proof fn lemma_names_without(names: Seq<(PeerId, Seq<char>)>, peer: PeerId)
    requires
        names_are_sound(names),
    ensures
        names_are_sound(names_without(names, peer)),
        forall|i: int| #![trigger names_without(names, peer)[i]]
            0 <= i < names_without(names, peer).len() ==> names_without(names, peer)[i].0 != peer
                && names.contains(names_without(names, peer)[i]),
    decreases names.len(),
{
    reveal(Seq::filter);
    if names.len() > 0 {
        let rest = names.drop_last();
        assert forall|i: int| 0 <= i < rest.len() implies persist::token(#[trigger] rest[i].1) by {
            assert(names[i] == rest[i]);
        }
        assert forall|i: int, j: int| 0 <= i < j < rest.len() implies #[trigger] rest[i].0
            != #[trigger] rest[j].0 by {
            assert(names[i] == rest[i] && names[j] == rest[j]);
        }
        lemma_names_without(rest, peer);
        lemma_names_without_push(rest, peer, names.last());
        assert(names =~= rest.push(names.last()));
        let kept = names_without(rest, peer);
        assert forall|i: int| 0 <= i < kept.len() implies kept[i].0 != names.last().0 && names.contains(
            kept[i],
        ) by {
            assert(rest.contains(kept[i]));
            let k = choose|k: int| 0 <= k < rest.len() && rest[k] == kept[i];
            assert(names[k] == kept[i]);
            assert(names[k].0 != names[names.len() - 1].0);
        }
        assert(names.contains(names.last())) by {
            assert(names[names.len() - 1] == names.last());
        }
    }
}

proof fn lemma_named(names: Seq<(PeerId, Seq<char>)>, peer: PeerId)
    ensures
        match net::named(names, peer) {
            Some(name) => names.contains((peer, name)),
            None => forall|i: int| 0 <= i < names.len() ==> (#[trigger] names[i]).0 != peer,
        },
    decreases names.len(),
{
    if names.len() > 0 {
        let rest = names.drop_first();
        lemma_named(rest, peer);
        if names[0].0 == peer {
            assert(names[0] == (peer, names[0].1));
        } else {
            match net::named(rest, peer) {
                Some(name) => {
                    let k = choose|k: int| 0 <= k < rest.len() && rest[k] == (peer, name);
                    assert(names[k + 1] == (peer, name));
                },
                None => {
                    assert forall|i: int| 0 <= i < names.len() implies (#[trigger] names[i]).0
                        != peer by {
                        if i > 0 {
                            assert(rest[i - 1] == names[i]);
                        }
                    }
                },
            }
        }
    }
}

/// Looking round the room keeps the names sound, and knows our own.
pub proof fn meeting_keeps_names_sound(
    lobby: LobbyModel,
    me: PeerId,
    connected: Seq<PeerId>,
    gone: Seq<PeerId>,
    player: Seq<char>,
    generation: Option<u32>,
)
    requires
        names_are_sound(lobby.names),
        persist::token(player),
    ensures
        names_are_sound(met(lobby, me, connected, gone, player, generation).names),
        net::named(met(lobby, me, connected, gone, player, generation).names, me) is Some,
{
    let ids = everybody(connected, me);
    let known = names_among(lobby.names, ids);
    let after = met(lobby, me, connected, gone, player, generation).names;
    lemma_names_among(lobby.names, ids);
    lemma_named(known, me);
    lemma_named(after, me);
    if net::named(known, me) is None {
        assert(after[known.len() as int].0 == me);
    }
}

/// Hearing a frame's messages keeps the names sound, whatever was said.
pub proof fn hearing_keeps_names_sound(
    lobby: LobbyModel,
    packets: Seq<PacketModel>,
    player: Seq<char>,
    room: Option<RoomModel>,
    going: Option<u32>,
)
    requires
        names_are_sound(lobby.names),
    ensures
        names_are_sound(heard_all(lobby, packets, player, room, going).lobby.names),
    decreases packets.len(),
{
    if packets.len() > 0 {
        let h = heard_all(lobby, packets.drop_last(), player, room, going);
        hearing_keeps_names_sound(lobby, packets.drop_last(), player, room, going);
        lemma_names_without(h.lobby.names, packets.last().from);
    }
}

/// Whoever said anything in a frame can be reached after it.
pub proof fn whoever_speaks_can_be_reached(
    lobby: LobbyModel,
    packets: Seq<PacketModel>,
    player: Seq<char>,
    room: Option<RoomModel>,
    going: Option<u32>,
    k: int,
)
    requires
        0 <= k < packets.len(),
    ensures
        net::reaches(
            heard_all(lobby, packets, player, room, going).lobby,
            packets[k].from,
        ),
    decreases packets.len(),
{
    let rest = packets.drop_last();
    let h = heard_all(lobby, rest, player, room, going);
    let last = packets.last().from;
    let row = noticed(h.lobby, last).heard;
    assert(row.contains(last)) by {
        if !h.lobby.heard.contains(last) {
            assert(row[h.lobby.heard.len() as int] == last);
        }
    }
    if k < packets.len() - 1 {
        whoever_speaks_can_be_reached(lobby, rest, player, room, going, k);
        assert(rest[k] == packets[k]);
        if h.lobby.heard.contains(packets[k].from) {
            let i = choose|i: int|
                0 <= i < h.lobby.heard.len() && h.lobby.heard[i] == packets[k].from;
            assert(row[i] == packets[k].from);
        }
    }
}

/// A request for a seat reaches at most one peer, who sits in the match and can be
/// reached; it reaches somebody wherever anybody in the match can be reached.
pub proof fn only_one_peer_is_asked(seats: Seq<SeatModel>, lobby: LobbyModel)
    ensures
        asked_of(seats, lobby).len() <= 1,
        forall|i: int|
            0 <= i < asked_of(seats, lobby).len() ==> net::reaches(
                lobby,
                #[trigger] asked_of(seats, lobby)[i],
            ),
        forall|h: int|
            0 <= h < seats.len() && ((#[trigger] seats[h]).peer matches Some(p) && net::reaches(
                lobby,
                p,
            )) ==> asked_of(seats, lobby).len() == 1,
{
    net::lemma_answering_at(seats, lobby, 0);
    assert forall|h: int|
        0 <= h < seats.len() && ((#[trigger] seats[h]).peer matches Some(p) && net::reaches(
            lobby,
            p,
        )) implies asked_of(seats, lobby).len() == 1 by {
        net::lemma_answers_by(seats, lobby, 0, h);
    }
}

/// A roster that a rejoin is answered with is the match's own, with nobody moved:
/// only the seats' peers differ.
pub proof fn an_answer_moves_no_handle(
    h: HearingModel,
    room: RoomModel,
    joining: bool,
    going: Option<u32>,
)
    ensures
        answer(h, Some(room), joining, going) matches Some(seats) ==> {
            &&& seats.len() == room.seats.len()
            &&& forall|i: int|
                0 <= i < seats.len() ==> (#[trigger] seats[i]).player == room.seats[i].player
        },
{
}

proof fn lemma_named_without(names: Seq<(PeerId, Seq<char>)>, from: PeerId, peer: PeerId)
    ensures
        peer == from ==> net::named(names_without(names, from), peer) is None,
        peer != from ==> net::named(names_without(names, from), peer) == net::named(names, peer),
    decreases names.len(),
{
    if names.len() > 0 {
        let rest = names.drop_last();
        let last = names.last();
        lemma_named_without(rest, from, peer);
        assert(names =~= rest.push(last));
        lemma_names_without_push(rest, from, last);
        assert(last == (last.0, last.1));
        net::a_name_listed_last(rest, last.0, last.1, peer);
        net::a_name_listed_last(names_without(rest, from), last.0, last.1, peer);
    } else {
        assert(names_without(names, from).len() == 0) by {
            reveal(Seq::filter);
        }
    }
}

proof fn lemma_named_among(names: Seq<(PeerId, Seq<char>)>, ids: Seq<PeerId>, peer: PeerId)
    ensures
        !ids.contains(peer) ==> net::named(names_among(names, ids), peer) is None,
        ids.contains(peer) ==> net::named(names_among(names, ids), peer) == net::named(names, peer),
    decreases names.len(),
{
    let keep = |n: (PeerId, Seq<char>)| ids.contains(n.0);
    order::lemma_filter_last(names, keep);
    if names.len() > 0 {
        let rest = names.drop_last();
        let last = names.last();
        lemma_named_among(rest, ids, peer);
        assert(names =~= rest.push(last));
        net::a_name_listed_last(rest, last.0, last.1, peer);
        net::a_name_listed_last(names_among(rest, ids), last.0, last.1, peer);
    }
}

proof fn lemma_kept(row: Seq<PeerId>, keep: spec_fn(PeerId) -> bool, p: PeerId)
    ensures
        row.filter(keep).contains(p) <==> row.contains(p) && keep(p),
    decreases row.len(),
{
    order::lemma_filter_last(row, keep);
    if row.len() > 0 {
        let rest = row.drop_last();
        lemma_kept(rest, keep, p);
        lemma_contains_pushed(rest, row.last(), p);
        assert(row =~= rest.push(row.last()));
        lemma_contains_pushed(rest.filter(keep), row.last(), p);
    } else {
        assert(row.filter(keep) =~= row);
    }
}

proof fn lemma_contains_pushed(row: Seq<PeerId>, x: PeerId, p: PeerId)
    ensures
        row.push(x).contains(p) <==> row.contains(p) || p == x,
{
    if row.contains(p) {
        let k = choose|k: int| 0 <= k < row.len() && row[k] == p;
        assert(row.push(x)[k] == p);
    }
    if p == x {
        assert(row.push(x)[row.len() as int] == p);
    }
    if row.push(x).contains(p) && p != x {
        let k = choose|k: int| 0 <= k < row.push(x).len() && row.push(x)[k] == p;
        assert(row[k] == p);
    }
}

/// The room holds whoever is connected and ourselves, lowest first, and the lowest of
/// all hosts: we do exactly when nobody connected is lower.
pub proof fn the_lowest_of_all_hosts(
    lobby: LobbyModel,
    me: PeerId,
    connected: Seq<PeerId>,
    gone: Seq<PeerId>,
    player: Seq<char>,
    generation: Option<u32>,
    p: PeerId,
)
    ensures
        ({
            let after = met(lobby, me, connected, gone, player, generation);
            &&& after.my_id == Some(me)
            &&& after.ids.len() == connected.len() + 1
            &&& after.ids.contains(p) <==> connected.contains(p) || p == me
            &&& forall|i: int, j: int|
                0 <= i <= j < after.ids.len() ==> #[trigger] after.ids[i] <= #[trigger] after.ids[j]
            &&& after.is_host <==> (forall|i: int|
                0 <= i < connected.len() ==> me <= #[trigger] connected[i])
        }),
{
    let row = connected.push(me);
    let ids = everybody(connected, me);
    order::arranging_puts_in_order(row);
    order::lemma_arranged_contains(row, p);
    lemma_contains_pushed(connected, me, p);
    assert forall|i: int, j: int| 0 <= i <= j < ids.len() implies #[trigger] ids[i]
        <= #[trigger] ids[j] by {
        order::numbers_go_up(row, Seq::empty(), i, j);
    }
    order::lemma_arranged_contains(row, ids[0]);
    assert(ids.contains(ids[0]));
    if ids[0] == me {
        assert forall|i: int| 0 <= i < connected.len() implies me <= #[trigger] connected[i] by {
            assert(row[i] == connected[i]);
            order::lemma_arranged_contains(row, connected[i]);
            assert(row.contains(connected[i]));
            let k = choose|k: int| 0 <= k < ids.len() && ids[k] == connected[i];
            assert(ids[0] <= ids[k]);
        }
    }
    if forall|i: int| 0 <= i < connected.len() ==> me <= #[trigger] connected[i] {
        order::lemma_arranged_contains(row, me);
        assert(row[connected.len() as int] == me);
        assert(row.contains(me));
        let m = choose|m: int| 0 <= m < ids.len() && ids[m] == me;
        assert(ids[0] <= ids[m]);
        let k = choose|k: int| 0 <= k < row.len() && row[k] == ids[0];
        if k < connected.len() {
            assert(me <= connected[k]);
        }
    }
}

/// An introduction goes to everybody connected but ourselves who has not had it since
/// we came to the match that we are in, and looking round remembers that they have.
pub proof fn whoever_does_not_know_us_is_greeted(
    lobby: LobbyModel,
    me: PeerId,
    connected: Seq<PeerId>,
    gone: Seq<PeerId>,
    player: Seq<char>,
    generation: Option<u32>,
    p: PeerId,
)
    ensures
        strangers(
            everybody(connected, me),
            me,
            already_greeted(lobby, everybody(connected, me), generation),
        ).contains(p) <==> (connected.contains(p) && p != me && !(lobby.greeted_at == generation
            && lobby.greeted.contains(p))),
        met(lobby, me, connected, gone, player, generation).greeted_at == generation,
        p != me ==> (met(lobby, me, connected, gone, player, generation).greeted.contains(p)
            <==> connected.contains(p)),
{
    let ids = everybody(connected, me);
    let known = already_greeted(lobby, ids, generation);
    let fresh = strangers(ids, me, known);
    the_lowest_of_all_hosts(lobby, me, connected, gone, player, generation, p);
    lemma_strangers(ids, me, known, p);
    lemma_kept(lobby.greeted, |q: PeerId| ids.contains(q), p);
    let after = known + fresh;
    if after.contains(p) {
        let k = choose|k: int| 0 <= k < after.len() && after[k] == p;
        if k < known.len() {
            assert(known[k] == p);
        } else {
            assert(fresh[k - known.len()] == p);
        }
    }
    if known.contains(p) {
        let k = choose|k: int| 0 <= k < known.len() && known[k] == p;
        assert(after[k] == p);
    }
    if fresh.contains(p) {
        let k = choose|k: int| 0 <= k < fresh.len() && fresh[k] == p;
        assert(after[known.len() + k] == p);
    }
}

/// Looking round forgets the names of whoever is no longer there and keeps the others,
/// knows ourselves by our own unless we had one, and forgets that somebody spoke only
/// when they have gone. It touches nothing else.
pub proof fn whoever_stays_is_remembered(
    lobby: LobbyModel,
    me: PeerId,
    connected: Seq<PeerId>,
    gone: Seq<PeerId>,
    player: Seq<char>,
    generation: Option<u32>,
    p: PeerId,
)
    ensures
        ({
            let after = met(lobby, me, connected, gone, player, generation);
            &&& p != me && connected.contains(p) ==> net::named(after.names, p) == net::named(
                lobby.names,
                p,
            )
            &&& p != me && !connected.contains(p) ==> net::named(after.names, p) is None
            &&& net::named(after.names, me) == (match net::named(lobby.names, me) {
                Some(name) => Some(name),
                None => Some(player),
            })
            &&& after.heard.contains(p) <==> lobby.heard.contains(p) && !gone.contains(p)
            &&& after.roster == lobby.roster
            &&& after.start_requested == lobby.start_requested
            &&& after.away == lobby.away
            &&& after.returning == lobby.returning
            &&& after.retry == lobby.retry
        }),
{
    let ids = everybody(connected, me);
    let known = names_among(lobby.names, ids);
    the_lowest_of_all_hosts(lobby, me, connected, gone, player, generation, p);
    the_lowest_of_all_hosts(lobby, me, connected, gone, player, generation, me);
    lemma_named_among(lobby.names, ids, p);
    lemma_named_among(lobby.names, ids, me);
    net::a_name_listed_last(known, me, player, p);
    net::a_name_listed_last(known, me, player, me);
    lemma_kept(lobby.heard, |q: PeerId| !gone.contains(q), p);
}

/// An introduction says that we are in the match that we are in.
pub proof fn an_introduction_tells_our_match(room: RoomModel)
    ensures
        generation_of(Some(room)) == Some(room.generation),
        generation_of(None) is None,
        wire::state_of(Some(room)) == Some((room.generation, room.seats)),
        wire::state_of(None) is None,
{
}

proof fn lemma_tags_differ(rest: Seq<char>)
    ensures
        text::after("hi:"@ + rest, HI@) == Some(rest),
        text::after("rejoin:"@ + rest, HI@) is None,
        text::after("rejoin:"@ + rest, REJOIN@) == Some(rest),
        text::after("go:"@ + rest, HI@) is None,
        text::after("go:"@ + rest, REJOIN@) is None,
        text::after("go:"@ + rest, GO@) == Some(rest),
{
    reveal_strlit("hi:");
    reveal_strlit("rejoin:");
    reveal_strlit("go:");
    text::lemma_after("hi:"@, rest);
    text::lemma_after("rejoin:"@, rest);
    text::lemma_after("go:"@, rest);
    let again = "rejoin:"@ + rest;
    let start = "go:"@ + rest;
    assert(again[0] == 'r' && start[0] == 'g');
    assert(again.take(3)[0] == 'r' && start.take(3)[0] == 'g');
    if start.len() >= 7 {
        assert(start.take(7)[0] == 'g');
    }
    assert("hi:"@[0] == 'h' && "rejoin:"@[0] == 'r');
}

/// Whether a message is from `name`: a request for their seat, or an introduction.
pub open spec fn comes_from(message: Seq<char>, name: Seq<char>) -> bool {
    ||| message == "rejoin:"@ + name
    ||| exists|rest: Seq<char>|
        #![trigger "hi:"@ + rest]
        message == "hi:"@ + rest && (wire::read_hi(rest) matches Some(hi) && hi.0 == name)
}

proof fn lemma_heard_alone(
    lobby: LobbyModel,
    packet: PacketModel,
    player: Seq<char>,
    room: RoomModel,
    name: Seq<char>,
)
    requires
        comes_from(packet.text, name),
    ensures
        ({
            let h = heard_all(lobby, seq![packet], player, Some(room), None);
            &&& h.rejoining == (if displaced(Some(room), name, packet.from) {
                Some((packet.from, name))
            } else {
                None
            })
            &&& h.lobby.my_id == lobby.my_id
            &&& h.lobby.ids == lobby.ids
            &&& h.lobby.heard == noticed(lobby, packet.from).heard
        }),
{
    let packets = seq![packet];
    assert(packets.drop_last() =~= Seq::<PacketModel>::empty());
    assert(packets.last() == packet);
    let start = HearingModel { lobby, rejoining: None, go: None };
    assert(heard_all(lobby, packets.drop_last(), player, Some(room), None) == start);
    if packet.text == "rejoin:"@ + name {
        lemma_tags_differ(name);
    } else {
        let rest = choose|rest: Seq<char>|
            #![trigger "hi:"@ + rest]
            packet.text == "hi:"@ + rest && (wire::read_hi(rest) matches Some(hi) && hi.0 == name);
        lemma_tags_differ(rest);
    }
}

/// Whoever lost their seat gets it back: where it is ours to answer and nothing is being
/// built, one message from a player whose seat has another peer's id on it, or none,
/// leads to a roster with them back in it. Every other seat keeps its player, and its
/// peer too if they can be reached.
pub proof fn whoever_lost_their_seat_gets_it_back(
    lobby: LobbyModel,
    packet: PacketModel,
    player: Seq<char>,
    room: RoomModel,
    name: Seq<char>,
    h: int,
)
    requires
        comes_from(packet.text, name),
        0 <= h < room.seats.len() <= usize::MAX,
        room.seats[h].player == name,
        forall|i: int| 0 <= i < h ==> (#[trigger] room.seats[i]).player != name,
        room.seats[h].peer != Some(packet.from),
        room.me < room.seats.len(),
        room.seats[room.me as int].peer matches Some(q) && (q == packet.from || net::reaches(
            lobby,
            q,
        )),
        forall|i: int|
            0 <= i < room.me ==> !((#[trigger] room.seats[i]).peer matches Some(q) && (q
                == packet.from || net::reaches(lobby, q))),
    ensures
        ({
            let heard = heard_all(lobby, seq![packet], player, Some(room), None);
            answer(heard, Some(room), false, None) matches Some(next) && {
                &&& next.len() == room.seats.len()
                &&& next[h].peer == Some(packet.from)
                &&& forall|i: int|
                    0 <= i < next.len() ==> {
                        &&& (#[trigger] next[i]).player == room.seats[i].player
                        &&& room.seats[i].player != name ==> next[i].peer == (
                        match room.seats[i].peer {
                            Some(q) => if q == packet.from || net::reaches(lobby, q) {
                                Some(q)
                            } else {
                                None
                            },
                            None => None,
                        })
                    }
            }
        }),
{
    let heard = heard_all(lobby, seq![packet], player, Some(room), None);
    lemma_heard_alone(lobby, packet, player, room, name);
    net::a_player_sits_where_their_name_stands(room.seats, name, h);
    assert forall|q: PeerId| #[trigger]
        net::reaches(heard.lobby, q) <==> q == packet.from || net::reaches(lobby, q) by {
        lemma_contains_pushed(lobby.heard, packet.from, q);
    }
    net::the_first_seat_in_reach_answers(room.seats, heard.lobby, room.me as int);
    net::reseating_moves_no_handle(room.seats, heard.lobby, name, packet.from);
}

/// Nobody is let in who is where they belong, or has no seat.
pub proof fn nobody_else_is_let_in(
    lobby: LobbyModel,
    packet: PacketModel,
    player: Seq<char>,
    room: RoomModel,
    name: Seq<char>,
    joining: bool,
)
    requires
        comes_from(packet.text, name),
        forall|i: int|
            0 <= i < room.seats.len() && (#[trigger] room.seats[i]).player == name
                ==> room.seats[i].peer == Some(packet.from),
    ensures
        answer(
            heard_all(lobby, seq![packet], player, Some(room), None),
            Some(room),
            joining,
            None,
        ) is None,
{
    lemma_heard_alone(lobby, packet, player, room, name);
    net::lemma_seat_at(room.seats, name, 0);
}

/// Nobody is let in while a session is being built or a start acted on, by whoever is
/// not the first that can be reached, or outside a match.
pub proof fn letting_in_waits_its_turn(
    h: HearingModel,
    room: RoomModel,
    joining: bool,
    going: Option<u32>,
    k: int,
)
    ensures
        joining ==> answer(h, Some(room), joining, going) is None,
        going is Some ==> answer(h, Some(room), joining, going) is None,
        answer(h, None, joining, going) is None,
        h.rejoining is None ==> answer(h, Some(room), joining, going) is None,
        0 <= k < room.me && k < room.seats.len() <= usize::MAX && (room.seats[k].peer matches Some(q)
            && net::reaches(h.lobby, q)) ==> answer(h, Some(room), joining, going) is None,
{
    if 0 <= k < room.me && k < room.seats.len() && (room.seats[k].peer matches Some(q)
        && net::reaches(h.lobby, q)) {
        net::lemma_answers_by(room.seats, h.lobby, 0, k);
        net::lemma_answering_at(room.seats, h.lobby, 0);
    }
}

/// Each message is heard on top of those before it.
pub proof fn messages_are_heard_in_order(
    lobby: LobbyModel,
    packets: Seq<PacketModel>,
    packet: PacketModel,
    player: Seq<char>,
    room: Option<RoomModel>,
    going: Option<u32>,
)
    ensures
        heard_all(lobby, packets.push(packet), player, room, going) == heard_one(
            heard_all(lobby, packets, player, room, going),
            packet,
            player,
            room,
            going,
        ),
        heard_all(lobby, Seq::empty(), player, room, going).lobby == lobby,
        heard_all(lobby, Seq::empty(), player, room, going).rejoining is None,
        heard_all(lobby, Seq::empty(), player, room, going).go is None,
{
    assert(packets.push(packet).drop_last() =~= packets);
}

/// Whoever speaks is known to have spoken, and whoever had spoken still is.
pub proof fn speaking_is_noticed(
    h: HearingModel,
    packet: PacketModel,
    player: Seq<char>,
    room: Option<RoomModel>,
    going: Option<u32>,
    p: PeerId,
)
    ensures
        ({
            let next = heard_one(h, packet, player, room, going);
            &&& next.lobby.heard.contains(p) <==> h.lobby.heard.contains(p) || p == packet.from
            &&& next.lobby.ids == h.lobby.ids
            &&& next.lobby.my_id == h.lobby.my_id
            &&& next.lobby.is_host == h.lobby.is_host
            &&& next.lobby.start_requested == h.lobby.start_requested
            &&& next.lobby.greeted == h.lobby.greeted
            &&& next.lobby.greeted_at == h.lobby.greeted_at
            &&& next.lobby.retry == h.lobby.retry
        }),
{
    lemma_contains_pushed(h.lobby.heard, packet.from, p);
}

/// An introduction gives its sender the name in it and nobody else another; the match in
/// it is the one played without us, and ours to come back to exactly if it has a seat
/// under our name. One without a match leaves that as it was. Whoever asked first is
/// not put behind.
pub proof fn an_introduction_is_taken_at_its_word(
    h: HearingModel,
    packet: PacketModel,
    rest: Seq<char>,
    player: Seq<char>,
    room: Option<RoomModel>,
    going: Option<u32>,
    p: PeerId,
)
    requires
        packet.text == "hi:"@ + rest,
    ensures
        ({
            let next = heard_one(h, packet, player, room, going);
            match wire::read_hi(rest) {
                Some((name, state)) => {
                    &&& net::named(next.lobby.names, packet.from) == Some(name)
                    &&& p != packet.from ==> net::named(next.lobby.names, p) == net::named(
                        h.lobby.names,
                        p,
                    )
                    &&& state matches Some((generation, seats)) ==> {
                        &&& next.lobby.away == Some((generation, seats))
                        &&& next.lobby.returning <==> (exists|i: int|
                            0 <= i < seats.len() && (#[trigger] seats[i]).player == player)
                    }
                    &&& state is None ==> next.lobby.away == h.lobby.away && next.lobby.returning
                        == h.lobby.returning
                    &&& h.rejoining is Some ==> next.rejoining == h.rejoining
                },
                None => {
                    &&& next.lobby.names == h.lobby.names
                    &&& next.lobby.away == h.lobby.away
                    &&& next.lobby.returning == h.lobby.returning
                    &&& next.rejoining == h.rejoining
                },
            }
        }),
        heard_one(h, packet, player, room, going).go == h.go,
        heard_one(h, packet, player, room, going).lobby.roster == h.lobby.roster,
{
    lemma_tags_differ(rest);
    let next = heard_one(h, packet, player, room, going);
    if wire::read_hi(rest) is Some {
        let name = (wire::read_hi(rest)->0).0;
        let state = (wire::read_hi(rest)->0).1;
        let others = names_without(h.lobby.names, packet.from);
        lemma_named_without(h.lobby.names, packet.from, packet.from);
        lemma_named_without(h.lobby.names, packet.from, p);
        net::a_name_listed_last(others, packet.from, name, packet.from);
        net::a_name_listed_last(others, packet.from, name, p);
        if state is Some {
            let seats = (state->0).1;
            net::lemma_seat_at(seats, player, 0);
            if net::seat_at(seats, player, 0) is Some {
                assert(seats[net::seat_at(seats, player, 0)->0].player == player);
            }
        }
    }
}

/// A request for a seat by somebody who has lost theirs is the one that will be
/// answered, whoever asked before; it changes nothing else.
pub proof fn the_last_request_is_answered(
    h: HearingModel,
    packet: PacketModel,
    name: Seq<char>,
    player: Seq<char>,
    room: RoomModel,
    going: Option<u32>,
    k: int,
)
    requires
        packet.text == "rejoin:"@ + name,
        0 <= k < room.seats.len(),
        room.seats[k].player == name,
        forall|i: int| 0 <= i < k ==> (#[trigger] room.seats[i]).player != name,
    ensures
        ({
            let next = heard_one(h, packet, player, Some(room), going);
            &&& room.seats[k].peer != Some(packet.from) ==> next.rejoining == Some(
                (packet.from, name),
            )
            &&& room.seats[k].peer == Some(packet.from) ==> next.rejoining == h.rejoining
            &&& next.go == h.go
            &&& next.lobby.names == h.lobby.names
            &&& next.lobby.away == h.lobby.away
            &&& next.lobby.returning == h.lobby.returning
            &&& next.lobby.roster == h.lobby.roster
        }),
{
    lemma_tags_differ(name);
    net::a_player_sits_where_their_name_stands(room.seats, name, k);
}

/// A start is taken up, with its own roster, exactly when it reads, its world can be
/// decoded if it has one, and it is later than the match we are in and than the start
/// we are acting on.
pub proof fn a_later_start_is_taken_up(
    h: HearingModel,
    packet: PacketModel,
    rest: Seq<char>,
    player: Seq<char>,
    room: Option<RoomModel>,
    going: Option<u32>,
)
    requires
        packet.text == "go:"@ + rest,
    ensures
        ({
            let next = heard_one(h, packet, player, room, going);
            let fresh = wire::read_go(rest) matches Some(go) && (go.world is Some
                ==> packet.world_reads) && (room matches Some(r) ==> go.generation > r.generation)
                && (going matches Some(g) ==> go.generation > g);
            &&& fresh ==> {
                &&& next.go == wire::read_go(rest)
                &&& next.lobby.roster == Some((wire::read_go(rest)->0).seats)
            }
            &&& !fresh ==> next.go == h.go && next.lobby.roster == h.lobby.roster
            &&& next.rejoining == h.rejoining
            &&& next.lobby.names == h.lobby.names
            &&& next.lobby.away == h.lobby.away
            &&& next.lobby.returning == h.lobby.returning
        }),
{
    lemma_tags_differ(rest);
}

/// What bears none of the three tags says nothing but that its sender is there.
pub proof fn other_messages_say_nothing(
    h: HearingModel,
    packet: PacketModel,
    player: Seq<char>,
    room: Option<RoomModel>,
    going: Option<u32>,
)
    requires
        text::after(packet.text, "hi:"@) is None,
        text::after(packet.text, "rejoin:"@) is None,
        text::after(packet.text, "go:"@) is None,
    ensures
        ({
            let next = heard_one(h, packet, player, room, going);
            &&& next.go == h.go
            &&& next.rejoining == h.rejoining
            &&& next.lobby.names == h.lobby.names
            &&& next.lobby.away == h.lobby.away
            &&& next.lobby.returning == h.lobby.returning
            &&& next.lobby.roster == h.lobby.roster
        }),
{
}

/// We ask for our seat only outside a match, while none is being built or started, and
/// only if there is one to come back to; then at once, and again on every twentieth
/// frame. Asking changes nothing but the count.
pub proof fn a_seat_is_asked_for_every_so_often(
    lobby: LobbyModel,
    room: Option<RoomModel>,
    joining: bool,
    going: Option<u32>,
)
    ensures
        ({
            let next = after_asking(lobby, room, joining, going);
            let out = room is None && !joining && going is None && lobby.returning;
            &&& asking(lobby, room, joining, going) == out
            &&& next == (LobbyModel { retry: next.retry, ..lobby })
            &&& !out ==> next.retry == lobby.retry
            &&& out && lobby.retry <= 1 ==> ask_now(lobby) && next.retry == 20
            &&& out && lobby.retry > 1 ==> !ask_now(lobby) && next.retry == lobby.retry - 1
        }),
{
}

/// The lobby after `n` frames on which we ask and nothing is heard.
pub open spec fn asking_on(lobby: LobbyModel, n: nat) -> LobbyModel
    decreases n,
{
    if n == 0 {
        lobby
    } else {
        after_asking(asking_on(lobby, (n - 1) as nat), None, false, None)
    }
}

/// Having asked, we ask again twenty frames later and not before.
pub proof fn twenty_frames_lie_between_requests(lobby: LobbyModel, n: nat)
    requires
        lobby.returning,
        ask_now(lobby),
        1 <= n <= 20,
    ensures
        asking_on(lobby, n).returning,
        asking_on(lobby, n).retry == 21 - n,
        ask_now(asking_on(lobby, n)) <==> n == 20,
    decreases n,
{
    if n > 1 {
        twenty_frames_lie_between_requests(lobby, (n - 1) as nat);
    } else {
        assert(asking_on(lobby, 0) == lobby);
    }
}

/// A request goes to the peer in the first seat that can be reached.
pub proof fn the_first_in_reach_is_asked(seats: Seq<SeatModel>, lobby: LobbyModel, h: int)
    requires
        0 <= h < seats.len(),
        seats[h].peer matches Some(p) && net::reaches(lobby, p),
        forall|i: int|
            0 <= i < h ==> !((#[trigger] seats[i]).peer matches Some(p) && net::reaches(lobby, p)),
    ensures
        asked_of(seats, lobby) == seq![seats[h].peer->0],
{
    net::the_first_seat_in_reach_answers(seats, lobby, h);
}

/// Contracts speak of the messages that arrived one by one, each with its sender and its
/// text.
pub proof fn messages_are_seen_one_by_one(packets: Seq<Packet>, i: int)
    requires
        0 <= i < packets.len(),
    ensures
        packets_view(packets).len() == packets.len(),
        packets_view(packets)[i].from == packets[i].from,
        packets_view(packets)[i].text == packets[i].text@,
        packets_view(packets)[i].world_reads == packets[i].world_reads,
{
}

} // verus!
