//! The roster: who sits in which seat, and how it travels.

use vstd::prelude::*;

use crate::peer;
use crate::peer::PeerId;
use crate::persist;
use crate::text;
use crate::MAX_PLAYERS;

verus! {

/// A seat of the match. Its place in the roster is its player's handle; a seat
/// without a peer is vacant, and stays where it is.
#[derive(Debug, PartialEq, Eq)]
pub struct Seat {
    pub player: String,
    pub peer: Option<PeerId>,
}

/// A seat, as contracts speak of it.
#[verifier::ext_equal]
pub struct SeatModel {
    pub player: Seq<char>,
    pub peer: Option<PeerId>,
}

impl View for Seat {
    type V = SeatModel;

    open spec fn view(&self) -> SeatModel {
        SeatModel { player: self.player@, peer: self.peer }
    }
}

impl Clone for Seat {
    fn clone(&self) -> (out: Self)
        ensures
            out@ == self@,
    {
        Seat { player: text::copy_of(self.player.as_str()), peer: self.peer }
    }
}

/// The seats of a roster, as contracts speak of them.
pub open spec fn roster(seats: Seq<Seat>) -> Seq<SeatModel> {
    seats.map_values(|s: Seat| s@)
}

/// A copy of a roster.
pub fn copy_seats(seats: &Vec<Seat>) -> (out: Vec<Seat>)
    ensures
        roster(out@) == roster(seats@),
{
    let mut out: Vec<Seat> = Vec::new();
    let mut i: usize = 0;
    while i < seats.len()
        invariant
            i <= seats.len(),
            roster(out@) == roster(seats@).take(i as int),
        decreases seats.len() - i,
    {
        let ghost before = roster(out@);
        let next = seats[i].clone();
        out.push(next);
        assert(roster(out@) =~= before.push(next@));
        assert(roster(seats@).take(i + 1) =~= before.push(roster(seats@)[i as int]));
        i = i + 1;
    }
    assert(roster(seats@).take(i as int) =~= roster(seats@));
    out
}

/// A seat's peer on the wire: its id, or a hyphen for a vacant seat.
pub open spec fn peer_entry(peer: Option<PeerId>) -> Seq<char> {
    match peer {
        Some(id) => peer::hyphenated(id),
        None => "-"@,
    }
}

/// A seat on the wire.
pub open spec fn entry_text(seat: SeatModel) -> Seq<char> {
    seat.player + seq!['@'] + peer_entry(seat.peer)
}

/// A roster on the wire: its seats in order, commas between them.
pub open spec fn roster_text(seats: Seq<SeatModel>) -> Seq<char> {
    text::join(seats.map_values(|s: SeatModel| entry_text(s)), ","@)
}

/// Whether a roster may travel: one to [`MAX_PLAYERS`] seats, every player a
/// token.
pub open spec fn sane(seats: Seq<SeatModel>) -> bool {
    &&& 1 <= seats.len() <= MAX_PLAYERS
    &&& forall|i: int| 0 <= i < seats.len() ==> persist::token(#[trigger] seats[i].player)
}

/// The id's text in an entry, empty where it has none.
pub open spec fn entry_id(entry: Seq<char>) -> Seq<char> {
    match text::cut(entry, '@') {
        Some((player, id)) => id,
        None => Seq::empty(),
    }
}

/// The seat that an entry describes, by what its id reads as.
pub open spec fn entry_seat(entry: Seq<char>, reading: Option<PeerId>) -> Option<SeatModel> {
    match text::cut(entry, '@') {
        Some((player, id)) => {
            if !persist::token(player) {
                None
            } else if id == "-"@ {
                Some(SeatModel { player, peer: None })
            } else {
                match reading {
                    Some(peer) => Some(SeatModel { player, peer: Some(peer) }),
                    None => None,
                }
            }
        },
        None => None,
    }
}

/// Whether every entry describes a seat, by what the ids read as.
pub open spec fn all_seats(entries: Seq<Seq<char>>, readings: Seq<Option<PeerId>>) -> bool {
    forall|i: int|
        0 <= i < entries.len() ==> entry_seat(#[trigger] entries[i], readings[i]) is Some
}

/// The roster that a text describes, by what its entries' ids read as: nothing,
/// where one entry is no seat, where there are too many, or where there is none.
pub open spec fn roster_with(t: Seq<char>, readings: Seq<Option<PeerId>>) -> Option<
    Seq<SeatModel>,
> {
    let entries = text::split(t, ',');
    if t.len() > 0 && entries.len() <= MAX_PLAYERS && all_seats(entries, readings) {
        Some(Seq::new(entries.len(), |i: int| entry_seat(entries[i], readings[i])->0))
    } else {
        None
    }
}

/// What the ids of a text's entries read as.
pub open spec fn id_readings(t: Seq<char>) -> Seq<Option<PeerId>> {
    text::split(t, ',').map_values(|e: Seq<char>| peer::uuid_reading(entry_id(e)))
}

/// The roster that a text describes.
pub open spec fn read_roster(t: Seq<char>) -> Option<Seq<SeatModel>> {
    roster_with(t, id_readings(t))
}

/// A roster that was read is fit to travel on: a hostile text cannot name a
/// player that is no token, nor more seats than a match has.
pub proof fn a_roster_that_was_read_is_sane(t: Seq<char>)
    ensures
        read_roster(t) matches Some(seats) ==> sane(seats),
{
    if read_roster(t) is Some {
        let entries = text::split(t, ',');
        let readings = id_readings(t);
        let seats = read_roster(t)->0;
        text::lemma_split_parts(t, ',');
        assert forall|i: int| 0 <= i < seats.len() implies persist::token(
            #[trigger] seats[i].player,
        ) by {
            assert(entry_seat(entries[i], readings[i]) is Some);
        }
    }
}

proof fn lemma_entry(seat: SeatModel)
    requires
        persist::token(seat.player),
    ensures
        text::cut(entry_text(seat), '@') == Some((seat.player, peer_entry(seat.peer))),
        text::free_of(entry_text(seat), ','),
        text::free_of(entry_text(seat), '|'),
        text::free_of(entry_text(seat), ':'),
        entry_text(seat).len() >= 3,
        peer_entry(seat.peer) == "-"@ <==> seat.peer is None,
{
    reveal_strlit("-");
    persist::a_token_holds_no_separator(seat.player, '@');
    persist::a_token_holds_no_separator(seat.player, ',');
    persist::a_token_holds_no_separator(seat.player, '|');
    persist::a_token_holds_no_separator(seat.player, ':');
    if seat.peer is Some {
        peer::lemma_hyphenated(seat.peer->0);
    }
    text::lemma_cut_at(seat.player, '@', peer_entry(seat.peer));
}

/// A travelling roster is cut up where its seats meet, and holds neither a
/// colon nor a bar.
pub proof fn lemma_roster_text(seats: Seq<SeatModel>)
    requires
        sane(seats),
    ensures
        text::split(roster_text(seats), ',') == seats.map_values(|s: SeatModel| entry_text(s)),
        roster_text(seats).len() >= 3,
        text::free_of(roster_text(seats), '|'),
        text::free_of(roster_text(seats), ':'),
{
    reveal_strlit(",");
    let parts = seats.map_values(|s: SeatModel| entry_text(s));
    assert(","@ =~= seq![',']);
    assert forall|i: int| 0 <= i < parts.len() implies text::free_of(#[trigger] parts[i], ',') && {
        &&& text::free_of(parts[i], '|')
        &&& text::free_of(parts[i], ':')
    } by {
        lemma_entry(seats[i]);
    }
    text::splitting_undoes_joining(parts, ',');
    lemma_entry(seats[0]);
    lemma_join_free(parts, '|');
    lemma_join_free(parts, ':');
    assert(parts[0].len() <= text::join(parts, seq![',']).len());
}

proof fn lemma_join_free(parts: Seq<Seq<char>>, c: char)
    requires
        c != ',',
        forall|i: int| 0 <= i < parts.len() ==> text::free_of(#[trigger] parts[i], c),
    ensures
        text::free_of(text::join(parts, seq![',']), c),
    decreases parts.len(),
{
    if parts.len() > 1 {
        let rest = parts.drop_first();
        assert forall|i: int| 0 <= i < rest.len() implies text::free_of(#[trigger] rest[i], c) by {
            assert(rest[i] == parts[i + 1]);
        }
        lemma_join_free(rest, c);
        assert(text::free_of(parts[0], c));
    } else if parts.len() == 1 {
        assert(text::free_of(parts[0], c));
    }
}

/// The roster's text.
pub fn encode_seats(seats: &Vec<Seat>) -> (out: String)
    ensures
        out@ == roster_text(roster(seats@)),
{
    let mut parts: Vec<Vec<char>> = Vec::new();
    let mut i: usize = 0;
    let ghost wanted = roster(seats@).map_values(|s: SeatModel| entry_text(s));
    while i < seats.len()
        invariant
            i <= seats.len(),
            wanted == roster(seats@).map_values(|s: SeatModel| entry_text(s)),
            text::views(parts@) == wanted.take(i as int),
        decreases seats.len() - i,
    {
        let mut entry = text::chars_of(seats[i].player.as_str());
        entry.push('@');
        match seats[i].peer {
            Some(id) => {
                let shown = peer::peer_text(id);
                text::push_text(&mut entry, shown.as_str());
            },
            None => {
                text::push_text(&mut entry, "-");
            },
        }
        assert(entry@ =~= entry_text(seats@[i as int]@));
        let ghost before = text::views(parts@);
        parts.push(entry);
        assert(text::views(parts@) =~= before.push(entry@));
        assert(wanted.take(i + 1) =~= before.push(wanted[i as int]));
        i = i + 1;
    }
    assert(wanted.take(i as int) =~= wanted);
    text::join_all(&parts, ",")
}

/// The seat that an entry describes, by what its id reads as.
fn seat_from(entry: &Vec<char>, reading: Option<PeerId>) -> (out: Option<Seat>)
    ensures
        match out {
            Some(seat) => entry_seat(entry@, reading) == Some(seat@),
            None => entry_seat(entry@, reading) is None,
        },
{
    let halves = match text::split_once(entry, '@') {
        Some(halves) => halves,
        None => return None,
    };
    if !persist::token_chars(&halves.0) {
        return None;
    }
    let player = text::string_of(&halves.0);
    if text::spells(&halves.1, "-") {
        return Some(Seat { player, peer: None });
    }
    match reading {
        Some(peer) => Some(Seat { player, peer: Some(peer) }),
        None => None,
    }
}

/// Reads a roster, by what its entries' ids read as, in order.
pub fn seats_from(t: &str, readings: &Vec<Option<PeerId>>) -> (out: Option<Vec<Seat>>)
    requires
        readings.len() == text::split(t@, ',').len(),
    ensures
        match out {
            Some(seats) => roster_with(t@, readings@) == Some(roster(seats@)),
            None => roster_with(t@, readings@) is None,
        },
{
    let chars = text::chars_of(t);
    let entries = text::split_all(&chars, ',');
    let ghost cut = text::split(t@, ',');
    if chars.len() == 0 || entries.len() > MAX_PLAYERS {
        return None;
    }
    let mut out: Vec<Seat> = Vec::new();
    let mut i: usize = 0;
    while i < entries.len()
        invariant
            i <= entries.len(),
            text::views(entries@) == cut,
            cut == text::split(t@, ','),
            readings.len() == cut.len(),
            roster(out@).len() == i,
            forall|j: int|
                0 <= j < i ==> entry_seat(#[trigger] cut[j], readings@[j]) == Some(
                    roster(out@)[j],
                ),
        decreases entries.len() - i,
    {
        assert(entries@[i as int]@ == cut[i as int]);
        let ghost before = roster(out@);
        match seat_from(&entries[i], readings[i]) {
            Some(seat) => {
                out.push(seat);
                assert(roster(out@) =~= before.push(seat@));
                i = i + 1;
            },
            None => {
                assert(entry_seat(cut[i as int], readings@[i as int]) is None);
                return None;
            },
        }
    }
    assert(roster(out@) =~= Seq::new(
        cut.len(),
        |j: int| entry_seat(cut[j], readings@[j])->0,
    ));
    Some(out)
}

/// What the ids of a text's entries read as.
fn read_ids(t: &str) -> (out: Vec<Option<PeerId>>)
    ensures
        out@ == id_readings(t@),
        forall|i: int, id: PeerId|
            0 <= i < out@.len() && entry_id(text::split(t@, ',')[i]) == #[trigger] peer::hyphenated(
                id,
            ) ==> #[trigger] out@[i] == Some(id),
{
    let chars = text::chars_of(t);
    let entries = text::split_all(&chars, ',');
    let ghost cut = text::split(t@, ',');
    let mut out: Vec<Option<PeerId>> = Vec::new();
    let mut i: usize = 0;
    assert(out@ =~= id_readings(t@).take(0));
    while i < entries.len()
        invariant
            i <= entries.len(),
            text::views(entries@) == cut,
            cut == text::split(t@, ','),
            out@.len() == i,
            out@ == id_readings(t@).take(i as int),
            forall|j: int, id: PeerId|
                0 <= j < i && entry_id(cut[j]) == #[trigger] peer::hyphenated(id)
                    ==> #[trigger] out@[j] == Some(id),
        decreases entries.len() - i,
    {
        assert(entries@[i as int]@ == cut[i as int]);
        let id: Vec<char> = match text::split_once(&entries[i], '@') {
            Some(halves) => halves.1,
            None => Vec::new(),
        };
        assert(id@ =~= entry_id(cut[i as int]));
        let shown = text::string_of(&id);
        let reading = peer::parse_peer(shown.as_str());
        let ghost before = out@;
        out.push(reading);
        proof {
            assert(id_readings(t@)[i as int] == reading);
            assert(id_readings(t@).take(i + 1) =~= before.push(reading));
        }
        i = i + 1;
    }
    assert(id_readings(t@).take(i as int) =~= id_readings(t@));
    out
}

/// Reads a roster. What [`encode_seats`] wrote of a roster that is fit to travel
/// comes back as it was.
pub fn decode_seats(t: &str) -> (out: Option<Vec<Seat>>)
    ensures
        match out {
            Some(seats) => read_roster(t@) == Some(roster(seats@)),
            None => read_roster(t@) is None,
        },
        forall|seats: Seq<SeatModel>| #[trigger]
            roster_text(seats) == t@ && sane(seats) ==> (out matches Some(got) && roster(got@)
                == seats),
{
    let readings = read_ids(t);
    let out = seats_from(t, &readings);
    assert forall|seats: Seq<SeatModel>| #[trigger]
        roster_text(seats) == t@ && sane(seats) implies (out matches Some(got) && roster(got@)
        == seats) by {
        lemma_roster_text(seats);
        let cut = text::split(t@, ',');
        assert(cut.len() == seats.len());
        assert forall|i: int| 0 <= i < cut.len() implies entry_seat(
            #[trigger] cut[i],
            readings@[i],
        ) == Some(seats[i]) by {
            assert(cut[i] == entry_text(seats[i]));
            lemma_entry(seats[i]);
            if let Some(id) = seats[i].peer {
                assert(entry_id(cut[i]) == peer::hyphenated(id));
                assert(readings@[i] == Some(id));
            }
        }
        assert(all_seats(cut, readings@));
        assert(roster_with(t@, readings@)->0 =~= seats);
    }
    out
}

// ---------------------------------------------------------------------------
// What holds of every roster.
// ---------------------------------------------------------------------------

/// A seat travels as its player, an at-sign, and its peer's id or a hyphen; a roster as
/// its seats one after the other, with a comma before each but the first.
pub proof fn how_a_roster_travels(seats: Seq<SeatModel>, seat: SeatModel)
    ensures
        seat.peer matches Some(id) ==> entry_text(seat) == seat.player + "@"@ + peer::hyphenated(
            id,
        ),
        seat.peer is None ==> entry_text(seat) == seat.player + "@-"@,
        roster_text(seq![seat]) == entry_text(seat),
        seats.len() > 0 ==> roster_text(seats.push(seat)) == roster_text(seats) + ","@ + entry_text(
            seat,
        ),
{
    reveal_strlit("@");
    reveal_strlit("@-");
    reveal_strlit("-");
    assert("@"@ =~= seq!['@']);
    assert(seat.player + "@"@ + "-"@ =~= seat.player + "@-"@);
    let text = |s: SeatModel| entry_text(s);
    assert(seq![seat].map_values(text) =~= seq![entry_text(seat)]);
    assert(seats.push(seat).map_values(text) =~= seats.map_values(text).push(entry_text(seat)));
    text::lemma_join_push(seats.map_values(text), ","@, entry_text(seat));
}

/// A roster is fit to travel with one seat to eight, all of tokens.
pub proof fn what_is_fit_to_travel(seats: Seq<SeatModel>)
    ensures
        sane(seats) <==> (1 <= seats.len() <= 8 && forall|i: int|
            0 <= i < seats.len() ==> persist::token((#[trigger] seats[i]).player)),
{
    if 1 <= seats.len() <= 8 && forall|i: int|
        0 <= i < seats.len() ==> persist::token((#[trigger] seats[i]).player) {
        assert forall|i: int| 0 <= i < seats.len() implies persist::token(
            #[trigger] seats[i].player,
        ) by {
            assert(persist::token((seats[i]).player));
        }
    }
}

/// An entry is a seat of the player before its at-sign: vacant behind a hyphen, and else
/// with the peer that the id reads as. A player who is no token, an id that does not read
/// and an entry without an at-sign are no seat.
pub proof fn what_an_entry_says(
    player: Seq<char>,
    id: Seq<char>,
    reading: Option<PeerId>,
)
    requires
        !player.contains('@'),
    ensures
        ({
            let entry = player + "@"@ + id;
            let seat = entry_seat(entry, reading);
            &&& entry_id(entry) == id
            &&& !persist::token(player) ==> seat is None
            &&& persist::token(player) && id == "-"@ ==> seat == Some(
                SeatModel { player, peer: None },
            )
            &&& persist::token(player) && id != "-"@ && reading is Some ==> seat == Some(
                SeatModel { player, peer: reading },
            )
            &&& persist::token(player) && id != "-"@ && reading is None ==> seat is None
            &&& entry_seat(player, reading) is None
        }),
{
    reveal_strlit("@");
    assert("@"@ =~= seq!['@']);
    assert(text::free_of(player, '@'));
    text::lemma_cut_at(player, '@', id);
    text::lemma_cut_none(player, '@');
}

/// A roster is read entry by entry: it has the seats of its entries in order, if every
/// entry is one and there are no more than eight; one that is none spoils them all.
pub proof fn a_roster_is_read_entry_by_entry(
    parts: Seq<Seq<char>>,
    readings: Seq<Option<PeerId>>,
    i: int,
)
    requires
        0 <= i < parts.len() == readings.len(),
        forall|k: int| 0 <= k < parts.len() ==> !(#[trigger] parts[k]).contains(','),
    ensures
        ({
            let read = roster_with(text::join(parts, ","@), readings);
            &&& parts.len() > 8 ==> read is None
            &&& entry_seat(parts[i], readings[i]) is None ==> read is None
            &&& parts.len() <= 8 && (forall|k: int|
                0 <= k < parts.len() ==> entry_seat(#[trigger] parts[k], readings[k]) is Some)
                ==> (read matches Some(seats) && seats.len() == parts.len() && Some(seats[i])
                == entry_seat(parts[i], readings[i]))
        }),
{
    reveal_strlit(",");
    assert(","@ =~= seq![',']);
    assert forall|k: int| 0 <= k < parts.len() implies text::free_of(#[trigger] parts[k], ',') by {
        assert(!parts[k].contains(','));
    }
    text::splitting_undoes_joining(parts, ',');
    let t = text::join(parts, ","@);
    if all_seats(parts, readings) {
        assert(entry_seat(parts[0], readings[0]) is Some);
        if t.len() == 0 {
            if parts.len() == 1 {
                assert(text::cut(parts[0], '@') is Some);
                text::lemma_position(parts[0], '@');
            }
        }
    }
    if entry_seat(parts[i], readings[i]) is None {
        assert(!all_seats(parts, readings));
    }
}

/// Nothing is no roster.
pub proof fn an_empty_text_is_no_roster(readings: Seq<Option<PeerId>>)
    ensures
        roster_with(Seq::empty(), readings) is None,
{
}

/// Each entry's id is read on its own.
pub proof fn each_id_is_read_on_its_own(parts: Seq<Seq<char>>, i: int)
    requires
        0 <= i < parts.len(),
        forall|k: int| 0 <= k < parts.len() ==> !(#[trigger] parts[k]).contains(','),
    ensures
        id_readings(text::join(parts, ","@)).len() == parts.len(),
        id_readings(text::join(parts, ","@))[i] == peer::uuid_reading(entry_id(parts[i])),
        read_roster(text::join(parts, ","@)) == roster_with(
            text::join(parts, ","@),
            parts.map_values(|e: Seq<char>| peer::uuid_reading(entry_id(e))),
        ),
{
    reveal_strlit(",");
    assert(","@ =~= seq![',']);
    assert forall|k: int| 0 <= k < parts.len() implies text::free_of(#[trigger] parts[k], ',') by {
        assert(!parts[k].contains(','));
    }
    text::splitting_undoes_joining(parts, ',');
}

/// Contracts speak of a roster seat by seat, of each seat's own player and peer.
pub proof fn a_roster_is_seen_seat_by_seat(seats: Seq<Seat>, i: int)
    requires
        0 <= i < seats.len(),
    ensures
        roster(seats).len() == seats.len(),
        roster(seats)[i].player == seats[i].player@,
        roster(seats)[i].peer == seats[i].peer,
{
}

} // verus!
