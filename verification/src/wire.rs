//! The two messages that carry a roster: the introduction, and the start.

use vstd::prelude::*;

use crate::persist;
use crate::roster;
use crate::roster::{decode_seats, encode_seats, Seat, SeatModel};
use crate::text;

verus! {

/// Says who we are, and which match we are in.
pub const HI: &'static str = "hi:";

/// Asks for our seat back.
pub const REJOIN: &'static str = "rejoin:";

/// Starts a match, or starts it over with somebody back in their seat.
pub const GO: &'static str = "go:";

/// The match that is being played: how often it was rebuilt, who sits where,
/// and which seat is ours.
#[derive(Debug)]
pub struct MatchRoom {
    pub generation: u32,
    pub seats: Vec<Seat>,
    pub me: usize,
}

#[verifier::ext_equal]
pub struct RoomModel {
    pub generation: u32,
    pub seats: Seq<SeatModel>,
    pub me: usize,
}

impl View for MatchRoom {
    type V = RoomModel;

    open spec fn view(&self) -> RoomModel {
        RoomModel { generation: self.generation, seats: roster::roster(self.seats@), me: self.me }
    }
}

/// The room that we may be in, as contracts speak of it.
pub open spec fn room_view(room: Option<&MatchRoom>) -> Option<RoomModel> {
    match room {
        Some(r) => Some(r@),
        None => None,
    }
}

/// A start that has been heard or decided, not yet acted on: the world, where
/// there is one, is still the text that it came in.
#[derive(Debug)]
pub struct PendingGo {
    pub generation: u32,
    pub seats: Vec<Seat>,
    pub world: Option<String>,
}

#[verifier::ext_equal]
pub struct GoModel {
    pub generation: u32,
    pub seats: Seq<SeatModel>,
    pub world: Option<Seq<char>>,
}

/// An optional text, as contracts speak of it.
pub open spec fn text_view(t: Option<String>) -> Option<Seq<char>> {
    match t {
        Some(s) => Some(s@),
        None => None,
    }
}

impl View for PendingGo {
    type V = GoModel;

    open spec fn view(&self) -> GoModel {
        GoModel {
            generation: self.generation,
            seats: roster::roster(self.seats@),
            world: text_view(self.world),
        }
    }
}

pub open spec fn go_view(go: Option<PendingGo>) -> Option<GoModel> {
    match go {
        Some(g) => Some(g@),
        None => None,
    }
}

// ---------------------------------------------------------------------------
// The introduction.
// ---------------------------------------------------------------------------

/// What an introduction says of the match its sender is in.
pub type RoomState = Option<(u32, Seq<SeatModel>)>;

pub open spec fn state_of(room: Option<RoomModel>) -> RoomState {
    match room {
        Some(r) => Some((r.generation, r.seats)),
        None => None,
    }
}

pub open spec fn state_view(state: Option<(u32, Vec<Seat>)>) -> RoomState {
    match state {
        Some(s) => Some((s.0, roster::roster(s.1@))),
        None => None,
    }
}

/// The introduction, after its tag: the player, and the match or two hyphens.
/// You cannot know who we are without knowing whether we are busy.
pub open spec fn hi_body(player: Seq<char>, state: RoomState) -> Seq<char> {
    player + seq![':'] + (match state {
        Some((generation, seats)) => text::decimal(generation as nat) + seq![':']
            + roster::roster_text(seats),
        None => "-:-"@,
    })
}

/// What an introduction says, where it can be read.
pub open spec fn read_hi(rest: Seq<char>) -> Option<(Seq<char>, RoomState)> {
    match text::cut(rest, ':') {
        Some((name, more)) => match text::cut(more, ':') {
            Some((generation, seats)) => if !persist::token(name) {
                None
            } else if generation == "-"@ || seats == "-"@ {
                Some((name, None))
            } else {
                match (text::read_unsigned(generation, u32::MAX as nat), roster::read_roster(seats)) {
                    (Some(n), Some(read)) => Some((name, Some((n as u32, read)))),
                    _ => None,
                }
            },
            None => None,
        },
        None => None,
    }
}

proof fn lemma_hi(player: Seq<char>, state: RoomState)
    requires
        persist::token(player),
        state matches Some(s) ==> roster::sane(s.1),
    ensures
        text::cut(hi_body(player, state), ':') is Some,
        (text::cut(hi_body(player, state), ':')->0).0 == player,
        text::cut((text::cut(hi_body(player, state), ':')->0).1, ':') == (match state {
            Some((generation, seats)) => Some(
                (text::decimal(generation as nat), roster::roster_text(seats)),
            ),
            None => Some(("-"@, "-"@)),
        }),
        state matches Some(s) ==> {
            &&& text::decimal(s.0 as nat) != "-"@
            &&& roster::roster_text(s.1) != "-"@
            &&& text::read_unsigned(text::decimal(s.0 as nat), u32::MAX as nat) == Some(s.0 as nat)
        },
{
    reveal_strlit("-");
    reveal_strlit("-:-");
    persist::a_token_holds_no_separator(player, ':');
    match state {
        Some((generation, seats)) => {
            let shown = text::decimal(generation as nat);
            text::lemma_decimal(generation as nat);
            text::a_written_number_reads_back(generation as nat, u32::MAX as nat);
            roster::lemma_roster_text(seats);
            let more = shown + seq![':'] + roster::roster_text(seats);
            text::lemma_cut_at(player, ':', more);
            assert(!text::is_digit(':'));
            assert(text::free_of(shown, ':'));
            text::lemma_cut_at(shown, ':', roster::roster_text(seats));
            assert(text::is_digit(shown[0]));
            assert(!text::is_digit("-"@[0]));
        },
        None => {
            text::lemma_cut_at(player, ':', "-:-"@);
            assert("-:-"@ =~= "-"@ + seq![':'] + "-"@);
            text::lemma_cut_at("-"@, ':', "-"@);
        },
    }
}

/// Our introduction.
pub fn hi_message(player: &str, room: Option<&MatchRoom>) -> (out: String)
    ensures
        out@ == HI@ + hi_body(player@, state_of(room_view(room))),
{
    let mut out: String = text::copy_of(HI);
    out.append(player);
    match room {
        Some(room) => {
            out.push(':');
            text::append_number(&mut out, room.generation as u128);
            out.push(':');
            let seats = encode_seats(&room.seats);
            out.append(seats.as_str());
        },
        None => {
            out.push(':');
            out.append("-:-");
        },
    }
    assert(out@ =~= HI@ + hi_body(player@, state_of(room_view(room))));
    out
}

/// Reads an introduction. One that a player sent with a token for a name, and a
/// roster fit to travel, says what they meant.
pub fn parse_hi(rest: &str) -> (out: Option<(String, Option<(u32, Vec<Seat>)>)>)
    ensures
        match out {
            Some(got) => read_hi(rest@) == Some((got.0@, state_view(got.1))),
            None => read_hi(rest@) is None,
        },
        forall|player: Seq<char>, state: RoomState| #[trigger]
            hi_body(player, state) == rest@ && persist::token(player) && (state matches Some(s)
                ==> roster::sane(s.1)) ==> (out matches Some(got) && got.0@ == player && state_view(
                got.1,
            ) == state),
{
    assert forall|player: Seq<char>, state: RoomState| #[trigger]
        hi_body(player, state) == rest@ && persist::token(player) && (state matches Some(s)
            ==> roster::sane(s.1)) implies {
        let first = text::cut(rest@, ':');
        &&& first is Some
        &&& (first->0).0 == player
        &&& text::cut((first->0).1, ':') == (match state {
            Some((generation, seats)) => Some(
                (text::decimal(generation as nat), roster::roster_text(seats)),
            ),
            None => Some(("-"@, "-"@)),
        })
        &&& state matches Some(s) ==> {
            &&& text::decimal(s.0 as nat) != "-"@
            &&& roster::roster_text(s.1) != "-"@
            &&& text::read_unsigned(text::decimal(s.0 as nat), u32::MAX as nat) == Some(s.0 as nat)
        }
    } by {
        lemma_hi(player, state);
    }
    let chars = text::chars_of(rest);
    let (name, more) = match text::split_once(&chars, ':') {
        Some(halves) => halves,
        None => return None,
    };
    let (generation, seats) = match text::split_once(&more, ':') {
        Some(halves) => halves,
        None => return None,
    };
    if !persist::token_chars(&name) {
        return None;
    }
    let shown = text::string_of(&name);
    if text::spells(&generation, "-") || text::spells(&seats, "-") {
        return Some((shown, None));
    }
    let number: u64 = match text::parse_unsigned(&generation, u32::MAX as u64) {
        Some(n) => n,
        None => return None,
    };
    let listed = text::string_of(&seats);
    match decode_seats(listed.as_str()) {
        Some(read) => Some((shown, Some((number as u32, read)))),
        None => None,
    }
}

// ---------------------------------------------------------------------------
// The start.
// ---------------------------------------------------------------------------

/// A start, after its tag: the generation, the roster, and the world or nothing.
pub open spec fn go_body(generation: u32, seats: Seq<SeatModel>, blob: Seq<char>) -> Seq<char> {
    text::decimal(generation as nat) + seq![':'] + (roster::roster_text(seats) + seq!['|'] + blob)
}

/// What a start says, where it can be read. A blank world is none.
pub open spec fn read_go(rest: Seq<char>) -> Option<GoModel> {
    match text::cut(rest, ':') {
        Some((generation, more)) => match text::cut(more, '|') {
            Some((seats, blob)) => match (
                text::read_unsigned(generation, u32::MAX as nat),
                roster::read_roster(seats),
            ) {
                (Some(n), Some(read)) => Some(
                    GoModel {
                        generation: n as u32,
                        seats: read,
                        world: if text::is_blank(blob) {
                            None
                        } else {
                            Some(blob)
                        },
                    },
                ),
                _ => None,
            },
            None => None,
        },
        None => None,
    }
}

proof fn lemma_go(generation: u32, seats: Seq<SeatModel>, blob: Seq<char>)
    requires
        roster::sane(seats),
    ensures
        ({
            let shown = text::decimal(generation as nat);
            let more = roster::roster_text(seats) + seq!['|'] + blob;
            &&& text::cut(go_body(generation, seats, blob), ':') == Some((shown, more))
            &&& text::cut(more, '|') == Some((roster::roster_text(seats), blob))
            &&& text::read_unsigned(shown, u32::MAX as nat) == Some(generation as nat)
        }),
{
    let shown = text::decimal(generation as nat);
    let more = roster::roster_text(seats) + seq!['|'] + blob;
    text::lemma_decimal(generation as nat);
    text::a_written_number_reads_back(generation as nat, u32::MAX as nat);
    assert(!text::is_digit(':'));
    assert(text::free_of(shown, ':'));
    text::lemma_cut_at(shown, ':', more);
    roster::lemma_roster_text(seats);
    text::lemma_cut_at(roster::roster_text(seats), '|', blob);
}

/// The start of a match.
pub fn go_message(generation: u32, seats: &Vec<Seat>, blob: &str) -> (out: String)
    ensures
        out@ == GO@ + go_body(generation, roster::roster(seats@), blob@),
{
    let mut out: String = text::copy_of(GO);
    text::append_number(&mut out, generation as u128);
    out.push(':');
    let listed = encode_seats(seats);
    out.append(listed.as_str());
    out.push('|');
    out.append(blob);
    assert(out@ =~= GO@ + go_body(generation, roster::roster(seats@), blob@));
    out
}

/// Reads a start. One that was sent with a roster fit to travel carries that
/// generation, that roster, and the world as it was written.
pub fn parse_go(rest: &str) -> (out: Option<PendingGo>)
    ensures
        go_view(out) == read_go(rest@),
        forall|generation: u32, seats: Seq<SeatModel>, blob: Seq<char>| #[trigger]
            go_body(generation, seats, blob) == rest@ && roster::sane(seats) ==> go_view(out)
                == Some(
                GoModel {
                    generation,
                    seats,
                    world: if text::is_blank(blob) {
                        None
                    } else {
                        Some(blob)
                    },
                },
            ),
{
    assert forall|generation: u32, seats: Seq<SeatModel>, blob: Seq<char>| #[trigger]
        go_body(generation, seats, blob) == rest@ && roster::sane(seats) implies {
        let shown = text::decimal(generation as nat);
        let more = roster::roster_text(seats) + seq!['|'] + blob;
        &&& text::cut(rest@, ':') == Some((shown, more))
        &&& text::cut(more, '|') == Some((roster::roster_text(seats), blob))
        &&& text::read_unsigned(shown, u32::MAX as nat) == Some(generation as nat)
    } by {
        lemma_go(generation, seats, blob);
    }
    let chars = text::chars_of(rest);
    let (generation, more) = match text::split_once(&chars, ':') {
        Some(halves) => halves,
        None => return None,
    };
    let (seats, blob) = match text::split_once(&more, '|') {
        Some(halves) => halves,
        None => return None,
    };
    let listed = text::string_of(&seats);
    let read = match decode_seats(listed.as_str()) {
        Some(read) => read,
        None => return None,
    };
    let number: u64 = match text::parse_unsigned(&generation, u32::MAX as u64) {
        Some(n) => n,
        None => return None,
    };
    let world = if text::blank(&blob) {
        None
    } else {
        Some(text::string_of(&blob))
    };
    Some(PendingGo { generation: number as u32, seats: read, world })
}

/// The world that a message carries, if it is a start that carries one: what
/// has to be decoded before the message can be believed.
pub fn world_in(message: &str) -> (out: Option<String>)
    ensures
        text_view(out) == (match text::after(message@, GO@) {
            Some(rest) => match read_go(rest) {
                Some(go) => go.world,
                None => None,
            },
            None => None,
        }),
{
    let chars = text::chars_of(message);
    match text::strip_prefix(&chars, GO) {
        Some(rest) => {
            let body = text::string_of(&rest);
            match parse_go(body.as_str()) {
                Some(go) => go.world,
                None => None,
            }
        },
        None => None,
    }
}

// ---------------------------------------------------------------------------
// What holds of every message.
// ---------------------------------------------------------------------------

/// An introduction is the player, the generation and the roster with colons between them,
/// and two hyphens for the last two where there is no match.
pub proof fn how_an_introduction_travels(
    player: Seq<char>,
    generation: u32,
    seats: Seq<SeatModel>,
)
    ensures
        hi_body(player, None) == player + ":-:-"@,
        hi_body(player, Some((generation, seats))) == player + ":"@ + text::decimal(
            generation as nat,
        ) + ":"@ + roster::roster_text(seats),
        HI@ == "hi:"@,
        REJOIN@ == "rejoin:"@,
        GO@ == "go:"@,
{
    reveal_strlit(":");
    reveal_strlit("-:-");
    reveal_strlit(":-:-");
    assert(":"@ =~= seq![':']);
    assert(player + seq![':'] + "-:-"@ =~= player + ":-:-"@);
    let shown = text::decimal(generation as nat);
    let listed = roster::roster_text(seats);
    assert(player + seq![':'] + (shown + seq![':'] + listed) =~= player + ":"@ + shown + ":"@
        + listed);
}

/// An introduction is taken apart at its first two colons. It names a token, or it is
/// none; a hyphen in either of the other two places is no match, and else both have to
/// read.
pub proof fn what_an_introduction_says(
    name: Seq<char>,
    generation: Seq<char>,
    seats: Seq<char>,
)
    requires
        !name.contains(':'),
        !generation.contains(':'),
    ensures
        ({
            let said = read_hi(name + ":"@ + generation + ":"@ + seats);
            let number = text::read_unsigned(generation, u32::MAX as nat);
            let listed = roster::read_roster(seats);
            let none = generation == "-"@ || seats == "-"@;
            &&& !persist::token(name) ==> said is None
            &&& persist::token(name) && none ==> said == Some((name, None::<(u32, Seq<SeatModel>)>))
            &&& persist::token(name) && !none && number is Some && listed is Some ==> said == Some(
                (name, Some((number->0 as u32, listed->0))),
            )
            &&& persist::token(name) && !none && (number is None || listed is None) ==> said is None
            &&& read_hi(name) is None
            &&& read_hi(name + ":"@ + generation) is None
        }),
{
    reveal_strlit(":");
    assert(":"@ =~= seq![':']);
    assert(text::free_of(name, ':') && text::free_of(generation, ':'));
    let more = generation + seq![':'] + seats;
    assert(name + ":"@ + generation + ":"@ + seats =~= name + seq![':'] + more);
    text::lemma_cut_at(name, ':', more);
    text::lemma_cut_at(generation, ':', seats);
    text::lemma_cut_none(name, ':');
    text::lemma_cut_at(name, ':', generation);
    text::lemma_cut_none(generation, ':');
}

/// An introduction that a player in no match makes says just who they are.
pub proof fn an_idle_player_is_known_by_name(player: Seq<char>)
    requires
        persist::token(player),
    ensures
        read_hi(player + ":-:-"@) == Some((player, None::<(u32, Seq<SeatModel>)>)),
{
    reveal_strlit(":");
    reveal_strlit("-");
    reveal_strlit(":-:-");
    persist::a_token_holds_no_separator(player, ':');
    assert(!player.contains(':'));
    assert(!"-"@.contains(':'));
    what_an_introduction_says(player, "-"@, "-"@);
    assert(player + ":"@ + "-"@ + ":"@ + "-"@ =~= player + ":-:-"@);
}

/// A start is the generation, a colon, the roster, a bar, and the world.
pub proof fn how_a_start_travels(generation: u32, seats: Seq<SeatModel>, blob: Seq<char>)
    ensures
        go_body(generation, seats, blob) == text::decimal(generation as nat) + ":"@
            + roster::roster_text(seats) + "|"@ + blob,
{
    reveal_strlit(":");
    reveal_strlit("|");
    assert(":"@ =~= seq![':']);
    assert("|"@ =~= seq!['|']);
    let shown = text::decimal(generation as nat);
    let listed = roster::roster_text(seats);
    assert(shown + seq![':'] + (listed + seq!['|'] + blob) =~= shown + ":"@ + listed + "|"@ + blob);
}

/// A start is taken apart at its first colon and the first bar behind it. Its generation
/// and its roster have to read; what is behind the bar is the world as it is, bars and
/// all, and a blank is none.
pub proof fn what_a_start_says(generation: Seq<char>, seats: Seq<char>, blob: Seq<char>)
    requires
        !generation.contains(':'),
        !seats.contains('|'),
    ensures
        ({
            let said = read_go(generation + ":"@ + seats + "|"@ + blob);
            let number = text::read_unsigned(generation, u32::MAX as nat);
            let listed = roster::read_roster(seats);
            &&& number is None || listed is None ==> said is None
            &&& number is Some && listed is Some ==> (said matches Some(go) && go.generation
                == number->0 && go.seats == listed->0 && (text::is_blank(blob) ==> go.world is None)
                && (!text::is_blank(blob) ==> go.world == Some(blob)))
            &&& read_go(generation) is None
            &&& read_go(generation + ":"@ + seats) is None
        }),
{
    reveal_strlit(":");
    reveal_strlit("|");
    assert(":"@ =~= seq![':']);
    assert("|"@ =~= seq!['|']);
    assert(text::free_of(generation, ':') && text::free_of(seats, '|'));
    let more = seats + seq!['|'] + blob;
    assert(generation + ":"@ + seats + "|"@ + blob =~= generation + seq![':'] + more);
    text::lemma_cut_at(generation, ':', more);
    text::lemma_cut_at(seats, '|', blob);
    text::lemma_cut_none(generation, ':');
    text::lemma_cut_at(generation, ':', seats);
    text::lemma_cut_none(seats, '|');
}

/// Contracts speak of a match and of a start by what they hold.
pub proof fn a_match_is_seen_as_it_is(room: MatchRoom, go: PendingGo, text: String)
    ensures
        room@.generation == room.generation,
        room@.seats == roster::roster(room.seats@),
        room@.me == room.me,
        room_view(Some(&room)) == Some(room@),
        room_view(None) is None,
        go@.generation == go.generation,
        go@.seats == roster::roster(go.seats@),
        go.world matches Some(world) ==> go@.world == Some(world@),
        go.world is None ==> go@.world is None,
        go_view(Some(go)) == Some(go@),
        go_view(None) is None,
        text_view(Some(text)) == Some(text@),
        text_view(None) is None,
{
}

/// What an introduction says of a match is its generation and its roster.
pub proof fn a_state_is_seen_as_it_is(generation: u32, seats: Vec<Seat>)
    ensures
        state_view(Some((generation, seats))) == Some((generation, roster::roster(seats@))),
        state_view(None) is None,
{
}

} // verus!
