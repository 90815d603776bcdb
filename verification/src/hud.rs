//! What the overlays say: the clock and the score, the board, the troop count, the
//! lobby's status and its roster.

use vstd::prelude::*;

use crate::net::Lobby;
use crate::order;
use crate::order::Ranked;
use crate::text;
use crate::{MAX_PLAYERS, TEAM_COUNT, TICK_HZ};

verus! {

/// What the two sides are called.
pub const TEAM_NAMES: [&'static str; 2] = ["ALPHA", "BRAVO"];

/// How wide a name is on the board.
pub const NAME_COL: usize = 22;

/// How many lines the board has room for: a heading and a blank line for each
/// side, and a line for each pawn.
pub const BOARD_ROWS: usize = 12;

pub open spec fn team_name_text(side: int) -> Seq<char> {
    if side <= 0 {
        "ALPHA"@
    } else {
        "BRAVO"@
    }
}

/// What a side is called; anything past the last side is the last.
pub fn team_name(side: u8) -> (out: &'static str)
    ensures
        out@ == team_name_text(side as int),
{
    if side == 0 {
        "ALPHA"
    } else {
        "BRAVO"
    }
}

// ---------------------------------------------------------------------------
// The clock and the score.
// ---------------------------------------------------------------------------

/// Whole seconds, the one that has begun among them.
pub open spec fn seconds_of(ticks: nat) -> nat {
    ((ticks + (TICK_HZ - 1)) / (TICK_HZ as int)) as nat
}

/// Minutes and seconds.
pub open spec fn clock_text(ticks: nat) -> Seq<char> {
    let seconds = seconds_of(ticks);
    text::decimal(seconds / 60) + ":"@ + text::right_in(text::decimal(seconds % 60), '0', 2)
}

/// `1:47`, rounded up: the last second reads `0:01` for the whole of it.
pub fn clock(ticks: u32) -> (out: String)
    ensures
        out@ == clock_text(ticks as nat),
{
    let seconds: u64 = (ticks as u64 + (TICK_HZ as u64 - 1)) / TICK_HZ as u64;
    let mut out: String = text::number_text((seconds / 60) as u128);
    out.append(":");
    let shown = text::number_text((seconds % 60) as u128);
    let digits = text::chars_of(shown.as_str());
    let padded = text::pad_left(&digits, '0', 2);
    let tail = text::string_of(&padded);
    out.append(tail.as_str());
    out
}

/// The clock reads nothing only when there is nothing left.
pub proof fn the_clock_never_reads_zero_early(ticks: nat)
    requires
        ticks > 0,
    ensures
        clock_text(ticks) != clock_text(0),
{
    reveal_strlit(":");
    let s = seconds_of(ticks);
    assert(s >= 1);
    let minutes = text::decimal(s / 60);
    let secs = text::right_in(text::decimal(s % 60), '0', 2);
    let zero = text::decimal(0);
    let zeros = text::right_in(zero, '0', 2);
    text::lemma_decimal(s / 60);
    text::lemma_decimal(s % 60);
    text::lemma_decimal(0);
    assert(!text::is_digit(':'));
    assert(":"@ =~= seq![':']);
    assert(seconds_of(0) == 0);
    text::lemma_cut_at(minutes, ':', secs);
    text::lemma_cut_at(zero, ':', zeros);
    if clock_text(ticks) == clock_text(0) {
        assert(minutes == zero);
        assert(s / 60 == 0);
        assert(secs == zeros);
        lemma_two_digits(s % 60);
        lemma_two_digits(0);
        assert(text::worth(secs) == s % 60);
        assert(text::worth(zeros) == 0);
    }
}

proof fn lemma_two_digits(n: nat)
    requires
        n < 60,
    ensures
        text::worth(text::right_in(text::decimal(n), '0', 2)) == n,
{
    let d = text::decimal(n);
    let padded = text::right_in(d, '0', 2);
    text::lemma_decimal(n);
    if n < 10 {
        assert(d.len() == 1);
        assert(padded =~= seq!['0', d[0]]);
        assert(padded.drop_last() =~= seq!['0']);
        assert(padded.drop_last().drop_last() =~= Seq::<char>::empty());
        assert(d.drop_last() =~= Seq::<char>::empty());
        reveal_with_fuel(text::worth, 3);
    } else {
        assert(d.len() == 2) by {
            reveal_with_fuel(text::decimal, 2);
        }
        assert(padded == d);
    }
}

/// `ALPHA 2 - 1 BRAVO`, with the clock behind it while a round is fought.
/// `remaining` is what is left of the round, between rounds nothing.
pub fn round_line(in_game: bool, wins: Option<(u32, u32)>, remaining: Option<u32>) -> (out: String)
    ensures
        out@ == (match wins {
            Some((a, b)) => if in_game {
                let score = team_name_text(0) + " "@ + text::decimal(a as nat) + " - "@
                    + text::decimal(b as nat) + " "@ + team_name_text(1);
                match remaining {
                    Some(left) => score + "    "@ + clock_text(left as nat),
                    None => score,
                }
            } else {
                Seq::empty()
            },
            None => Seq::empty(),
        }),
{
    let mut out: String = String::new();
    let score: (u32, u32) = match wins {
        Some(score) => score,
        None => return out,
    };
    if !in_game {
        return out;
    }
    out.append(team_name(0));
    out.append(" ");
    text::append_number(&mut out, score.0 as u128);
    out.append(" - ");
    text::append_number(&mut out, score.1 as u128);
    out.append(" ");
    out.append(team_name(1));
    proof {
        let a = score.0 as nat;
        let b = score.1 as nat;
        assert(out@ =~= team_name_text(0) + " "@ + text::decimal(a) + " - "@ + text::decimal(b)
            + " "@ + team_name_text(1));
    }
    if let Some(left) = remaining {
        out.append("    ");
        let shown = clock(left);
        out.append(shown.as_str());
    }
    out
}

// ---------------------------------------------------------------------------
// Names.
// ---------------------------------------------------------------------------

/// What a pawn is called, everywhere a pawn is called anything. Bots take the
/// handles above the seats and are numbered from there.
pub open spec fn pawn_name_text(handle: nat, is_bot: bool, seats: nat) -> Seq<char> {
    if is_bot {
        "Bot "@ + text::decimal(
            if handle > seats {
                (handle - seats + 1) as nat
            } else {
                1
            },
        )
    } else {
        "Player "@ + text::decimal(handle + 1)
    }
}

pub fn pawn_name(handle: usize, is_bot: bool, num_players: usize) -> (out: String)
    requires
        handle < usize::MAX,
    ensures
        out@ == pawn_name_text(handle as nat, is_bot, num_players as nat),
{
    if is_bot {
        let mut out: String = text::copy_of("Bot ");
        let n: usize = handle.saturating_sub(num_players) + 1;
        text::append_number(&mut out, n as u128);
        out
    } else {
        let mut out: String = text::copy_of("Player ");
        text::append_number(&mut out, (handle + 1) as u128);
        out
    }
}

/// No two pawns of a match share a name: players sit below the seat count, and
/// bots at or above it.
pub proof fn names_tell_pawns_apart(a: nat, a_bot: bool, b: nat, b_bot: bool, seats: nat)
    requires
        a != b,
        a_bot ==> a >= seats,
        b_bot ==> b >= seats,
    ensures
        pawn_name_text(a, a_bot, seats) != pawn_name_text(b, b_bot, seats),
{
    reveal_strlit("Bot ");
    reveal_strlit("Player ");
    let left = pawn_name_text(a, a_bot, seats);
    let right = pawn_name_text(b, b_bot, seats);
    if a_bot != b_bot {
        assert(left[0] != right[0]);
    } else if a_bot {
        let m = (a - seats + 1) as nat;
        let n = (b - seats + 1) as nat;
        text::lemma_after("Bot "@, text::decimal(m));
        text::lemma_after("Bot "@, text::decimal(n));
        text::lemma_decimal(m);
        text::lemma_decimal(n);
    } else {
        text::lemma_after("Player "@, text::decimal(a + 1));
        text::lemma_after("Player "@, text::decimal(b + 1));
        text::lemma_decimal(a + 1);
        text::lemma_decimal(b + 1);
    }
}

/// What the button says that moves the camera on: who is watched, and that there
/// are more.
pub fn spectate_label(handle: usize, is_bot: bool, num_players: usize) -> (out: String)
    requires
        handle < usize::MAX,
    ensures
        out@ == pawn_name_text(handle as nat, is_bot, num_players as nat) + " >"@,
{
    let mut out: String = pawn_name(handle, is_bot, num_players);
    out.append(" >");
    out
}

// ---------------------------------------------------------------------------
// Watching the roster.
// ---------------------------------------------------------------------------

/// A pawn on the roster.
#[derive(Debug, Clone, Copy, PartialEq, Eq, Structural)]
pub struct RosterPawn {
    pub handle: usize,
    pub is_bot: bool,
}

impl Ranked for RosterPawn {
    open spec fn le(self, other: Self) -> bool {
        self.handle < other.handle || (self.handle == other.handle && (self.is_bot
            || !other.is_bot))
    }

    proof fn le_total(a: Self, b: Self) {
    }

    proof fn le_trans(a: Self, b: Self, c: Self) {
    }

    fn may_precede(&self, other: &Self) -> (yes: bool) {
        self.handle < other.handle || (self.handle == other.handle && (self.is_bot
            || !other.is_bot))
    }
}

pub type NamedPawn = (usize, Seq<char>);

pub open spec fn named_view(seen: Seq<(usize, String)>) -> Seq<NamedPawn> {
    seen.map_values(|n: (usize, String)| (n.0, n.1@))
}

/// The roster in handle order, with the names.
pub open spec fn named_roster(pawns: Seq<RosterPawn>, seats: nat) -> Seq<NamedPawn> {
    order::arranged(pawns).map_values(
        |p: RosterPawn| (p.handle, pawn_name_text(p.handle as nat, p.is_bot, seats)),
    )
}

/// Whether two rosters list the same handles.
pub open spec fn same_handles(a: Seq<NamedPawn>, b: Seq<NamedPawn>) -> bool {
    &&& a.len() == b.len()
    &&& forall|i: int| 0 <= i < a.len() ==> (#[trigger] a[i]).0 == b[i].0
}

/// What `str::to_uppercase` makes of a text.
pub uninterp spec fn uppercase(t: Seq<char>) -> Seq<char>;

/// A letter of the English alphabet in capitals, anything else as it is.
pub open spec fn capital(c: char) -> char {
    if 97 <= c as u32 <= 122 {
        (c as u32 - 32) as char
    } else {
        c
    }
}

pub open spec fn is_ascii(t: Seq<char>) -> bool {
    forall|i: int| 0 <= i < t.len() ==> #[trigger] t[i] as u32 <= 127
}

/// `str::to_uppercase`. Of a text in ASCII it makes the same text with its
/// letters in capitals.
#[verifier::external_body]
fn to_uppercase(t: &str) -> (out: String)
    ensures
        out@ == uppercase(t@),
        is_ascii(t@) ==> out@ == shouted(t@),
{
    t.to_uppercase()
}

/// The names, in capitals, of whoever is in `from` and has no handle in `other`.
pub open spec fn missing(from: Seq<NamedPawn>, other: Seq<NamedPawn>) -> Seq<Seq<char>>
    decreases from.len(),
{
    if from.len() == 0 {
        Seq::empty()
    } else {
        let rest = missing(from.drop_last(), other);
        if exists|i: int| 0 <= i < other.len() && (#[trigger] other[i]).0 == from.last().0 {
            rest
        } else {
            rest.push(uppercase(from.last().1))
        }
    }
}

/// A text in ASCII with its letters in capitals.
pub open spec fn shouted(t: Seq<char>) -> Seq<char> {
    t.map_values(|c: char| capital(c))
}

/// The same as [`missing`], letter by letter, for names in ASCII.
pub open spec fn missing_shouted(from: Seq<NamedPawn>, other: Seq<NamedPawn>) -> Seq<Seq<char>>
    decreases from.len(),
{
    if from.len() == 0 {
        Seq::empty()
    } else {
        let rest = missing_shouted(from.drop_last(), other);
        if exists|i: int| 0 <= i < other.len() && (#[trigger] other[i]).0 == from.last().0 {
            rest
        } else {
            rest.push(shouted(from.last().1))
        }
    }
}

/// Whether all names of a roster are in ASCII, as pawns' names are.
pub open spec fn plain_names(row: Seq<NamedPawn>) -> bool {
    forall|i: int| 0 <= i < row.len() ==> is_ascii((#[trigger] row[i]).1)
}

/// What is said of a change, by who joined and who left: one at a time is named.
pub open spec fn change_text(joined: Seq<Seq<char>>, gone: Seq<Seq<char>>) -> Seq<char> {
    if joined.len() == 1 && gone.len() == 0 {
        joined[0] + " JOINED"@
    } else if joined.len() == 0 && gone.len() == 1 {
        gone[0] + " LEFT"@
    } else {
        "ROSTER CHANGED"@
    }
}

pub fn change_line(joined: &Vec<String>, gone: &Vec<String>) -> (out: String)
    ensures
        out@ == change_text(
            joined@.map_values(|s: String| s@),
            gone@.map_values(|s: String| s@),
        ),
{
    if joined.len() == 1 && gone.len() == 0 {
        let mut out: String = text::copy_of(joined[0].as_str());
        out.append(" JOINED");
        out
    } else if joined.len() == 0 && gone.len() == 1 {
        let mut out: String = text::copy_of(gone[0].as_str());
        out.append(" LEFT");
        out
    } else {
        text::copy_of("ROSTER CHANGED")
    }
}

fn lists_handle(row: &Vec<(usize, String)>, handle: usize) -> (yes: bool)
    ensures
        yes == exists|i: int|
            0 <= i < named_view(row@).len() && (#[trigger] named_view(row@)[i]).0 == handle,
{
    let mut i: usize = 0;
    while i < row.len()
        invariant
            i <= row.len(),
            forall|j: int| 0 <= j < i ==> (#[trigger] named_view(row@)[j]).0 != handle,
        decreases row.len() - i,
    {
        if row[i].0 == handle {
            assert(named_view(row@)[i as int].0 == handle);
            return true;
        }
        i = i + 1;
    }
    false
}

fn list_missing(from: &Vec<(usize, String)>, other: &Vec<(usize, String)>) -> (out: Vec<String>)
    ensures
        out@.map_values(|s: String| s@) == missing(named_view(from@), named_view(other@)),
        plain_names(named_view(from@)) ==> out@.map_values(|s: String| s@) == missing_shouted(
            named_view(from@),
            named_view(other@),
        ),
{
    let mut out: Vec<String> = Vec::new();
    let mut i: usize = 0;
    let ghost all = named_view(from@);
    assert(all.take(0) =~= Seq::empty());
    assert(out@.map_values(|s: String| s@) =~= Seq::empty());
    while i < from.len()
        invariant
            i <= from.len(),
            all == named_view(from@),
            out@.map_values(|s: String| s@) == missing(all.take(i as int), named_view(other@)),
            plain_names(all) ==> out@.map_values(|s: String| s@) == missing_shouted(
                all.take(i as int),
                named_view(other@),
            ),
        decreases from.len() - i,
    {
        let ghost before = out@.map_values(|s: String| s@);
        proof {
            assert(all.take(i + 1).drop_last() =~= all.take(i as int));
            assert(all.take(i + 1).last() == all[i as int]);
            assert(plain_names(all) ==> is_ascii(all[i as int].1));
        }
        if !lists_handle(other, from[i].0) {
            let next = to_uppercase(from[i].1.as_str());
            out.push(next);
            assert(out@.map_values(|s: String| s@) =~= before.push(next@));
        }
        i = i + 1;
    }
    assert(all.take(i as int) =~= all);
    out
}

/// `BOT 3 JOINED` or `BOT 3 LEFT`; where more than one moved at once, only that
/// something did. Who left is named from what was stored before they went.
pub fn roster_headline(before: &Vec<(usize, String)>, after: &Vec<(usize, String)>) -> (out: String)
    ensures
        out@ == change_text(
            missing(named_view(after@), named_view(before@)),
            missing(named_view(before@), named_view(after@)),
        ),
        plain_names(named_view(before@)) && plain_names(named_view(after@)) ==> out@
            == change_text(
            missing_shouted(named_view(after@), named_view(before@)),
            missing_shouted(named_view(before@), named_view(after@)),
        ),
{
    let joined = list_missing(after, before);
    let gone = list_missing(before, after);
    change_line(&joined, &gone)
}

/// Who was on the roster last frame, and what is to be said of the last change.
#[derive(Debug)]
pub struct BoardFlash {
    pub seen: Vec<(usize, String)>,
    pub headline: String,
}

impl Default for BoardFlash {
    fn default() -> (out: Self)
        ensures
            out.wf(),
            named_view(out.seen@) == Seq::<NamedPawn>::empty(),
            out.headline@ == Seq::<char>::empty(),
    {
        let out = BoardFlash { seen: Vec::new(), headline: String::new() };
        assert(named_view(out.seen@) =~= Seq::empty());
        out
    }
}

fn name_roster(pawns: &Vec<RosterPawn>, seats: usize) -> (out: Vec<(usize, String)>)
    requires
        forall|i: int| 0 <= i < pawns@.len() ==> (#[trigger] pawns@[i]).handle < usize::MAX,
    ensures
        named_view(out@) == named_roster(pawns@, seats as nat),
{
    let ordered = order::arrange(pawns);
    let ghost wanted = named_roster(pawns@, seats as nat);
    let mut out: Vec<(usize, String)> = Vec::new();
    let mut i: usize = 0;
    assert(named_view(out@) =~= wanted.take(0));
    assert forall|k: int| 0 <= k < ordered@.len() implies (#[trigger] ordered@[k]).handle
        < usize::MAX by {
        order::lemma_arranged_contains(pawns@, ordered@[k]);
        assert(ordered@.contains(ordered@[k]));
        let j = choose|j: int| 0 <= j < pawns@.len() && pawns@[j] == ordered@[k];
        assert(pawns@[j].handle < usize::MAX);
    }
    while i < ordered.len()
        invariant
            i <= ordered.len(),
            ordered@ == order::arranged(pawns@),
            wanted == named_roster(pawns@, seats as nat),
            named_view(out@) == wanted.take(i as int),
            forall|k: int| 0 <= k < ordered@.len() ==> (#[trigger] ordered@[k]).handle
                < usize::MAX,
        decreases ordered.len() - i,
    {
        let ghost before = named_view(out@);
        let pawn = ordered[i];
        let name = pawn_name(pawn.handle, pawn.is_bot, seats);
        out.push((pawn.handle, name));
        assert(named_view(out@) =~= before.push((pawn.handle, name@)));
        assert(wanted[i as int] == (pawn.handle, name@));
        assert(wanted.take(i + 1) =~= before.push(wanted[i as int]));
        i = i + 1;
    }
    assert(wanted.take(i as int) =~= wanted);
    out
}

fn equal_handles(a: &Vec<(usize, String)>, b: &Vec<(usize, String)>) -> (yes: bool)
    ensures
        yes == same_handles(named_view(a@), named_view(b@)),
{
    if a.len() != b.len() {
        return false;
    }
    let mut i: usize = 0;
    while i < a.len()
        invariant
            i <= a.len(),
            a.len() == b.len(),
            forall|j: int| 0 <= j < i ==> (#[trigger] named_view(a@)[j]).0 == named_view(b@)[j].0,
        decreases a.len() - i,
    {
        if a[i].0 != b[i].0 {
            assert(named_view(a@)[i as int].0 != named_view(b@)[i as int].0);
            return false;
        }
        i = i + 1;
    }
    true
}

/// Pawns' names are in ASCII.
pub proof fn lemma_plain_name(handle: nat, is_bot: bool, seats: nat)
    ensures
        is_ascii(pawn_name_text(handle, is_bot, seats)),
{
    reveal_strlit("Bot ");
    reveal_strlit("Player ");
    let n = if is_bot {
        if handle > seats {
            (handle - seats + 1) as nat
        } else {
            1
        }
    } else {
        handle + 1
    };
    text::lemma_decimal(n);
    assert forall|i: int| 0 <= i < pawn_name_text(handle, is_bot, seats).len() implies
        #[trigger] pawn_name_text(handle, is_bot, seats)[i] as u32 <= 127 by {
        let head = if is_bot {
            "Bot "@
        } else {
            "Player "@
        };
        if i >= head.len() {
            assert(text::is_digit(text::decimal(n)[i - head.len()]));
        }
    }
}

impl BoardFlash {
    /// The names that are kept are pawns' names.
    pub open spec fn wf(self) -> bool {
        plain_names(named_view(self.seen@))
    }

    /// A frame of watching. Says whether the board is to be shown: when handles
    /// came or went, but not when the roster was empty before or is now, which is
    /// a match being built or torn down. Names are taken anew every frame.
    pub fn watch_roster(&mut self, in_game: bool, pawns: &Vec<RosterPawn>, seats: usize) -> (armed:
        bool)
        requires
            old(self).wf(),
            forall|i: int| 0 <= i < pawns@.len() ==> (#[trigger] pawns@[i]).handle < usize::MAX,
        ensures
            final(self).wf(),
            ({
                let before = named_view(old(self).seen@);
                let now = named_roster(pawns@, seats as nat);
                &&& armed == (in_game && !same_handles(now, before) && now.len() > 0
                    && before.len() > 0)
                &&& named_view(final(self).seen@) == (if in_game {
                    now
                } else {
                    Seq::empty()
                })
                &&& final(self).headline@ == (if armed {
                    change_text(missing_shouted(now, before), missing_shouted(before, now))
                } else {
                    old(self).headline@
                })
            }),
    {
        if !in_game {
            self.seen = Vec::new();
            assert(named_view(self.seen@) =~= Seq::empty());
            return false;
        }
        let now = name_roster(pawns, seats);
        proof {
            let ordered = order::arranged(pawns@);
            let row = named_roster(pawns@, seats as nat);
            assert forall|i: int| 0 <= i < row.len() implies is_ascii((#[trigger] row[i]).1) by {
                lemma_plain_name(ordered[i].handle as nat, ordered[i].is_bot, seats as nat);
            }
        }
        let armed: bool = !equal_handles(&now, &self.seen) && now.len() > 0 && self.seen.len() > 0;
        if armed {
            self.headline = roster_headline(&self.seen, &now);
        }
        self.seen = now;
        armed
    }
}

// ---------------------------------------------------------------------------
// The banner.
// ---------------------------------------------------------------------------

/// Who took a round.
#[derive(Debug, Clone, Copy, PartialEq, Eq, Structural)]
pub enum Winner {
    Team(u8),
    Draw,
}

/// A round that has been decided, and what is left until the next.
#[derive(Debug, Clone, Copy, PartialEq, Eq, Structural)]
pub struct Decided {
    pub number: u32,
    pub winner: Winner,
    pub left: u32,
}

/// The banner's two lines; an empty one takes no room.
#[derive(Debug)]
pub struct Banner {
    pub headline: String,
    pub countdown: String,
}

pub open spec fn result_text(number: nat, winner: Winner) -> Seq<char> {
    match winner {
        Winner::Team(side) => team_name_text(side as int) + " WINS ROUND "@ + text::decimal(number),
        Winner::Draw => "ROUND "@ + text::decimal(number) + " DRAWN"@,
    }
}

/// The banner, if it is up: between rounds with the result and a count-in, which
/// outranks a change of the roster, and else for a while after such a change.
pub fn banner(in_game: bool, decided: Option<Decided>, flashing: bool, change: &str) -> (out: Option<
    Banner,
>)
    ensures
        match out {
            Some(lines) => in_game && (match decided {
                Some(d) => {
                    &&& lines.headline@ == result_text(d.number as nat, d.winner)
                    &&& lines.countdown@ == "NEXT ROUND IN "@ + clock_text(d.left as nat)
                },
                None => {
                    &&& flashing
                    &&& lines.headline@ == change@
                    &&& lines.countdown@ == Seq::<char>::empty()
                },
            }),
            None => !in_game || (decided is None && !flashing),
        },
{
    if !in_game {
        return None;
    }
    match decided {
        Some(d) => {
            let mut headline: String = String::new();
            match d.winner {
                Winner::Team(side) => {
                    headline.append(team_name(side));
                    headline.append(" WINS ROUND ");
                    text::append_number(&mut headline, d.number as u128);
                },
                Winner::Draw => {
                    headline.append("ROUND ");
                    text::append_number(&mut headline, d.number as u128);
                    headline.append(" DRAWN");
                },
            }
            assert(headline@ =~= result_text(d.number as nat, d.winner));
            let mut countdown: String = text::copy_of("NEXT ROUND IN ");
            let shown = clock(d.left);
            countdown.append(shown.as_str());
            Some(Banner { headline, countdown })
        },
        None => {
            if flashing {
                Some(Banner { headline: text::copy_of(change), countdown: String::new() })
            } else {
                None
            }
        },
    }
}

// ---------------------------------------------------------------------------
// The board.
// ---------------------------------------------------------------------------

/// What the board reads off a pawn, in the order the board sorts by.
#[derive(Debug, Clone, Copy, PartialEq, Eq, Structural)]
pub struct ScoreRow {
    pub side: u8,
    pub handle: usize,
    pub alive: bool,
    pub kills: u32,
    pub deaths: u32,
    pub is_bot: bool,
}

impl Ranked for ScoreRow {
    open spec fn le(self, other: Self) -> bool {
        ||| self.side < other.side
        ||| self.side == other.side && self.handle < other.handle
        ||| self.side == other.side && self.handle == other.handle && !self.alive && other.alive
        ||| self.side == other.side && self.handle == other.handle && self.alive == other.alive
            && self.kills < other.kills
        ||| self.side == other.side && self.handle == other.handle && self.alive == other.alive
            && self.kills == other.kills && self.deaths < other.deaths
        ||| self.side == other.side && self.handle == other.handle && self.alive == other.alive
            && self.kills == other.kills && self.deaths == other.deaths && (!self.is_bot
            || other.is_bot)
    }

    proof fn le_total(a: Self, b: Self) {
    }

    proof fn le_trans(a: Self, b: Self, c: Self) {
    }

    fn may_precede(&self, other: &Self) -> (yes: bool) {
        if self.side != other.side {
            return self.side < other.side;
        }
        if self.handle != other.handle {
            return self.handle < other.handle;
        }
        if self.alive != other.alive {
            return !self.alive;
        }
        if self.kills != other.kills {
            return self.kills < other.kills;
        }
        if self.deaths != other.deaths {
            return self.deaths < other.deaths;
        }
        !self.is_bot || other.is_bot
    }
}

/// One line of the board, and whether its pawn is out of the round.
#[derive(Debug, PartialEq, Eq)]
pub struct BoardEntry {
    pub text: String,
    pub dead: bool,
}

#[verifier::ext_equal]
pub struct EntryModel {
    pub text: Seq<char>,
    pub dead: bool,
}

impl View for BoardEntry {
    type V = EntryModel;

    open spec fn view(&self) -> EntryModel {
        EntryModel { text: self.text@, dead: self.dead }
    }
}

pub open spec fn board_view(lines: Seq<BoardEntry>) -> Seq<EntryModel> {
    lines.map_values(|e: BoardEntry| e@)
}

/// `5k 3d`.
pub open spec fn score_text(kills: nat, deaths: nat) -> Seq<char> {
    text::decimal(kills) + "k "@ + text::decimal(deaths) + "d"@
}

pub fn score_label(kills: u32, deaths: u32) -> (out: String)
    ensures
        out@ == score_text(kills as nat, deaths as nat),
{
    let mut out: String = text::number_text(kills as u128);
    out.append("k ");
    text::append_number(&mut out, deaths as u128);
    out.append("d");
    out
}

/// A measured round trip to a handle's peer, in milliseconds.
#[derive(Debug, Clone, Copy, PartialEq, Eq, Structural)]
pub struct Ping {
    pub handle: usize,
    pub ms: u128,
}

/// The first measurement for a handle.
pub open spec fn ping_of(pings: Seq<Ping>, handle: usize) -> Option<u128>
    decreases pings.len(),
{
    if pings.len() == 0 {
        None
    } else if pings[0].handle == handle {
        Some(pings[0].ms)
    } else {
        ping_of(pings.drop_first(), handle)
    }
}

fn find_ping(pings: &Vec<Ping>, handle: usize) -> (out: Option<u128>)
    ensures
        out == ping_of(pings@, handle),
{
    let mut i: usize = 0;
    assert(pings@.skip(0) =~= pings@);
    while i < pings.len()
        invariant
            i <= pings.len(),
            ping_of(pings@, handle) == ping_of(pings@.skip(i as int), handle),
        decreases pings.len() - i,
    {
        if pings[i].handle == handle {
            return Some(pings[i].ms);
        }
        assert(pings@.skip(i as int).drop_first() =~= pings@.skip(i + 1));
        i = i + 1;
    }
    None
}

fn lists(row: &Vec<usize>, handle: usize) -> (yes: bool)
    ensures
        yes == row@.contains(handle),
{
    let mut i: usize = 0;
    while i < row.len()
        invariant
            i <= row.len(),
            forall|j: int| 0 <= j < i ==> row@[j] != handle,
        decreases row.len() - i,
    {
        if row[i] == handle {
            assert(row@[i as int] == handle);
            return true;
        }
        i = i + 1;
    }
    false
}

/// What the board says of one pawn: its name in its column, `(you)` where it is
/// ours, the score, and the ping where one was measured. Bots have neither.
pub open spec fn row_text(
    row: ScoreRow,
    local: Seq<usize>,
    seats: nat,
    pings: Seq<Ping>,
) -> Seq<char> {
    let name = pawn_name_text(row.handle as nat, row.is_bot, seats);
    let who = if !row.is_bot && local.contains(row.handle) {
        name + " (you)"@
    } else {
        name
    };
    let ping = match ping_of(pings, row.handle) {
        Some(ms) => if row.is_bot {
            Seq::empty()
        } else {
            "  "@ + text::decimal(ms as nat) + "ms"@
        },
        None => Seq::empty(),
    };
    text::left_in(who, NAME_COL as nat) + score_text(row.kills as nat, row.deaths as nat) + ping
}

pub open spec fn heading(t: Seq<char>) -> EntryModel {
    EntryModel { text: t, dead: false }
}

pub open spec fn heading_text(side: u8) -> Seq<char> {
    "- "@ + team_name_text(side as int) + " -"@
}

/// The lines that a pawn adds behind a pawn of side `above`: a heading where its
/// side begins, after a blank line where it is not the first, and its own.
pub open spec fn row_lines(
    above: Option<u8>,
    row: ScoreRow,
    local: Seq<usize>,
    seats: nat,
    pings: Seq<Ping>,
) -> Seq<EntryModel> {
    let own = seq![EntryModel { text: row_text(row, local, seats, pings), dead: !row.alive }];
    match above {
        None => seq![heading(heading_text(row.side))] + own,
        Some(side) => if side != row.side {
            seq![heading(Seq::empty()), heading(heading_text(row.side))] + own
        } else {
            own
        },
    }
}

/// The board of pawns that are in order.
pub open spec fn board_of(
    rows: Seq<ScoreRow>,
    local: Seq<usize>,
    seats: nat,
    pings: Seq<Ping>,
) -> Seq<EntryModel>
    decreases rows.len(),
{
    if rows.len() == 0 {
        Seq::empty()
    } else {
        let above = if rows.len() == 1 {
            None
        } else {
            Some(rows[rows.len() - 2].side)
        };
        board_of(rows.drop_last(), local, seats, pings) + row_lines(
            above,
            rows.last(),
            local,
            seats,
            pings,
        )
    }
}

fn row_label(row: ScoreRow, local: &Vec<usize>, seats: usize, pings: &Vec<Ping>) -> (out: String)
    requires
        row.handle < usize::MAX,
    ensures
        out@ == row_text(row, local@, seats as nat, pings@),
{
    let mut who: String = pawn_name(row.handle, row.is_bot, seats);
    if !row.is_bot && lists(local, row.handle) {
        who.append(" (you)");
    }
    let chars = text::chars_of(who.as_str());
    let column = text::pad_right(&chars, NAME_COL);
    let mut out: String = text::string_of(&column);
    let score = score_label(row.kills, row.deaths);
    out.append(score.as_str());
    let ghost so_far = out@;
    if !row.is_bot {
        if let Some(ms) = find_ping(pings, row.handle) {
            out.append("  ");
            text::append_number(&mut out, ms);
            out.append("ms");
            assert(out@ =~= so_far + ("  "@ + text::decimal(ms as nat) + "ms"@));
        }
    }
    assert(out@ =~= row_text(row, local@, seats as nat, pings@));
    out
}

/// The scoreboard: a line for every pawn under a heading for each side, in order
/// of side and then of handle. Every pawn is on it, with a seat or without.
pub fn board_rows(
    scores: &Vec<ScoreRow>,
    local: &Vec<usize>,
    seats: usize,
    pings: &Vec<Ping>,
) -> (out: Vec<BoardEntry>)
    requires
        forall|i: int| 0 <= i < scores@.len() ==> (#[trigger] scores@[i]).handle < usize::MAX,
    ensures
        board_view(out@) == board_of(order::arranged(scores@), local@, seats as nat, pings@),
{
    let rows = order::arrange(scores);
    let mut lines: Vec<BoardEntry> = Vec::new();
    let mut above: Option<u8> = None;
    let mut i: usize = 0;
    assert(rows@.take(0) =~= Seq::empty());
    assert(board_view(lines@) =~= Seq::empty());
    assert forall|k: int| 0 <= k < rows@.len() implies (#[trigger] rows@[k]).handle
        < usize::MAX by {
        order::lemma_arranged_contains(scores@, rows@[k]);
        assert(rows@.contains(rows@[k]));
        let j = choose|j: int| 0 <= j < scores@.len() && scores@[j] == rows@[k];
        assert(scores@[j].handle < usize::MAX);
    }
    while i < rows.len()
        invariant
            i <= rows.len(),
            rows@ == order::arranged(scores@),
            forall|k: int| 0 <= k < rows@.len() ==> (#[trigger] rows@[k]).handle < usize::MAX,
            above == (if i == 0 {
                None
            } else {
                Some(rows@[i - 1].side)
            }),
            board_view(lines@) == board_of(
                rows@.take(i as int),
                local@,
                seats as nat,
                pings@,
            ),
        decreases rows.len() - i,
    {
        let row = rows[i];
        let ghost before = board_view(lines@);
        let mut fresh: bool = true;
        if let Some(side) = above {
            if side == row.side {
                fresh = false;
            } else {
                lines.push(BoardEntry { text: String::new(), dead: false });
                assert(board_view(lines@) =~= before.push(heading(Seq::empty())));
            }
        }
        let ghost then = board_view(lines@);
        if fresh {
            let mut title: String = text::copy_of("- ");
            title.append(team_name(row.side));
            title.append(" -");
            lines.push(BoardEntry { text: title, dead: false });
            assert(board_view(lines@) =~= then.push(heading(heading_text(row.side))));
            above = Some(row.side);
        }
        let ghost last = board_view(lines@);
        let label = row_label(row, local, seats, pings);
        lines.push(BoardEntry { text: label, dead: !row.alive });
        proof {
            let own = EntryModel {
                text: row_text(row, local@, seats as nat, pings@),
                dead: !row.alive,
            };
            assert(board_view(lines@) =~= last.push(own));
            let seen = rows@.take(i + 1);
            assert(seen.drop_last() =~= rows@.take(i as int));
            let over = if i == 0 {
                None
            } else {
                Some(rows@[i - 1].side)
            };
            assert(board_view(lines@) =~= before + row_lines(
                over,
                row,
                local@,
                seats as nat,
                pings@,
            ));
        }
        i = i + 1;
    }
    assert(rows@.take(i as int) =~= rows@);
    lines
}

proof fn lemma_board_len(rows: Seq<ScoreRow>, local: Seq<usize>, seats: nat, pings: Seq<Ping>)
    requires
        order::in_order(rows),
        forall|i: int| 0 <= i < rows.len() ==> (#[trigger] rows[i]).side < TEAM_COUNT,
    ensures
        rows.len() == 0 ==> board_of(rows, local, seats, pings).len() == 0,
        rows.len() > 0 ==> rows.len() + 1 <= board_of(rows, local, seats, pings).len()
            <= rows.len() + 1 + 2 * rows.last().side,
    decreases rows.len(),
{
    if rows.len() > 0 {
        let rest = rows.drop_last();
        assert forall|i: int, j: int| 0 <= i < j < rest.len() implies #[trigger] rest[i].le(
            #[trigger] rest[j],
        ) by {
            assert(rows[i].le(rows[j]));
        }
        assert forall|i: int| 0 <= i < rest.len() implies (#[trigger] rest[i]).side
            < TEAM_COUNT by {
            assert(rows[i] == rest[i]);
        }
        lemma_board_len(rest, local, seats, pings);
        if rows.len() > 1 {
            assert(rows[rows.len() - 2].le(rows[rows.len() - 1]));
            assert(rest.last() == rows[rows.len() - 2]);
        }
    }
}

/// A full match fits the board: as many pawns as there are, on two sides, take no
/// more lines than it has.
pub proof fn the_board_has_room(
    scores: Seq<ScoreRow>,
    local: Seq<usize>,
    seats: nat,
    pings: Seq<Ping>,
)
    requires
        scores.len() <= MAX_PLAYERS,
        forall|i: int| 0 <= i < scores.len() ==> (#[trigger] scores[i]).side < TEAM_COUNT,
    ensures
        board_of(order::arranged(scores), local, seats, pings).len() <= BOARD_ROWS,
{
    let rows = order::arranged(scores);
    order::arranging_puts_in_order(scores);
    assert forall|k: int| 0 <= k < rows.len() implies (#[trigger] rows[k]).side < TEAM_COUNT by {
        order::lemma_arranged_contains(scores, rows[k]);
        assert(rows.contains(rows[k]));
        let j = choose|j: int| 0 <= j < scores.len() && scores[j] == rows[k];
        assert(scores[j].side < TEAM_COUNT);
    }
    lemma_board_len(rows, local, seats, pings);
}

// ---------------------------------------------------------------------------
// The troop count and the lobby's roster.
// ---------------------------------------------------------------------------

/// `> ALPHA 3`: how many of a side stand, with a mark before our own.
pub open spec fn troop_text(side: int, alive: nat, mine: Option<usize>) -> Seq<char> {
    (if mine == Some(side as usize) {
        "> "@
    } else {
        "  "@
    }) + team_name_text(side) + " "@ + text::decimal(alive)
}

fn troop_line(side: u8, alive: usize, mine: Option<usize>) -> (out: String)
    requires
        side < 2,
    ensures
        out@ == troop_text(side as int, alive as nat, mine),
{
    let ours: bool = match mine {
        Some(m) => m == side as usize,
        None => false,
    };
    let mut out: String = text::copy_of(
        if ours {
            "> "
        } else {
            "  "
        },
    );
    out.append(team_name(side));
    out.append(" ");
    text::append_number(&mut out, alive as u128);
    out
}

/// How many stand on each side.
pub fn troop_lines(alive: [usize; 2], mine: Option<usize>) -> (out: Vec<String>)
    ensures
        out@.len() == 2,
        out@[0]@ == troop_text(0, alive@[0] as nat, mine),
        out@[1]@ == troop_text(1, alive@[1] as nat, mine),
{
    let mut out: Vec<String> = Vec::new();
    out.push(troop_line(0, alive[0], mine));
    out.push(troop_line(1, alive[1], mine));
    out
}

/// Where the counts are equally wide so are the lines, whoever's side is marked:
/// the mark moves and the lines do not.
pub proof fn the_mark_moves_no_line(a: nat, b: nat, mine: Option<usize>)
    requires
        text::decimal(a).len() == text::decimal(b).len(),
    ensures
        troop_text(0, a, mine).len() == troop_text(1, b, mine).len(),
{
    reveal_strlit("> ");
    reveal_strlit("  ");
    reveal_strlit("ALPHA");
    reveal_strlit("BRAVO");
}

/// A pawn, as the troop count sees it.
#[derive(Debug, Clone, Copy, PartialEq, Eq, Structural)]
pub struct Troop {
    pub handle: usize,
    pub team: u8,
    pub alive: bool,
}

pub open spec fn troop_side(team: u8) -> int {
    if team < TEAM_COUNT {
        team as int
    } else {
        TEAM_COUNT - 1
    }
}

/// How many pawns stand on a side.
pub open spec fn standing(pawns: Seq<Troop>, side: int) -> nat
    decreases pawns.len(),
{
    if pawns.len() == 0 {
        0
    } else {
        let rest = standing(pawns.drop_last(), side);
        if pawns.last().alive && troop_side(pawns.last().team) == side {
            rest + 1
        } else {
            rest
        }
    }
}

/// Which side is ours: that of the last pawn that a local player has, standing or
/// not.
pub open spec fn our_side(pawns: Seq<Troop>, local: Seq<usize>) -> Option<usize>
    decreases pawns.len(),
{
    if pawns.len() == 0 {
        None
    } else if local.contains(pawns.last().handle) {
        Some(troop_side(pawns.last().team) as usize)
    } else {
        our_side(pawns.drop_last(), local)
    }
}

proof fn lemma_standing(pawns: Seq<Troop>, side: int)
    ensures
        standing(pawns, side) <= pawns.len(),
    decreases pawns.len(),
{
    if pawns.len() > 0 {
        lemma_standing(pawns.drop_last(), side);
    }
}

/// The troop count of a match.
pub fn troop_list(pawns: &Vec<Troop>, local: &Vec<usize>) -> (out: String)
    ensures
        out@ == troop_text(0, standing(pawns@, 0), our_side(pawns@, local@)) + "\n"@ + troop_text(
            1,
            standing(pawns@, 1),
            our_side(pawns@, local@),
        ),
{
    let mut alive: [usize; 2] = [0, 0];
    let mut mine: Option<usize> = None;
    let mut i: usize = 0;
    assert(pawns@.take(0) =~= Seq::empty());
    while i < pawns.len()
        invariant
            i <= pawns.len(),
            alive@[0] == standing(pawns@.take(i as int), 0),
            alive@[1] == standing(pawns@.take(i as int), 1),
            mine == our_side(pawns@.take(i as int), local@),
        decreases pawns.len() - i,
    {
        let pawn = pawns[i];
        proof {
            assert(pawns@.take(i + 1).drop_last() =~= pawns@.take(i as int));
            lemma_standing(pawns@.take(i as int), 0);
            lemma_standing(pawns@.take(i as int), 1);
        }
        let side: usize = if (pawn.team as usize) < TEAM_COUNT {
            pawn.team as usize
        } else {
            TEAM_COUNT - 1
        };
        if pawn.alive {
            alive[side] = alive[side] + 1;
        }
        if lists(local, pawn.handle) {
            mine = Some(side);
        }
        i = i + 1;
    }
    assert(pawns@.take(i as int) =~= pawns@);
    let lines = troop_lines(alive, mine);
    let mut out: String = text::copy_of(lines[0].as_str());
    out.append("\n");
    out.append(lines[1].as_str());
    out
}

/// What the lobby's roster says of the `i`-th peer.
pub open spec fn lobby_line(ids: Seq<u128>, my_id: Option<u128>, i: int) -> Seq<char> {
    "Player "@ + text::decimal((i + 1) as nat) + (if my_id == Some(ids[i]) {
        " (you)"@
    } else {
        ""@
    })
}

/// Who is in the room, in what will be handle order.
pub fn lobby_list(lobby: &Lobby) -> (out: String)
    ensures
        out@ == text::join(
            Seq::new(
                lobby@.ids.len(),
                |i: int| lobby_line(lobby@.ids, lobby@.my_id, i),
            ),
            "\n"@,
        ),
{
    let ghost wanted = Seq::new(
        lobby@.ids.len(),
        |i: int| lobby_line(lobby@.ids, lobby@.my_id, i),
    );
    let mut lines: Vec<Vec<char>> = Vec::new();
    let mut i: usize = 0;
    assert(text::views(lines@) =~= wanted.take(0));
    while i < lobby.ids.len()
        invariant
            i <= lobby.ids.len(),
            wanted == Seq::new(
                lobby@.ids.len(),
                |i: int| lobby_line(lobby@.ids, lobby@.my_id, i),
            ),
            text::views(lines@) == wanted.take(i as int),
        decreases lobby.ids.len() - i,
    {
        let ghost before = text::views(lines@);
        let mut line: Vec<char> = text::chars_of("Player ");
        text::push_number(&mut line, (i + 1) as u128);
        let us: bool = match lobby.my_id {
            Some(me) => me == lobby.ids[i],
            None => false,
        };
        if us {
            text::push_text(&mut line, " (you)");
        }
        proof {
            reveal_strlit("");
            assert(line@ =~= lobby_line(lobby@.ids, lobby@.my_id, i as int));
            assert(wanted[i as int] == line@);
        }
        lines.push(line);
        assert(text::views(lines@) =~= before.push(line@));
        assert(wanted.take(i + 1) =~= before.push(wanted[i as int]));
        i = i + 1;
    }
    assert(wanted.take(i as int) =~= wanted);
    text::join_all(&lines, "\n")
}

// ---------------------------------------------------------------------------
// The lobby's status and buttons.
// ---------------------------------------------------------------------------

/// What the status line says. Being out of the round outranks everything; the
/// rest is said while we wait in a room for others. The host with company needs
/// no telling.
pub open spec fn status_for(
    down: bool,
    connecting: bool,
    in_room: bool,
    starting: bool,
    present: nat,
    is_host: bool,
) -> Seq<char> {
    if down {
        "ELIMINATED - SPECTATING"@
    } else if !connecting || !in_room {
        ""@
    } else if starting {
        "starting..."@
    } else if present == 0 {
        "connecting..."@
    } else if present == 1 {
        "share the link to invite others"@
    } else if is_host {
        ""@
    } else {
        "waiting for host to start..."@
    }
}

/// The status line. `down` is how long our pawn has been out, if we have one.
pub fn status_text(down: Option<u32>, connecting: bool, in_room: bool, lobby: &Lobby) -> (out:
    &'static str)
    ensures
        out@ == status_for(
            down matches Some(n) && n > 0,
            connecting,
            in_room,
            lobby@.roster is Some,
            lobby@.ids.len(),
            lobby@.is_host,
        ),
{
    let out: bool = match down {
        Some(n) => n > 0,
        None => false,
    };
    if out {
        return "ELIMINATED - SPECTATING";
    }
    if !connecting || !in_room {
        return "";
    }
    if lobby.roster.is_some() {
        "starting..."
    } else if lobby.ids.len() == 0 {
        "connecting..."
    } else if lobby.ids.len() == 1 {
        "share the link to invite others"
    } else if lobby.is_host {
        ""
    } else {
        "waiting for host to start..."
    }
}

/// Whether the start button is shown: to the host, with company, until the start.
pub fn start_button_shown(connecting: bool, lobby: &Lobby) -> (yes: bool)
    ensures
        yes == (connecting && lobby@.is_host && lobby@.ids.len() >= 2 && lobby@.roster is None),
{
    connecting && lobby.is_host && lobby.ids.len() >= 2 && lobby.roster.is_none()
}

/// Whether the button that copies the link is shown.
pub fn copy_button_shown(connecting: bool, in_room: bool) -> (yes: bool)
    ensures
        yes == (connecting && in_room),
{
    connecting && in_room
}

/// The address to share: the page's own, where there is a page, and what asks for
/// the room.
pub fn share_url(page: Option<(String, String)>, room: &str) -> (out: String)
    ensures
        out@ == (match page {
            Some((origin, path)) => origin@ + path@ + "?room="@ + room@,
            None => "?room="@ + room@,
        }),
{
    let mut out: String = String::new();
    if let Some((origin, path)) = &page {
        out.append(origin.as_str());
        out.append(path.as_str());
    }
    out.append("?room=");
    out.append(room);
    assert(out@ =~= (match page {
        Some((origin, path)) => origin@ + path@ + "?room="@ + room@,
        None => "?room="@ + room@,
    }));
    out
}

/// Whether a frame asks for the start: by the key, or by a press in the band round
/// the button that is not on a button of its own.
pub fn start_asked(key: bool, on_button: bool, click_in_band: bool, touch_in_band: bool) -> (yes:
    bool)
    ensures
        yes == (key || (!on_button && (click_in_band || touch_in_band))),
{
    key || (!on_button && (click_in_band || touch_in_band))
}

/// Whether the health bar is shown, by whether our pawn, if there is one, stands.
pub fn health_shown(alive: Option<bool>) -> (yes: bool)
    ensures
        yes == (alive == Some(true)),
{
    match alive {
        Some(stands) => stands,
        None => false,
    }
}

// ---------------------------------------------------------------------------
// What holds of every overlay.
// ---------------------------------------------------------------------------

/// The first side is called ALPHA, and every other BRAVO.
pub proof fn each_side_has_its_name(side: u8)
    ensures
        side == 0 ==> team_name_text(side as int) == "ALPHA"@,
        side > 0 ==> team_name_text(side as int) == "BRAVO"@,
        team_name_text(0) != team_name_text(1),
{
    reveal_strlit("ALPHA");
    reveal_strlit("BRAVO");
    assert("ALPHA"@[0] != "BRAVO"@[0]);
}

/// A round that was decided for a side is announced under that side's own name, so
/// the two sides' headlines for one round differ, and so do one side's for two
/// rounds.
pub proof fn the_winner_is_named(number: nat, side: u8, other: nat)
    ensures
        side == 0 ==> text::after(result_text(number, Winner::Team(side)), "ALPHA WINS ROUND "@)
            == Some(text::decimal(number)),
        side > 0 ==> text::after(result_text(number, Winner::Team(side)), "BRAVO WINS ROUND "@)
            == Some(text::decimal(number)),
        result_text(number, Winner::Team(0)) != result_text(number, Winner::Team(1)),
        number != other ==> result_text(number, Winner::Team(side)) != result_text(
            other,
            Winner::Team(side),
        ),
{
    reveal_strlit("ALPHA");
    reveal_strlit("BRAVO");
    reveal_strlit(" WINS ROUND ");
    reveal_strlit("ALPHA WINS ROUND ");
    reveal_strlit("BRAVO WINS ROUND ");
    let head = if side == 0 {
        "ALPHA WINS ROUND "@
    } else {
        "BRAVO WINS ROUND "@
    };
    assert("ALPHA WINS ROUND "@ =~= "ALPHA"@ + " WINS ROUND "@);
    assert("BRAVO WINS ROUND "@ =~= "BRAVO"@ + " WINS ROUND "@);
    assert(result_text(number, Winner::Team(side)) =~= head + text::decimal(number));
    assert(result_text(other, Winner::Team(side)) =~= head + text::decimal(other));
    text::lemma_after(head, text::decimal(number));
    text::lemma_after(head, text::decimal(other));
    if number != other {
        text::no_two_numbers_are_written_alike(number, other);
    }
    assert(result_text(number, Winner::Team(0))[0] == 'A');
    assert(result_text(number, Winner::Team(1))[0] == 'B');
}

/// A drawn round is announced as drawn, by its number, under no side's name.
pub proof fn a_draw_names_no_side(number: nat)
    ensures
        result_text(number, Winner::Draw) == "ROUND "@ + text::decimal(number) + " DRAWN"@,
        result_text(number, Winner::Draw) != result_text(number, Winner::Team(0)),
        result_text(number, Winner::Draw) != result_text(number, Winner::Team(1)),
{
    reveal_strlit("ALPHA");
    reveal_strlit("BRAVO");
    reveal_strlit("ROUND ");
    assert(result_text(number, Winner::Draw)[0] == 'R');
    assert(result_text(number, Winner::Team(0))[0] == 'A');
    assert(result_text(number, Winner::Team(1))[0] == 'B');
}

/// The clock shows minutes and two digits of seconds, and a second lasts until the
/// last of its ticks is gone: sixty of them.
pub proof fn the_clock_counts_seconds_to_their_end(minutes: nat, seconds: nat, ticks: nat)
    requires
        seconds < 60,
        60 * (60 * minutes + seconds) - 60 < ticks <= 60 * (60 * minutes + seconds),
    ensures
        clock_text(ticks) == text::decimal(minutes) + ":"@ + seq![
            "0123456789"@[seconds as int / 10],
            "0123456789"@[seconds as int % 10],
        ],
{
    reveal_strlit("0123456789");
    let whole = 60 * minutes + seconds;
    assert(seconds_of(ticks) == whole);
    assert(whole / 60 == minutes && whole % 60 == seconds);
    let tens = seconds / 10;
    let ones = seconds % 10;
    text::numbers_are_written_in_tens(tens, ones);
    text::numbers_are_written_in_tens(0, tens);
    assert(seconds == 10 * tens + ones);
    let shown = seq!["0123456789"@[seconds as int / 10], "0123456789"@[seconds as int % 10]];
    assert(text::right_in(text::decimal(seconds), '0', 2) =~= shown);
}

/// Players are numbered from one by their handles, and bots from one by their places
/// above the seats.
pub proof fn pawns_are_numbered_from_one(k: nat, seats: nat)
    ensures
        pawn_name_text(k, false, seats) == "Player "@ + text::decimal(k + 1),
        pawn_name_text(seats + k, true, seats) == "Bot "@ + text::decimal(k + 1),
        k < seats ==> pawn_name_text(k, true, seats) == "Bot 1"@,
{
    reveal_strlit("Bot ");
    reveal_strlit("Bot 1");
    reveal_strlit("0123456789");
    text::numbers_are_written_in_tens(0, 1);
    assert("Bot "@ + text::decimal(1) =~= "Bot 1"@);
}

/// The first measurement for a handle is the one that is shown.
pub proof fn the_first_ping_counts(pings: Seq<Ping>, handle: usize, k: int)
    requires
        0 <= k < pings.len(),
        pings[k].handle == handle,
        forall|i: int| 0 <= i < k ==> (#[trigger] pings[i]).handle != handle,
    ensures
        ping_of(pings, handle) == Some(pings[k].ms),
    decreases k,
{
    if k > 0 {
        let rest = pings.drop_first();
        assert(pings[0].handle != handle);
        assert(rest[k - 1] == pings[k]);
        assert forall|i: int| 0 <= i < k - 1 implies (#[trigger] rest[i]).handle != handle by {
            assert(rest[i] == pings[i + 1]);
        }
        the_first_ping_counts(rest, handle, k - 1);
    }
}

/// Where nothing was measured for a handle nothing is shown.
pub proof fn no_ping_is_made_up(pings: Seq<Ping>, handle: usize)
    requires
        forall|i: int| 0 <= i < pings.len() ==> (#[trigger] pings[i]).handle != handle,
    ensures
        ping_of(pings, handle) is None,
    decreases pings.len(),
{
    if pings.len() > 0 {
        let rest = pings.drop_first();
        assert(pings[0].handle != handle);
        assert forall|i: int| 0 <= i < rest.len() implies (#[trigger] rest[i]).handle != handle by {
            assert(rest[i] == pings[i + 1]);
        }
        no_ping_is_made_up(rest, handle);
    }
}

/// A player's line has their name in a column of twenty-two, with `(you)` behind it
/// where the handle is ours, then kills, deaths, and the ping where one was measured.
pub proof fn a_players_line(row: ScoreRow, local: Seq<usize>, seats: nat, pings: Seq<Ping>, ms: u128)
    requires
        !row.is_bot,
    ensures
        ({
            let name = "Player "@ + text::decimal(row.handle as nat + 1);
            let score = text::decimal(row.kills as nat) + "k "@ + text::decimal(row.deaths as nat)
                + "d"@;
            let own = text::left_in(name + " (you)"@, 22) + score;
            let plain = text::left_in(name, 22) + score;
            let ping = "  "@ + text::decimal(ms as nat) + "ms"@;
            let shown = row_text(row, local, seats, pings);
            &&& ping_of(pings, row.handle) is None && local.contains(row.handle) ==> shown == own
            &&& ping_of(pings, row.handle) is None && !local.contains(row.handle) ==> shown
                == plain
            &&& ping_of(pings, row.handle) == Some(ms) && local.contains(row.handle) ==> shown
                == own + ping
            &&& ping_of(pings, row.handle) == Some(ms) && !local.contains(row.handle) ==> shown
                == plain + ping
        }),
{
    let shown = row_text(row, local, seats, pings);
    let name = "Player "@ + text::decimal(row.handle as nat + 1);
    let score = text::decimal(row.kills as nat) + "k "@ + text::decimal(row.deaths as nat) + "d"@;
    assert(text::left_in(name + " (you)"@, 22) + score + Seq::<char>::empty() =~= text::left_in(
        name + " (you)"@,
        22,
    ) + score);
    assert(text::left_in(name, 22) + score + Seq::<char>::empty() =~= text::left_in(name, 22)
        + score);
}

/// A bot's line has its name, its kills and its deaths and nothing else, whatever
/// was measured and whosever handles are listed.
pub proof fn a_bots_line(row: ScoreRow, local: Seq<usize>, seats: nat, pings: Seq<Ping>)
    requires
        row.is_bot,
        row.handle >= seats,
    ensures
        row_text(row, local, seats, pings) == text::left_in(
            "Bot "@ + text::decimal((row.handle - seats + 1) as nat),
            22,
        ) + (text::decimal(row.kills as nat) + "k "@ + text::decimal(row.deaths as nat) + "d"@),
{
    pawns_are_numbered_from_one((row.handle - seats) as nat, seats);
    let name = text::left_in("Bot "@ + text::decimal((row.handle - seats + 1) as nat), 22);
    let score = text::decimal(row.kills as nat) + "k "@ + text::decimal(row.deaths as nat) + "d"@;
    assert(name + score + Seq::<char>::empty() =~= name + score);
}

/// Whether `head` is how `whole` begins.
pub open spec fn begins_with(whole: Seq<EntryModel>, head: Seq<EntryModel>) -> bool {
    head.len() <= whole.len() && forall|i: int|
        0 <= i < head.len() ==> #[trigger] whole[i] == head[i]
}

/// What is on the board of the first pawns is on the board of all, in its place.
pub proof fn a_board_grows_at_its_end(
    rows: Seq<ScoreRow>,
    local: Seq<usize>,
    seats: nat,
    pings: Seq<Ping>,
    k: int,
)
    requires
        0 <= k <= rows.len(),
    ensures
        begins_with(board_of(rows, local, seats, pings), board_of(rows.take(k), local, seats, pings)),
    decreases rows.len(),
{
    if k == rows.len() {
        assert(rows.take(k) =~= rows);
    } else {
        let rest = rows.drop_last();
        a_board_grows_at_its_end(rest, local, seats, pings, k);
        assert(rest.take(k) =~= rows.take(k));
        let head = board_of(rows.take(k), local, seats, pings);
        let mid = board_of(rest, local, seats, pings);
        let whole = board_of(rows, local, seats, pings);
        assert forall|i: int| 0 <= i < head.len() implies #[trigger] whole[i] == head[i] by {
            assert(mid[i] == head[i]);
            assert(whole[i] == mid[i]);
        }
    }
}

/// Every pawn adds one line of its own at the board's end, marked where it is out of
/// the round; the first of a side has its side's heading right before it, and a blank
/// line before that if another side stands above.
pub proof fn every_pawn_has_its_line(
    rows: Seq<ScoreRow>,
    local: Seq<usize>,
    seats: nat,
    pings: Seq<Ping>,
)
    requires
        rows.len() > 0,
    ensures
        ({
            let before = board_of(rows.drop_last(), local, seats, pings);
            let lines = board_of(rows, local, seats, pings);
            let row = rows.last();
            let n = lines.len() as int;
            &&& n > before.len()
            &&& lines[n - 1].text == row_text(row, local, seats, pings)
            &&& lines[n - 1].dead == !row.alive
            &&& rows.len() == 1 ==> n == 2
            &&& rows.len() > 1 && rows[rows.len() - 2].side == row.side ==> n == before.len() + 1
            &&& rows.len() > 1 && rows[rows.len() - 2].side != row.side ==> {
                &&& n == before.len() + 3
                &&& lines[n - 3] == (EntryModel { text: Seq::empty(), dead: false })
            }
            &&& rows.len() == 1 || rows[rows.len() - 2].side != row.side ==> {
                &&& row.side == 0 ==> lines[n - 2] == (EntryModel {
                    text: "- ALPHA -"@,
                    dead: false,
                })
                &&& row.side > 0 ==> lines[n - 2] == (EntryModel { text: "- BRAVO -"@, dead: false })
            }
        }),
{
    reveal_strlit("- ");
    reveal_strlit(" -");
    reveal_strlit("ALPHA");
    reveal_strlit("BRAVO");
    reveal_strlit("- ALPHA -");
    reveal_strlit("- BRAVO -");
    assert("- "@ + "ALPHA"@ + " -"@ =~= "- ALPHA -"@);
    assert("- "@ + "BRAVO"@ + " -"@ =~= "- BRAVO -"@);
    assert(board_of(Seq::<ScoreRow>::empty(), local, seats, pings).len() == 0);
    if rows.len() == 1 {
        assert(rows.drop_last() =~= Seq::<ScoreRow>::empty());
    }
}

/// The board goes by side, and within a side by handle.
pub proof fn the_board_goes_by_side_and_handle(scores: Seq<ScoreRow>, i: int, j: int)
    requires
        0 <= i < j < scores.len(),
    ensures
        ({
            let rows = order::arranged(scores);
            &&& rows[i].side <= rows[j].side
            &&& rows[i].side == rows[j].side ==> rows[i].handle <= rows[j].handle
        }),
{
    order::arranging_puts_in_order(scores);
    assert(order::arranged(scores)[i].le(order::arranged(scores)[j]));
}

/// Two pawns on one side and one handle are told apart by being out, then by kills,
/// then by deaths, the lesser first, and a player goes before a bot.
pub proof fn the_board_breaks_its_ties(a: ScoreRow, b: ScoreRow)
    requires
        a.side == b.side,
        a.handle == b.handle,
    ensures
        a.alive != b.alive ==> (a.le(b) <==> b.alive),
        a.alive == b.alive && a.kills != b.kills ==> (a.le(b) <==> a.kills < b.kills),
        a.alive == b.alive && a.kills == b.kills && a.deaths != b.deaths ==> (a.le(b) <==> a.deaths
            < b.deaths),
        a.alive == b.alive && a.kills == b.kills && a.deaths == b.deaths && a.is_bot != b.is_bot
            ==> (a.le(b) <==> b.is_bot),
{
}

/// A side's line shows its name and how many stand, and the mark only if it is ours.
pub proof fn our_own_side_is_marked(alive: nat, mine: Option<usize>)
    ensures
        mine == Some(0usize) ==> troop_text(0, alive, mine) == "> ALPHA "@ + text::decimal(alive),
        mine != Some(0usize) ==> troop_text(0, alive, mine) == "  ALPHA "@ + text::decimal(alive),
        mine == Some(1usize) ==> troop_text(1, alive, mine) == "> BRAVO "@ + text::decimal(alive),
        mine != Some(1usize) ==> troop_text(1, alive, mine) == "  BRAVO "@ + text::decimal(alive),
{
    reveal_strlit("> ");
    reveal_strlit("  ");
    reveal_strlit(" ");
    reveal_strlit("ALPHA");
    reveal_strlit("BRAVO");
    reveal_strlit("> ALPHA ");
    reveal_strlit("  ALPHA ");
    reveal_strlit("> BRAVO ");
    reveal_strlit("  BRAVO ");
    assert("> "@ + "ALPHA"@ + " "@ =~= "> ALPHA "@);
    assert("  "@ + "ALPHA"@ + " "@ =~= "  ALPHA "@);
    assert("> "@ + "BRAVO"@ + " "@ =~= "> BRAVO "@);
    assert("  "@ + "BRAVO"@ + " "@ =~= "  BRAVO "@);
    assert(0int as usize == 0usize && 1int as usize == 1usize);
}

/// Only the standing are counted, each on their own side: the first side's number is
/// nought, and every other number means the second.
pub proof fn only_the_standing_are_counted(pawns: Seq<Troop>)
    ensures
        standing(pawns, 0) == pawns.filter(|p: Troop| p.alive && p.team == 0).len(),
        standing(pawns, 1) == pawns.filter(|p: Troop| p.alive && p.team > 0).len(),
    decreases pawns.len(),
{
    order::lemma_filter_last(pawns, |p: Troop| p.alive && p.team == 0);
    order::lemma_filter_last(pawns, |p: Troop| p.alive && p.team > 0);
    if pawns.len() > 0 {
        only_the_standing_are_counted(pawns.drop_last());
    }
}

/// Our side is that of the last pawn a local player has, standing or not.
pub proof fn our_side_is_our_pawns(pawns: Seq<Troop>, local: Seq<usize>, k: int)
    requires
        0 <= k < pawns.len(),
        local.contains(pawns[k].handle),
        forall|i: int| k < i < pawns.len() ==> !local.contains((#[trigger] pawns[i]).handle),
    ensures
        our_side(pawns, local) == (if pawns[k].team == 0 {
            Some(0usize)
        } else {
            Some(1usize)
        }),
    decreases pawns.len(),
{
    let rest = pawns.drop_last();
    if k < pawns.len() - 1 {
        assert(!local.contains(pawns[pawns.len() - 1].handle));
        assert(rest[k] == pawns[k]);
        assert forall|i: int| k < i < rest.len() implies !local.contains(
            (#[trigger] rest[i]).handle,
        ) by {
            assert(rest[i] == pawns[i]);
        }
        our_side_is_our_pawns(rest, local, k);
    }
}

/// Without a pawn of a local player no side is ours.
pub proof fn without_a_pawn_no_side_is_ours(pawns: Seq<Troop>, local: Seq<usize>)
    requires
        forall|i: int| 0 <= i < pawns.len() ==> !local.contains((#[trigger] pawns[i]).handle),
    ensures
        our_side(pawns, local) is None,
    decreases pawns.len(),
{
    if pawns.len() > 0 {
        let rest = pawns.drop_last();
        assert(!local.contains(pawns[pawns.len() - 1].handle));
        assert forall|i: int| 0 <= i < rest.len() implies !local.contains(
            (#[trigger] rest[i]).handle,
        ) by {
            assert(rest[i] == pawns[i]);
        }
        without_a_pawn_no_side_is_ours(rest, local);
    }
}

/// The lobby numbers everybody from one and marks our own line and no other.
pub proof fn the_lobby_marks_us_alone(ids: Seq<u128>, my_id: Option<u128>, i: int)
    requires
        0 <= i < ids.len(),
    ensures
        my_id == Some(ids[i]) ==> lobby_line(ids, my_id, i) == "Player "@ + text::decimal(
            (i + 1) as nat,
        ) + " (you)"@,
        my_id != Some(ids[i]) ==> lobby_line(ids, my_id, i) == "Player "@ + text::decimal(
            (i + 1) as nat,
        ),
{
    reveal_strlit("");
    assert("Player "@ + text::decimal((i + 1) as nat) + ""@ =~= "Player "@ + text::decimal(
        (i + 1) as nat,
    ));
}

/// Being out of the round is what is said before anything else.
pub proof fn being_out_outranks_the_lobby(
    connecting: bool,
    in_room: bool,
    starting: bool,
    present: nat,
    is_host: bool,
)
    ensures
        status_for(true, connecting, in_room, starting, present, is_host)
            == "ELIMINATED - SPECTATING"@,
{
}

/// Outside a room, and once the game has begun, there is nothing to be said of the
/// lobby.
pub proof fn nothing_is_said_outside_the_lobby(
    connecting: bool,
    in_room: bool,
    starting: bool,
    present: nat,
    is_host: bool,
)
    requires
        !connecting || !in_room,
    ensures
        status_for(false, connecting, in_room, starting, present, is_host) == Seq::<char>::empty(),
{
    reveal_strlit("");
    assert(""@ =~= Seq::<char>::empty());
}

/// In the lobby a start is announced first; before that, by how many are there, that
/// we are on our way in, that others may be asked, or to all but the host that the
/// host is waited for.
pub proof fn the_lobby_says_what_it_waits_for(starting: bool, present: nat, is_host: bool)
    ensures
        ({
            let said = status_for(false, true, true, starting, present, is_host);
            &&& starting ==> said == "starting..."@
            &&& !starting && present == 0 ==> said == "connecting..."@
            &&& !starting && present == 1 ==> said == "share the link to invite others"@
            &&& !starting && present >= 2 && !is_host ==> said == "waiting for host to start..."@
            &&& !starting && present >= 2 && is_host ==> said == Seq::<char>::empty()
        }),
{
    reveal_strlit("");
    assert(""@ =~= Seq::<char>::empty());
}

// ---------------------------------------------------------------------------
// What holds of the roster's changes.
// ---------------------------------------------------------------------------

/// Capitals are made of the small letters of the alphabet alone, thirty-two places
/// down; everything else stays.
pub proof fn only_small_letters_are_raised(t: Seq<char>, i: int)
    requires
        0 <= i < t.len(),
    ensures
        shouted(t).len() == t.len(),
        'a' as u32 <= t[i] as u32 <= 'z' as u32 ==> shouted(t)[i] as u32 + 32 == t[i] as u32,
        !('a' as u32 <= t[i] as u32 <= 'z' as u32) ==> shouted(t)[i] == t[i],
{
}

/// A pawn's name in capitals.
pub proof fn a_name_in_capitals(k: nat, seats: nat)
    ensures
        shouted(pawn_name_text(k, false, seats)) == "PLAYER "@ + text::decimal(k + 1),
        shouted(pawn_name_text(seats + k, true, seats)) == "BOT "@ + text::decimal(k + 1),
{
    reveal_strlit("Player ");
    reveal_strlit("PLAYER ");
    reveal_strlit("Bot ");
    reveal_strlit("BOT ");
    pawns_are_numbered_from_one(k, seats);
    text::lemma_decimal(k + 1);
    let n = text::decimal(k + 1);
    assert forall|i: int| 0 <= i < n.len() implies capital(n[i]) == n[i] by {
        assert(text::is_digit(n[i]));
    }
    assert(shouted("Player "@ + n) =~= "PLAYER "@ + n);
    assert(shouted("Bot "@ + n) =~= "BOT "@ + n);
}

/// Rosters list the same handles when the handles, read off in order, are the same.
pub proof fn rosters_are_told_apart_by_handles(a: Seq<NamedPawn>, b: Seq<NamedPawn>)
    ensures
        same_handles(a, b) <==> a.map_values(|n: NamedPawn| n.0) == b.map_values(
            |n: NamedPawn| n.0,
        ),
{
    let left = a.map_values(|n: NamedPawn| n.0);
    let right = b.map_values(|n: NamedPawn| n.0);
    if same_handles(a, b) {
        assert(left =~= right);
    }
    if left == right {
        assert(left.len() == a.len() && right.len() == b.len());
        assert forall|i: int| 0 <= i < a.len() implies (#[trigger] a[i]).0 == b[i].0 by {
            assert(left[i] == a[i].0);
            assert(right[i] == b[i].0);
        }
    }
}

/// Whether a handle is nowhere on a roster.
pub open spec fn unlisted(handle: usize, row: Seq<NamedPawn>) -> bool {
    forall|i: int| 0 <= i < row.len() ==> (#[trigger] row[i]).0 != handle
}

/// Who is missing is everybody whose handle the other roster does not have, in order,
/// each by their own name in capitals.
pub proof fn whoever_is_missing_is_named(from: Seq<NamedPawn>, other: Seq<NamedPawn>)
    ensures
        missing_shouted(from, other) == from.filter(|n: NamedPawn| unlisted(n.0, other)).map_values(
            |n: NamedPawn| shouted(n.1),
        ),
        missing(from, other) == from.filter(|n: NamedPawn| unlisted(n.0, other)).map_values(
            |n: NamedPawn| uppercase(n.1),
        ),
    decreases from.len(),
{
    let gone = |n: NamedPawn| unlisted(n.0, other);
    let loud = |n: NamedPawn| shouted(n.1);
    let upper = |n: NamedPawn| uppercase(n.1);
    order::lemma_filter_last(from, gone);
    if from.len() > 0 {
        let rest = from.drop_last();
        whoever_is_missing_is_named(rest, other);
        let kept = rest.filter(gone);
        assert(kept.push(from.last()).map_values(loud) =~= kept.map_values(loud).push(
            shouted(from.last().1),
        ));
        assert(kept.push(from.last()).map_values(upper) =~= kept.map_values(upper).push(
            uppercase(from.last().1),
        ));
        assert(unlisted(from.last().0, other) <==> !(exists|i: int|
            0 <= i < other.len() && (#[trigger] other[i]).0 == from.last().0));
    } else {
        assert(from.filter(gone).map_values(loud) =~= Seq::<Seq<char>>::empty());
        assert(from.filter(gone).map_values(upper) =~= Seq::<Seq<char>>::empty());
    }
}

proof fn lemma_nobody_missing(from: Seq<NamedPawn>, other: Seq<NamedPawn>)
    requires
        forall|i: int| 0 <= i < from.len() ==> !unlisted((#[trigger] from[i]).0, other),
    ensures
        missing_shouted(from, other).len() == 0,
    decreases from.len(),
{
    if from.len() > 0 {
        let rest = from.drop_last();
        assert(!unlisted(from[from.len() - 1].0, other));
        assert forall|i: int| 0 <= i < rest.len() implies !unlisted(
            (#[trigger] rest[i]).0,
            other,
        ) by {
            assert(rest[i] == from[i]);
        }
        lemma_nobody_missing(rest, other);
    }
}

proof fn lemma_one_missing(row: Seq<NamedPawn>, k: int, other: Seq<NamedPawn>)
    requires
        0 <= k < row.len(),
        unlisted(row[k].0, other),
        forall|i: int|
            0 <= i < row.len() && i != k ==> !unlisted((#[trigger] row[i]).0, other),
    ensures
        missing_shouted(row, other) == seq![shouted(row[k].1)],
    decreases row.len(),
{
    let rest = row.drop_last();
    if k < row.len() - 1 {
        assert(!unlisted(row[row.len() - 1].0, other));
        assert(rest[k] == row[k]);
        assert forall|i: int| 0 <= i < rest.len() && i != k implies !unlisted(
            (#[trigger] rest[i]).0,
            other,
        ) by {
            assert(rest[i] == row[i]);
        }
        lemma_one_missing(rest, k, other);
    } else {
        assert forall|i: int| 0 <= i < rest.len() implies !unlisted(
            (#[trigger] rest[i]).0,
            other,
        ) by {
            assert(rest[i] == row[i]);
        }
        lemma_nobody_missing(rest, other);
        assert(missing_shouted(rest, other) =~= Seq::<Seq<char>>::empty());
        assert(missing_shouted(row, other) =~= seq![shouted(row[k].1)]);
    }
}

/// One who comes to a roster is announced by name as having joined, and one who goes
/// from it by the name they had as having left.
pub proof fn whoever_moves_alone_is_announced(
    row: Seq<NamedPawn>,
    k: int,
    handle: usize,
    name: Seq<char>,
)
    requires
        0 <= k <= row.len(),
        unlisted(handle, row),
    ensures
        ({
            let fuller = row.insert(k, (handle, name));
            &&& change_text(missing_shouted(fuller, row), missing_shouted(row, fuller)) == shouted(
                name,
            ) + " JOINED"@
            &&& change_text(missing_shouted(row, fuller), missing_shouted(fuller, row)) == shouted(
                name,
            ) + " LEFT"@
        }),
{
    let fuller = row.insert(k, (handle, name));
    assert forall|i: int| 0 <= i < fuller.len() && i != k implies !unlisted(
        (#[trigger] fuller[i]).0,
        row,
    ) by {
        let j = if i < k {
            i
        } else {
            i - 1
        };
        assert(row[j] == fuller[i]);
    }
    assert(fuller[k] == (handle, name));
    lemma_one_missing(fuller, k, row);
    assert forall|i: int| 0 <= i < row.len() implies !unlisted((#[trigger] row[i]).0, fuller) by {
        let j = if i < k {
            i
        } else {
            i + 1
        };
        assert(fuller[j] == row[i]);
    }
    lemma_nobody_missing(row, fuller);
}

/// Where more than one moved, or nobody did, no one is named.
pub proof fn a_crowd_is_not_named(joined: Seq<Seq<char>>, gone: Seq<Seq<char>>)
    requires
        joined.len() + gone.len() != 1,
    ensures
        change_text(joined, gone) == "ROSTER CHANGED"@,
{
}

/// The roster lists every pawn once, by handle from the lowest up, each under its own
/// name.
pub proof fn the_roster_lists_every_pawn(pawns: Seq<RosterPawn>, seats: nat, p: RosterPawn)
    ensures
        named_roster(pawns, seats).len() == pawns.len(),
        pawns.contains(p) ==> named_roster(pawns, seats).contains(
            (p.handle, pawn_name_text(p.handle as nat, p.is_bot, seats)),
        ),
        forall|i: int, j: int|
            0 <= i < j < pawns.len() ==> (#[trigger] named_roster(pawns, seats)[i]).0 <= (
            #[trigger] named_roster(pawns, seats)[j]).0,
{
    let rows = order::arranged(pawns);
    let named = named_roster(pawns, seats);
    order::arranging_puts_in_order(pawns);
    order::lemma_arranged_contains(pawns, p);
    if pawns.contains(p) {
        let k = choose|k: int| 0 <= k < rows.len() && rows[k] == p;
        assert(named[k] == (p.handle, pawn_name_text(p.handle as nat, p.is_bot, seats)));
    }
    assert forall|i: int, j: int| 0 <= i < j < pawns.len() implies (#[trigger] named[i]).0 <= (
    #[trigger] named[j]).0 by {
        assert(rows[i].le(rows[j]));
    }
}

/// Contracts speak of a board line by line, and of a roster name by name.
pub proof fn a_board_is_seen_line_by_line(
    lines: Seq<BoardEntry>,
    seen: Seq<(usize, String)>,
    i: int,
)
    ensures
        board_view(lines).len() == lines.len(),
        0 <= i < lines.len() ==> board_view(lines)[i].text == lines[i].text@
            && board_view(lines)[i].dead == lines[i].dead,
        named_view(seen).len() == seen.len(),
        0 <= i < seen.len() ==> named_view(seen)[i].0 == seen[i].0 && named_view(seen)[i].1
            == seen[i].1@,
{
}

} // verus!
