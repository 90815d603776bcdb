//! What to start: the room, the seats, the bots and the world, out of the plain
//! texts that a start is asked for with.

use vstd::prelude::*;

use crate::text;
use crate::wire;
use crate::MAX_PLAYERS;
use crate::STANCE_STAND;

verus! {

/// Where to look for the room when nobody says.
pub const DEFAULT_SIGNALING: &'static str = "ws://127.0.0.1:3536";

/// Which world to build.
#[derive(Debug, Clone, Copy, PartialEq, Eq, Structural)]
pub enum Scenario {
    /// The game.
    Arena,
    /// The arena with one pawn that fires a round a second: a range for the
    /// sounds.
    Gunfire,
    /// A range for the tracers.
    Tracers,
    /// Two pawns with a strip of grass between them.
    GrassStrip { depth: i32, east_stance: u8 },
}

/// The texts that a start is asked for with.
pub struct LaunchVars {
    pub room: Option<String>,
    pub players: Option<String>,
    pub signaling: Option<String>,
    pub ice: Option<String>,
    pub scenario: Option<String>,
    pub bots: Option<String>,
    pub aggro: Option<String>,
    pub resume: Option<String>,
}

/// What to start.
#[derive(Debug)]
pub struct LaunchConfig {
    pub room: Option<String>,
    pub players: usize,
    pub signaling: String,
    pub ice: Option<Vec<String>>,
    pub scenario: Scenario,
    pub bots: usize,
    pub aggro: Option<u32>,
    pub resume: bool,
}

/// How many seats: the grass strip has its two whatever was asked for, a room
/// has them all unless fewer are asked for, and a game without a room has one.
pub open spec fn players_for(explicit: Option<nat>, has_room: bool, scenario: Scenario) -> nat {
    match scenario {
        Scenario::GrassStrip { .. } => 2,
        _ => {
            let wanted = match explicit {
                Some(n) => n,
                None => if has_room {
                    MAX_PLAYERS as nat
                } else {
                    1
                },
            };
            if wanted < 1 {
                1
            } else if wanted > MAX_PLAYERS {
                MAX_PLAYERS as nat
            } else {
                wanted
            }
        },
    }
}

/// How many bots: none in the grass strip, and elsewhere what was asked for as
/// far as there are seats left.
pub open spec fn bots_for(explicit: Option<nat>, players: nat, scenario: Scenario) -> nat {
    match scenario {
        Scenario::GrassStrip { .. } => 0,
        _ => {
            let left: int = if players < MAX_PLAYERS {
                MAX_PLAYERS - players
            } else {
                0
            };
            match explicit {
                Some(n) => if n < left {
                    n
                } else {
                    left as nat
                },
                None => 0,
            }
        },
    }
}

pub open spec fn as_nat(n: Option<usize>) -> Option<nat> {
    match n {
        Some(n) => Some(n as nat),
        None => None,
    }
}

pub fn resolve_players(explicit: Option<usize>, has_room: bool, scenario: Scenario) -> (out: usize)
    ensures
        out == players_for(as_nat(explicit), has_room, scenario),
        1 <= out <= MAX_PLAYERS,
{
    match scenario {
        Scenario::GrassStrip { .. } => 2,
        _ => {
            let wanted: usize = match explicit {
                Some(n) => n,
                None => if has_room {
                    MAX_PLAYERS
                } else {
                    1
                },
            };
            if wanted < 1 {
                1
            } else if wanted > MAX_PLAYERS {
                MAX_PLAYERS
            } else {
                wanted
            }
        },
    }
}

pub fn resolve_bots(explicit: Option<usize>, players: usize, scenario: Scenario) -> (out: usize)
    ensures
        out == bots_for(as_nat(explicit), players as nat, scenario),
{
    match scenario {
        Scenario::GrassStrip { .. } => 0,
        _ => {
            let left: usize = MAX_PLAYERS.saturating_sub(players);
            match explicit {
                Some(n) => if n < left {
                    n
                } else {
                    left
                },
                None => 0,
            }
        },
    }
}

/// Players and bots together never outnumber the seats.
pub proof fn nobody_is_left_without_a_seat(
    players: Option<nat>,
    bots: Option<nat>,
    has_room: bool,
    scenario: Scenario,
)
    ensures
        players_for(players, has_room, scenario) + bots_for(
            bots,
            players_for(players, has_room, scenario),
            scenario,
        ) <= MAX_PLAYERS,
{
}

/// The world that a text asks for, `strip:depth:stance` or `gunfire`. A depth
/// that does not read is the deepest there is, and one out of range is brought
/// into it; a stance that does not read is standing. A room, and any other text,
/// means the game.
pub open spec fn scenario_for(raw: Option<Seq<char>>, has_room: bool, deepest: int) -> Scenario {
    match raw {
        Some(t) => {
            let parts = text::split(t, ':');
            if has_room {
                Scenario::Arena
            } else if t == "gunfire"@ {
                Scenario::Gunfire
            } else if parts[0] == "strip"@ {
                let depth = if parts.len() > 1 {
                    match text::read_i32(parts[1]) {
                        Some(d) => if d < 0 {
                            0
                        } else if d > deepest {
                            deepest
                        } else {
                            d
                        },
                        None => deepest,
                    }
                } else {
                    deepest
                };
                let stance = if parts.len() > 2 {
                    match text::read_unsigned(parts[2], 255) {
                        Some(s) => s,
                        None => STANCE_STAND as nat,
                    }
                } else {
                    STANCE_STAND as nat
                };
                Scenario::GrassStrip { depth: depth as i32, east_stance: stance as u8 }
            } else {
                Scenario::Arena
            }
        },
        None => Scenario::Arena,
    }
}

pub fn parse_scenario(raw: &Option<String>, has_room: bool, deepest: i32) -> (out: Scenario)
    requires
        deepest >= 0,
    ensures
        out == scenario_for(wire::text_view(*raw), has_room, deepest as int),
{
    if has_room {
        return Scenario::Arena;
    }
    let t = match raw {
        Some(t) => t,
        None => return Scenario::Arena,
    };
    let chars = text::chars_of(t.as_str());
    if text::spells(&chars, "gunfire") {
        return Scenario::Gunfire;
    }
    let parts = text::split_all(&chars, ':');
    let ghost cut = text::split(t@, ':');
    proof {
        text::lemma_split_parts(t@, ':');
        assert(text::views(parts@) == cut);
        assert forall|i: int| 0 <= i < parts@.len() implies cut[i] == #[trigger] parts@[i]@ by {
            assert(text::views(parts@)[i] == parts@[i]@);
        }
    }
    if !text::spells(&parts[0], "strip") {
        return Scenario::Arena;
    }
    let mut depth: i32 = deepest;
    if parts.len() > 1 {
        if let Some(d) = text::parse_i32(&parts[1]) {
            depth = if d < 0 {
                0
            } else if d > deepest {
                deepest
            } else {
                d
            };
        }
    }
    let mut east_stance: u8 = STANCE_STAND;
    if parts.len() > 2 {
        if let Some(s) = text::parse_unsigned(&parts[2], 255) {
            east_stance = s as u8;
        }
    }
    Scenario::GrassStrip { depth, east_stance }
}

pub open spec fn strings_view(v: Seq<String>) -> Seq<Seq<char>> {
    v.map_values(|s: String| s@)
}

pub open spec fn ice_view(ice: Option<Vec<String>>) -> Option<Seq<Seq<char>>> {
    match ice {
        Some(v) => Some(strings_view(v@)),
        None => None,
    }
}

/// The servers to be introduced through: the built-in ones where nothing is
/// said, none for `none`, and else the listed ones.
pub open spec fn ice_for(raw: Option<Seq<char>>) -> Option<Seq<Seq<char>>> {
    match raw {
        Some(t) => if t == "none"@ {
            Some(Seq::empty())
        } else {
            Some(text::split(t, ','))
        },
        None => None,
    }
}

pub fn parse_ice(raw: &Option<String>) -> (out: Option<Vec<String>>)
    ensures
        ice_view(out) == ice_for(wire::text_view(*raw)),
{
    let t = match raw {
        Some(t) => t,
        None => return None,
    };
    let mut out: Vec<String> = Vec::new();
    let chars = text::chars_of(t.as_str());
    if text::spells(&chars, "none") {
        assert(strings_view(out@) =~= Seq::empty());
        return Some(out);
    }
    let parts = text::split_all(&chars, ',');
    let mut i: usize = 0;
    while i < parts.len()
        invariant
            i <= parts.len(),
            strings_view(out@) == text::views(parts@).take(i as int),
        decreases parts.len() - i,
    {
        let ghost before = strings_view(out@);
        let next = text::string_of(&parts[i]);
        out.push(next);
        assert(strings_view(out@) =~= before.push(next@));
        assert(text::views(parts@).take(i + 1) =~= before.push(parts@[i as int]@));
        i = i + 1;
    }
    assert(text::views(parts@).take(i as int) =~= text::views(parts@));
    Some(out)
}

/// Whether to come back into a stored match: yes, unless the text is `0`.
pub fn parse_resume(raw: &Option<String>) -> (out: bool)
    ensures
        out == (wire::text_view(*raw) != Some("0"@)),
{
    match raw {
        Some(t) => !text::same_str(t.as_str(), "0"),
        None => true,
    }
}

/// A number where the text is one.
pub open spec fn number_in(raw: Option<Seq<char>>, max: nat) -> Option<nat> {
    match raw {
        Some(t) => text::read_unsigned(t, max),
        None => None,
    }
}

fn read_in(raw: &Option<String>, max: u64) -> (out: Option<u64>)
    ensures
        (match out {
            Some(n) => Some(n as nat),
            None => None,
        }) == number_in(wire::text_view(*raw), max as nat),
{
    match raw {
        Some(t) => {
            let chars = text::chars_of(t.as_str());
            text::parse_unsigned(&chars, max)
        },
        None => None,
    }
}

fn read_count(raw: &Option<String>) -> (out: Option<usize>)
    ensures
        as_nat(out) == number_in(wire::text_view(*raw), usize::MAX as nat),
{
    match read_in(raw, usize::MAX as u64) {
        Some(n) => Some(n as usize),
        None => None,
    }
}

/// The room that is asked for: an empty name is none.
pub open spec fn room_for(raw: Option<Seq<char>>) -> Option<Seq<char>> {
    match raw {
        Some(t) => if t.len() == 0 {
            None
        } else {
            Some(t)
        },
        None => None,
    }
}

/// What to start. `deepest` is the depth of the deepest grass.
pub fn launch_config(vars: LaunchVars, deepest: i32) -> (out: LaunchConfig)
    requires
        deepest >= 0,
    ensures
        ({
            let room = room_for(wire::text_view(vars.room));
            let scenario = scenario_for(
                wire::text_view(vars.scenario),
                room is Some,
                deepest as int,
            );
            let players = players_for(
                number_in(wire::text_view(vars.players), usize::MAX as nat),
                room is Some,
                scenario,
            );
            &&& wire::text_view(out.room) == room
            &&& out.scenario == scenario
            &&& out.players == players
            &&& out.bots == bots_for(
                number_in(wire::text_view(vars.bots), usize::MAX as nat),
                players,
                scenario,
            )
            &&& (match out.aggro {
                Some(n) => Some(n as nat),
                None => None,
            }) == number_in(wire::text_view(vars.aggro), u32::MAX as nat)
            &&& out.signaling@ == (match wire::text_view(vars.signaling) {
                Some(t) => t,
                None => DEFAULT_SIGNALING@,
            })
            &&& ice_view(out.ice) == ice_for(wire::text_view(vars.ice))
            &&& out.resume == (wire::text_view(vars.resume) != Some("0"@))
        }),
{
    let room: Option<String> = match vars.room {
        Some(t) => if t.as_str().is_empty() {
            None
        } else {
            Some(t)
        },
        None => None,
    };
    let scenario = parse_scenario(&vars.scenario, room.is_some(), deepest);
    let players: usize = resolve_players(read_count(&vars.players), room.is_some(), scenario);
    let bots: usize = resolve_bots(read_count(&vars.bots), players, scenario);
    let aggro: Option<u32> = match read_in(&vars.aggro, u32::MAX as u64) {
        Some(n) => Some(n as u32),
        None => None,
    };
    let signaling: String = match vars.signaling {
        Some(t) => t,
        None => text::copy_of(DEFAULT_SIGNALING),
    };
    LaunchConfig {
        room,
        players,
        signaling,
        ice: parse_ice(&vars.ice),
        scenario,
        bots,
        aggro,
        resume: parse_resume(&vars.resume),
    }
}

/// How a start begins.
#[derive(Debug)]
pub struct Opening {
    /// The room's address, where there is a room to connect to.
    pub url: Option<String>,
    /// How many seats the local session has.
    pub players: usize,
    pub scenario: Scenario,
    /// Whether a stored match may be resumed into.
    pub may_resume: bool,
    /// Whether the game begins at once.
    pub in_game: bool,
}

/// How a start begins: a room is warmed up for alone, in the arena, until the
/// others are there; a game without a room begins at once. Only the game itself
/// is ever resumed.
pub fn begin_session_setup(launch: &LaunchConfig) -> (out: Opening)
    ensures
        out.may_resume == (launch.resume && launch.scenario == Scenario::Arena),
        match launch.room {
            Some(room) => {
                &&& out.url matches Some(url) && url@ == launch.signaling@ + seq!['/'] + room@
                &&& out.players == 1
                &&& out.scenario == Scenario::Arena
                &&& !out.in_game
            },
            None => {
                &&& out.url is None
                &&& out.players == launch.players
                &&& out.scenario == launch.scenario
                &&& out.in_game
            },
        },
{
    let may_resume = launch.resume && launch.scenario == Scenario::Arena;
    match &launch.room {
        Some(room) => {
            let mut url: String = text::copy_of(launch.signaling.as_str());
            url.push('/');
            url.append(room.as_str());
            assert(url@ =~= launch.signaling@ + seq!['/'] + room@);
            Opening { url: Some(url), players: 1, scenario: Scenario::Arena, may_resume, in_game: false }
        },
        None => Opening {
            url: None,
            players: launch.players,
            scenario: launch.scenario,
            may_resume,
            in_game: true,
        },
    }
}

// ---------------------------------------------------------------------------
// What holds of every start.
// ---------------------------------------------------------------------------

/// As many seats as were asked for, but one at least and eight at most; where nobody says,
/// all of them in a room and one without. The grass strip has its two.
pub proof fn as_many_seats_as_asked(n: nat, has_room: bool, scenario: Scenario)
    ensures
        scenario is GrassStrip ==> players_for(Some(n), has_room, scenario) == 2 && players_for(
            None,
            has_room,
            scenario,
        ) == 2,
        scenario !is GrassStrip ==> {
            &&& 1 <= n <= 8 ==> players_for(Some(n), has_room, scenario) == n
            &&& n == 0 ==> players_for(Some(n), has_room, scenario) == 1
            &&& n > 8 ==> players_for(Some(n), has_room, scenario) == 8
            &&& players_for(None, true, scenario) == 8
            &&& players_for(None, false, scenario) == 1
        },
{
}

/// As many bots as were asked for, but no more than the players leave seats; none where
/// nobody asks, and none in the grass strip.
pub proof fn as_many_bots_as_fit(n: nat, players: nat, scenario: Scenario)
    ensures
        bots_for(None, players, scenario) == 0,
        scenario is GrassStrip ==> bots_for(Some(n), players, scenario) == 0,
        scenario !is GrassStrip ==> {
            &&& n + players <= 8 ==> bots_for(Some(n), players, scenario) == n
            &&& n + players > 8 && players <= 8 ==> bots_for(Some(n), players, scenario) + players
                == 8
            &&& players > 8 ==> bots_for(Some(n), players, scenario) == 0
        },
{
}

/// A room means the game, whatever world is asked for; so does asking for none.
pub proof fn a_room_means_the_game(raw: Option<Seq<char>>, has_room: bool, deepest: int)
    ensures
        scenario_for(raw, true, deepest) == Scenario::Arena,
        scenario_for(None, has_room, deepest) == Scenario::Arena,
        scenario_for(Some("gunfire"@), false, deepest) == Scenario::Gunfire,
{
}

proof fn lemma_strip(t: Seq<char>)
    ensures
        text::split(t, ':')[0] == "strip"@ <==> (t == "strip"@ || text::after(t, "strip:"@) is Some),
        text::split(t, ':').len() >= 1,
{
    reveal_strlit("strip");
    reveal_strlit("strip:");
    text::lemma_position(t, ':');
    text::lemma_split_parts(t, ':');
    let k = text::position(t, ':');
    let first = text::split(t, ':')[0];
    assert("strip:"@ =~= "strip"@ + seq![':']);
    if k < t.len() {
        assert(first == t.take(k));
        assert(t =~= t.take(k) + seq![':'] + t.skip(k + 1));
        if first == "strip"@ {
            assert(t =~= "strip:"@ + t.skip(k + 1));
            text::lemma_after("strip:"@, t.skip(k + 1));
        }
    } else {
        assert(first == t);
        if text::after(t, "strip:"@) is Some {
            assert(t.take(6)[5] == ':');
            assert(t[5] == ':');
        }
    }
    if text::after(t, "strip:"@) is Some {
        let head = t.take(6);
        assert(head == "strip:"@);
        assert forall|i: int| 0 <= i < 5 implies t[i] != ':' by {
            assert(head[i] == t[i]);
            assert(head[i] == "strip"@[i]);
            assert("strip"@[0] == 's' && "strip"@[1] == 't' && "strip"@[2] == 'r' && "strip"@[3]
                == 'i' && "strip"@[4] == 'p');
        }
        assert(head[5] == ':' && t[5] == ':');
        text::lemma_position_is(t, ':', 5);
        assert(t.take(5) =~= "strip"@) by {
            assert forall|i: int| 0 <= i < 5 implies t.take(5)[i] == "strip"@[i] by {
                assert(head[i] == t[i]);
            }
        }
    }
    if t == "strip"@ {
        assert forall|i: int| 0 <= i < 5 implies t[i] != ':' by {
            assert("strip"@[0] == 's' && "strip"@[1] == 't' && "strip"@[2] == 'r' && "strip"@[3]
                == 'i' && "strip"@[4] == 'p');
        }
        text::lemma_position_is(t, ':', 5);
    }
}

/// Any text but `gunfire` and those for the strip means the game.
pub proof fn an_unknown_world_is_the_game(t: Seq<char>, has_room: bool, deepest: int)
    requires
        t != "gunfire"@,
        t != "strip"@,
        text::after(t, "strip:"@) is None,
    ensures
        scenario_for(Some(t), has_room, deepest) == Scenario::Arena,
{
    lemma_strip(t);
}

/// The strip is as deep as the text says, brought into the range that there is, and as
/// deep as can be where the text says nothing that reads.
pub open spec fn strip_depth(a: Seq<char>, deepest: int, depth: int) -> bool {
    match text::read_i32(a) {
        Some(d) => {
            &&& 0 <= d <= deepest ==> depth == d
            &&& d < 0 ==> depth == 0
            &&& d > deepest ==> depth == deepest
        },
        None => depth == deepest,
    }
}

/// `strip` alone is the deepest strip with somebody standing in the east; behind a colon
/// stands the depth, and behind another the stance.
pub proof fn a_strip_is_as_deep_as_asked(a: Seq<char>, b: Seq<char>, deepest: int)
    requires
        0 <= deepest <= i32::MAX,
        !a.contains(':'),
        !b.contains(':'),
    ensures
        scenario_for(Some("strip"@), false, deepest) == (Scenario::GrassStrip {
            depth: deepest as i32,
            east_stance: 0,
        }),
        scenario_for(Some("strip:"@ + a), false, deepest) matches Scenario::GrassStrip {
            depth,
            east_stance,
        } && strip_depth(a, deepest, depth as int) && east_stance == 0,
        scenario_for(
            Some("strip:"@ + a + seq![':'] + b),
            false,
            deepest,
        ) matches Scenario::GrassStrip { depth, east_stance } && strip_depth(
            a,
            deepest,
            depth as int,
        ) && (match text::read_unsigned(b, 255) {
            Some(s) => east_stance == s,
            None => east_stance == 0,
        }),
{
    reveal_strlit("strip");
    reveal_strlit("strip:");
    reveal_strlit("gunfire");
    let head = "strip"@;
    assert(text::free_of(a, ':') && text::free_of(b, ':'));
    assert(text::free_of(head, ':')) by {
        assert(head[0] == 's' && head[1] == 't' && head[2] == 'r' && head[3] == 'i' && head[4]
            == 'p');
    }
    let one = seq![head];
    let two = seq![head, a];
    let three = seq![head, a, b];
    reveal_with_fuel(text::join, 4);
    text::splitting_undoes_joining(one, ':');
    text::splitting_undoes_joining(two, ':');
    text::splitting_undoes_joining(three, ':');
    assert("strip:"@ =~= head + seq![':']);
    assert(two.drop_first() =~= seq![a]);
    assert(three.drop_first() =~= seq![a, b]);
    assert(seq![a, b].drop_first() =~= seq![b]);
    assert(text::join(one, seq![':']) == head);
    assert(text::join(two, seq![':']) =~= "strip:"@ + a);
    assert(text::join(three, seq![':']) =~= "strip:"@ + a + seq![':'] + b);
    assert(head[0] == 's' && "gunfire"@[0] == 'g');
    assert(("strip:"@ + a)[0] == 's');
    assert(("strip:"@ + a + seq![':'] + b)[0] == 's');
    assert(two[0] == head && two[1] == a);
    assert(three[0] == head && three[1] == a && three[2] == b);
    if text::read_unsigned(b, 255) is Some {
        assert(text::read_unsigned(b, 255)->0 <= 255);
    }
}

/// Nothing said means the built-in servers and `none` means no server; any other text is
/// a list, which the commas in it separate.
pub proof fn servers_are_listed_with_commas(t: Seq<char>)
    ensures
        ice_for(None) is None,
        ice_for(Some("none"@)) == Some(Seq::<Seq<char>>::empty()),
        t != "none"@ ==> (ice_for(Some(t)) matches Some(list) && list.len() >= 1 && text::join(
            list,
            seq![','],
        ) == t && forall|i: int| 0 <= i < list.len() ==> !(#[trigger] list[i]).contains(',')),
{
    text::joining_undoes_splitting(t, ',');
}

/// A number counts where the text is one, and only up to its limit.
pub proof fn a_number_counts_where_it_reads(n: nat, max: nat, t: Seq<char>)
    ensures
        number_in(None, max) is None,
        n <= max ==> number_in(Some(text::decimal(n)), max) == Some(n),
        n > max ==> number_in(Some(text::decimal(n)), max) is None,
        t.len() == 0 ==> number_in(Some(t), max) is None,
{
    text::a_number_reads_up_to_the_limit(n, max);
}

/// A room is named by any text that is not empty.
pub proof fn an_empty_name_is_no_room(t: Seq<char>)
    ensures
        room_for(None) is None,
        t.len() == 0 ==> room_for(Some(t)) is None,
        t.len() > 0 ==> room_for(Some(t)) == Some(t),
{
}

/// Contracts speak of the servers one by one, and of a number as it is.
pub proof fn servers_are_seen_one_by_one(list: Vec<String>, i: int, n: usize)
    ensures
        ice_view(None) is None,
        ice_view(Some(list)) matches Some(seen) && seen.len() == list@.len() && (0 <= i < list@.len()
            ==> seen[i] == list@[i]@),
        as_nat(Some(n)) == Some(n as nat),
        as_nat(None) is None,
{
}

} // verus!
