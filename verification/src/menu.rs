//! The menu: new rooms, and the dial for the bots.

use vstd::prelude::*;

use crate::text;
use crate::MAX_PLAYERS;

verus! {

/// How many bots this client asks for.
#[derive(Debug, Clone, Copy, PartialEq, Eq, Structural)]
pub struct BotCount(pub usize);

impl Default for BotCount {
    fn default() -> (out: Self)
        ensures
            out.0 == 0,
    {
        BotCount(0)
    }
}

/// How hard the bots are asked to push.
#[derive(Debug, Clone, Copy, PartialEq, Eq, Structural)]
pub struct Aggression(pub u32);

/// What a room's code is written with: nothing that could be taken for
/// something else when it is read out.
pub const CODE_ALPHABET: &'static str = "23456789ABCDEFGHJKMNPQRSTUVWXYZ";

/// How many characters a code has.
pub const CODE_LEN: usize = 5;

pub open spec fn range64() -> int {
    0x1_0000_0000_0000_0000
}

/// The next state of the generator behind the codes.
pub open spec fn code_step(seed: u64) -> u64 {
    ((seed * 6364136223846793005 + 1442695040888963407) % range64()) as u64
}

/// The state after `n` steps.
pub open spec fn code_state(seed: u64, n: nat) -> u64
    decreases n,
{
    if n == 0 {
        seed
    } else {
        code_step(code_state(seed, (n - 1) as nat))
    }
}

/// The character that a state gives.
pub open spec fn code_char(state: u64) -> char {
    CODE_ALPHABET@[(state as int / 0x2_0000_0000) % 31]
}

/// A code: the generator starts from the entropy, made odd, and each of its
/// next five states gives a character.
pub open spec fn room_code(entropy: u64) -> Seq<char> {
    let seed = if entropy % 2 == 0 {
        (entropy + 1) as u64
    } else {
        entropy
    };
    Seq::new(CODE_LEN as nat, |i: int| code_char(code_state(seed, (i + 1) as nat)))
}

fn step_code(seed: u64) -> (out: u64)
    ensures
        out == code_step(seed),
{
    let wide: u128 = seed as u128 * 6364136223846793005;
    assert(seed * 6364136223846793005 <= 0xffff_ffff_ffff_ffff * 6364136223846793005)
        by (nonlinear_arith)
        requires
            seed <= 0xffff_ffff_ffff_ffff,
    ;
    let next: u128 = (wide + 1442695040888963407) % 0x1_0000_0000_0000_0000;
    next as u64
}

/// A code for a new room.
pub fn generate_room_code(entropy: u64) -> (out: String)
    ensures
        out@ == room_code(entropy),
        out@.len() == CODE_LEN,
        forall|i: int| 0 <= i < out@.len() ==> CODE_ALPHABET@.contains(#[trigger] out@[i]),
{
    let alphabet = text::chars_of(CODE_ALPHABET);
    proof {
        reveal_strlit("23456789ABCDEFGHJKMNPQRSTUVWXYZ");
    }
    let seed: u64 = if entropy % 2 == 0 {
        entropy + 1
    } else {
        entropy
    };
    let mut state: u64 = seed;
    let mut out: String = String::new();
    let mut i: usize = 0;
    while i < CODE_LEN
        invariant
            i <= CODE_LEN,
            alphabet@ == CODE_ALPHABET@,
            alphabet.len() == 31,
            seed == (if entropy % 2 == 0 {
                (entropy + 1) as u64
            } else {
                entropy
            }),
            state == code_state(seed, i as nat),
            out@ == room_code(entropy).take(i as int),
        decreases CODE_LEN - i,
    {
        state = step_code(state);
        let at: u64 = (state / 0x2_0000_0000) % 31;
        out.push(alphabet[at as usize]);
        assert(room_code(entropy).take(i + 1) =~= room_code(entropy).take(i as int).push(
            room_code(entropy)[i as int],
        ));
        i = i + 1;
    }
    proof {
        assert(room_code(entropy).take(i as int) =~= room_code(entropy));
        assert forall|k: int| 0 <= k < out@.len() implies CODE_ALPHABET@.contains(
            #[trigger] out@[k],
        ) by {
            let at = (code_state(seed, (k + 1) as nat) as int / 0x2_0000_0000) % 31;
            assert(0 <= at < 31);
            assert(out@[k] == CODE_ALPHABET@[at]);
        }
    }
    out
}

/// What a page's address asks for to be in a room.
pub fn room_query(code: &str) -> (out: String)
    ensures
        out@ == "room="@ + code@,
{
    let mut out: String = text::copy_of("room=");
    out.append(code);
    out
}

/// The bot dial after one press: within nothing and the seats that the players
/// leave.
pub open spec fn stepped(bots: int, step: int, players: int) -> int {
    let room: int = if players < MAX_PLAYERS {
        MAX_PLAYERS - players
    } else {
        0
    };
    if bots + step < 0 {
        0
    } else if bots + step > room {
        room
    } else {
        bots + step
    }
}

/// The bot dial after several presses.
pub open spec fn stepped_all(bots: int, steps: Seq<i32>, players: int) -> int
    decreases steps.len(),
{
    if steps.len() == 0 {
        bots
    } else {
        stepped(stepped_all(bots, steps.drop_last(), players), steps.last() as int, players)
    }
}

/// What was pressed this frame.
pub struct MenuPresses {
    /// The menu's own button.
    pub toggle: bool,
    /// The button for a new room.
    pub new_room: bool,
    /// The steppers that were pressed, in order: each adds its number.
    pub steps: Vec<i32>,
    /// Whether anything was pressed anywhere, and whether a button of the menu
    /// is held.
    pub anywhere: bool,
    pub on_menu: bool,
}

/// The menu after a frame.
#[derive(Debug, Clone, Copy, PartialEq, Eq, Structural)]
pub struct MenuState {
    pub open: bool,
    pub bots: BotCount,
}

/// A frame of the menu: its button opens and closes it, the steppers turn the
/// dial, and a press beside it closes it. Says whether a new room is wanted.
pub fn menu_interactions(state: MenuState, presses: &MenuPresses, players: usize) -> (out: (
    MenuState,
    bool,
))
    requires
        state.bots.0 <= i32::MAX,
        forall|i: int|
            0 <= i < presses.steps@.len() ==> #[trigger] presses.steps@[i] + state.bots.0
                <= i32::MAX && presses.steps@[i] + MAX_PLAYERS <= i32::MAX,
    ensures
        out.1 == presses.new_room,
        out.0.open == (if presses.anywhere && !presses.on_menu {
            false
        } else {
            state.open != presses.toggle
        }),
        out.0.bots.0 == stepped_all(state.bots.0 as int, presses.steps@, players as int),
{
    let mut open: bool = state.open != presses.toggle;
    let room: i64 = MAX_PLAYERS.saturating_sub(players) as i64;
    let mut bots: i64 = state.bots.0 as i64;
    let mut i: usize = 0;
    assert(presses.steps@.take(0) =~= Seq::empty());
    while i < presses.steps.len()
        invariant
            i <= presses.steps.len(),
            0 <= bots <= i32::MAX,
            room == (if players < MAX_PLAYERS {
                MAX_PLAYERS - players
            } else {
                0
            }),
            bots == stepped_all(
                state.bots.0 as int,
                presses.steps@.take(i as int),
                players as int,
            ),
        decreases presses.steps.len() - i,
    {
        let next: i64 = bots + presses.steps[i] as i64;
        proof {
            assert(presses.steps@.take(i + 1).drop_last() =~= presses.steps@.take(i as int));
        }
        bots = if next < 0 {
            0
        } else if next > room {
            room
        } else {
            next
        };
        i = i + 1;
    }
    assert(presses.steps@.take(i as int) =~= presses.steps@);
    if presses.anywhere && !presses.on_menu {
        open = false;
    }
    (MenuState { open, bots: BotCount(bots as usize) }, presses.new_room)
}

/// Once a stepper has been pressed the dial shows no more bots than the match
/// can reach.
pub proof fn the_dial_stays_within_the_seats(bots: int, steps: Seq<i32>, players: int)
    requires
        steps.len() > 0,
        0 <= players,
    ensures
        0 <= stepped_all(bots, steps, players),
        players <= MAX_PLAYERS ==> stepped_all(bots, steps, players) + players <= MAX_PLAYERS,
{
}

/// The readout of the dial.
pub fn bot_label(bots: BotCount) -> (out: String)
    ensures
        out@ == "BOTS "@ + text::decimal(bots.0 as nat),
{
    let mut out: String = text::copy_of("BOTS ");
    text::append_number(&mut out, bots.0 as u128);
    out
}

/// Every press of a stepper turns the dial by the stepper's own number, as far as
/// nothing at the one end and the seats that the players leave at the other; without a
/// press it stays.
pub proof fn a_press_turns_the_dial(bots: int, steps: Seq<i32>, n: i32, players: int)
    requires
        0 <= players <= 8,
    ensures
        stepped_all(bots, Seq::empty(), players) == bots,
        ({
            let now = stepped_all(bots, steps, players);
            let next = stepped_all(bots, steps.push(n), players);
            &&& 0 <= now + n <= 8 - players ==> next == now + n
            &&& now + n < 0 ==> next == 0
            &&& now + n > 8 - players ==> next == 8 - players
        }),
{
    assert(steps.push(n).drop_last() =~= steps);
}

/// With the seats taken there is no room for a bot.
pub proof fn a_full_match_has_no_bots(bots: int, steps: Seq<i32>, players: int)
    requires
        players >= 8,
        steps.len() > 0,
    ensures
        stepped_all(bots, steps, players) == 0,
{
}

/// A code is written with the draws of one generator, which starts from the entropy made
/// odd: where `states` are its states in turn, every character is the one that the bits
/// of its state above the thirty-third count off in the alphabet.
pub proof fn a_code_is_five_draws(entropy: u64, states: Seq<u64>, i: int)
    requires
        states.len() == 6,
        states[0] == (if entropy % 2 == 1 {
            entropy as int
        } else {
            entropy + 1
        }),
        forall|k: int|
            0 <= k < 5 ==> #[trigger] states[k + 1] == (states[k] * 6364136223846793005
                + 1442695040888963407) % 0x1_0000_0000_0000_0000,
        0 <= i < 5,
    ensures
        room_code(entropy).len() == 5,
        room_code(entropy)[i] == "23456789ABCDEFGHJKMNPQRSTUVWXYZ"@[(states[i + 1] as int
            / 0x2_0000_0000) % 31],
{
    let seed = states[0];
    lemma_states(seed, states, i + 1);
}

proof fn lemma_states(seed: u64, states: Seq<u64>, n: int)
    requires
        states.len() == 6,
        states[0] == seed,
        forall|k: int|
            0 <= k < 5 ==> #[trigger] states[k + 1] == (states[k] * 6364136223846793005
                + 1442695040888963407) % 0x1_0000_0000_0000_0000,
        0 <= n <= 5,
    ensures
        code_state(seed, n as nat) == states[n],
    decreases n,
{
    if n > 0 {
        lemma_states(seed, states, n - 1);
        assert(states[(n - 1) + 1] == states[n]);
    }
}

/// Entropy that differs in its last bit alone gives one code.
pub proof fn the_last_bit_does_not_matter(entropy: u64)
    requires
        entropy % 2 == 0,
    ensures
        room_code(entropy) == room_code((entropy + 1) as u64),
{
}

} // verus!
