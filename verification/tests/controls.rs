//! The menu, the stance, the sights and the inputs they end up in.

use army_ghosts::ads::toggle_ads;
use army_ghosts::input::{read_local_inputs, Controls, LocalInput};
use army_ghosts::menu::{
    bot_label, generate_room_code, menu_interactions, room_query, BotCount, MenuPresses,
    MenuState, CODE_ALPHABET, CODE_LEN,
};
use army_ghosts::roster::Seat;
use army_ghosts::stance::{stance_name, update_stance_buttons, StanceControl};
use army_ghosts::wire::MatchRoom;

#[test]
fn room_codes_survive_being_read_out() {
    assert_eq!(generate_room_code(0), generate_room_code(1), "the seed is made odd");
    let mut seed: u64 = 1;
    let mut expected = String::new();
    for _ in 0..CODE_LEN {
        seed = seed.wrapping_mul(6364136223846793005).wrapping_add(1442695040888963407);
        let at = ((seed >> 33) as usize) % CODE_ALPHABET.len();
        expected.push(CODE_ALPHABET.as_bytes()[at] as char);
    }
    assert_eq!(generate_room_code(1), expected);
    for seed in [2u64, 77, 0xDEAD_BEEF, u64::MAX] {
        let code = generate_room_code(seed);
        assert_eq!(code.len(), 5);
        assert!(code.chars().all(|c| CODE_ALPHABET.contains(c)), "{code}");
        assert!(!code.contains(['0', 'O', '1', 'I', 'L']));
    }
    assert_eq!(room_query("ABCDE"), "room=ABCDE");
}

fn presses() -> MenuPresses {
    MenuPresses { toggle: false, new_room: false, steps: vec![], anywhere: false, on_menu: false }
}

#[test]
fn the_menu_opens_closes_and_steps() {
    let closed = MenuState { open: false, bots: BotCount(6) };
    let toggle = MenuPresses { toggle: true, anywhere: true, on_menu: true, ..presses() };
    let (open, new) = menu_interactions(closed, &toggle, 1);
    assert!(open.open && !new);
    assert!(!menu_interactions(open, &toggle, 1).0.open);
    let beside = MenuPresses { anywhere: true, ..presses() };
    assert!(!menu_interactions(open, &beside, 1).0.open);
    assert!(menu_interactions(open, &presses(), 1).0.open);

    let more = MenuPresses { steps: vec![1], on_menu: true, anywhere: true, ..presses() };
    let (state, _) = menu_interactions(open, &more, 1);
    assert_eq!(state.bots, BotCount(7));
    assert!(state.open);
    assert_eq!(menu_interactions(state, &more, 1).0.bots, BotCount(7), "no seat left");
    let less = MenuPresses { steps: vec![-1, -1], ..presses() };
    assert_eq!(menu_interactions(MenuState { bots: BotCount(1), ..open }, &less, 1).0.bots, BotCount(0));
    assert_eq!(menu_interactions(open, &more, 9).0.bots, BotCount(0));
    assert!(menu_interactions(open, &MenuPresses { new_room: true, ..presses() }, 1).1);
    assert_eq!(bot_label(BotCount(7)), "BOTS 7");
}

#[test]
fn stances_step_within_the_ladder() {
    let mut control = StanceControl::default();
    control.read_stance_input(&vec![true, true], false, false);
    assert_eq!(control.wanted, 2, "two taps ask for prone");
    control.read_stance_input(&vec![true], true, false);
    assert_eq!(control.wanted, 2);
    control.read_stance_input(&vec![true], false, true);
    assert_eq!(control.wanted, 2, "one each way is no step");
    control.read_stance_input(&vec![false], false, false);
    assert_eq!(control.wanted, 1);
    control.read_stance_input(&vec![], false, true);
    control.read_stance_input(&vec![], false, true);
    assert_eq!(control.wanted, 0);
    assert!(control.spent(false) && !control.spent(true));
    assert_eq!((stance_name(0), stance_name(1), stance_name(2), stance_name(9)), (
        "STANDING", "CROUCHED", "PRONE", "STANDING"
    ));
}

#[test]
fn the_stance_column_is_drawn_when_it_changes() {
    let mut last = None;
    let control = StanceControl { wanted: 2 };
    let view = update_stance_buttons(control, Some(1), &mut last).expect("drawn");
    assert!(view.down_spent && !view.up_spent);
    assert_eq!(view.name, "CROUCHED", "where you are, not where you asked to be");
    assert!(update_stance_buttons(control, Some(1), &mut last).is_none());
    assert_eq!(update_stance_buttons(control, None, &mut last).expect("drawn").name, "PRONE");
}

#[test]
fn the_sights_toggle() {
    assert!(toggle_ads(false, &vec![false, true], false, false));
    assert!(!toggle_ads(true, &vec![], true, false));
    assert!(!toggle_ads(true, &vec![true], true, true), "all at once count as one");
    assert!(toggle_ads(true, &vec![false], false, false));
}

fn controls() -> Controls {
    Controls {
        left: false,
        right: true,
        down: false,
        up: false,
        fire_key: true,
        stick: None,
        fire_touch: false,
        ads: true,
        stance: 1,
        side: 2,
        bots: 3,
        aggro: 70,
        idle_stance: 2,
    }
}

fn blank() -> LocalInput {
    LocalInput {
        dials: None,
        side: None,
        move_x: 0,
        move_y: 0,
        fire: false,
        ads: false,
        stance: None,
    }
}

#[test]
fn offline_the_first_handle_is_driven_and_the_rest_idle() {
    let inputs = read_local_inputs(&vec![0, 1], controls(), None);
    assert_eq!(inputs.len(), 2);
    assert_eq!(
        inputs.get(&0),
        Some(&LocalInput {
            dials: Some((3, 70)),
            side: Some(2),
            move_x: 127,
            fire: true,
            ads: true,
            stance: Some(1),
            ..blank()
        })
    );
    assert_eq!(inputs.get(&1), Some(&LocalInput { stance: Some(2), ..blank() }));
    assert!(read_local_inputs(&vec![], controls(), None).is_empty());
}

#[test]
fn the_stick_wins_and_opposite_keys_cancel() {
    let held = Controls { stick: Some((-500, 64)), ..controls() };
    let inputs = read_local_inputs(&vec![0], held, None);
    let input = inputs.get(&0).expect("ours");
    assert_eq!((input.move_x, input.move_y), (-127, 64));
    let both = Controls { left: true, up: true, ..controls() };
    let inputs = read_local_inputs(&vec![0], both, None);
    let input = inputs.get(&0).expect("ours");
    assert_eq!((input.move_x, input.move_y), (0, 127));
}

#[test]
fn in_a_match_vacant_seats_ask_for_nothing_and_one_seat_dials() {
    let seat = |peer| Seat { player: "aa".to_string(), peer };
    let room = MatchRoom {
        generation: 0,
        seats: vec![seat(None), seat(Some(7)), seat(None), seat(Some(9))],
        me: 3,
    };
    let inputs = read_local_inputs(&vec![0, 2, 3], controls(), Some(&room));
    assert_eq!(inputs.get(&0), Some(&blank()));
    assert_eq!(inputs.get(&2), Some(&blank()));
    let own = inputs.get(&3).expect("ours");
    assert!(own.fire && own.dials.is_none(), "the dials are the first one's to send");
    assert_eq!(inputs.get(&1), None);

    let first = MatchRoom { me: 1, ..room };
    let inputs = read_local_inputs(&vec![0, 1, 2], controls(), Some(&first));
    assert_eq!(inputs.get(&1).and_then(|input| input.dials), Some((3, 70)));
}
