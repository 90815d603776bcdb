//! What to start.

use army_ghosts::launch::{
    begin_session_setup, launch_config, parse_ice, parse_resume, parse_scenario, resolve_bots,
    resolve_players, LaunchVars, Scenario, DEFAULT_SIGNALING,
};

const DEEPEST: i32 = 48;

fn vars() -> LaunchVars {
    LaunchVars {
        room: None,
        players: None,
        signaling: None,
        ice: None,
        scenario: None,
        bots: None,
        aggro: None,
        resume: None,
    }
}

#[test]
fn seats_are_counted() {
    let strip = Scenario::GrassStrip { depth: 3, east_stance: 0 };
    assert_eq!(resolve_players(None, false, Scenario::Arena), 1);
    assert_eq!(resolve_players(None, true, Scenario::Arena), 8);
    assert_eq!(resolve_players(Some(0), true, Scenario::Arena), 1);
    assert_eq!(resolve_players(Some(99), false, Scenario::Gunfire), 8);
    assert_eq!(resolve_players(Some(5), true, strip), 2);
    assert_eq!(resolve_bots(None, 1, Scenario::Arena), 0);
    assert_eq!(resolve_bots(Some(99), 3, Scenario::Arena), 5);
    assert_eq!(resolve_bots(Some(2), 3, Scenario::Tracers), 2);
    assert_eq!(resolve_bots(Some(2), 1, strip), 0);
    assert_eq!(resolve_bots(Some(2), 9, Scenario::Arena), 0);
}

#[test]
fn the_world_is_asked_for_by_name() {
    let scenario = |raw: &str| parse_scenario(&Some(raw.to_string()), false, DEEPEST);
    let strip = |depth, east_stance| Scenario::GrassStrip { depth, east_stance };
    assert_eq!(scenario("strip"), strip(DEEPEST, 0));
    assert_eq!(scenario("strip:32"), strip(32, 0));
    assert_eq!(scenario("strip:32:2"), strip(32, 2));
    assert_eq!(scenario("strip:32:2:junk"), strip(32, 2));
    assert_eq!(scenario("strip:-5"), strip(0, 0));
    assert_eq!(scenario("strip:9999"), strip(DEEPEST, 0));
    assert_eq!(scenario("strip:deep:256"), strip(DEEPEST, 0));
    assert_eq!(scenario("strip::1"), strip(DEEPEST, 1));
    assert_eq!(scenario("gunfire"), Scenario::Gunfire);
    assert_eq!(scenario("Strip"), Scenario::Arena);
    assert_eq!(scenario(""), Scenario::Arena);
    assert_eq!(parse_scenario(&None, false, DEEPEST), Scenario::Arena);
    assert_eq!(parse_scenario(&Some("strip:3".into()), true, DEEPEST), Scenario::Arena);
}

#[test]
fn servers_and_resuming() {
    assert_eq!(parse_ice(&None), None);
    assert_eq!(parse_ice(&Some("none".into())), Some(vec![]));
    assert_eq!(
        parse_ice(&Some("stun:a,turn:b".into())),
        Some(vec!["stun:a".to_string(), "turn:b".to_string()])
    );
    assert_eq!(parse_ice(&Some(String::new())), Some(vec![String::new()]));
    assert!(parse_resume(&None));
    assert!(parse_resume(&Some("1".into())));
    assert!(!parse_resume(&Some("0".into())));
}

#[test]
fn a_launch_is_put_together() {
    let plain = launch_config(vars(), DEEPEST);
    assert_eq!(plain.room, None);
    assert_eq!(plain.players, 1);
    assert_eq!(plain.signaling, DEFAULT_SIGNALING);
    assert_eq!(plain.scenario, Scenario::Arena);
    assert!(plain.resume);

    let room = launch_config(
        LaunchVars {
            room: Some("abcde".into()),
            players: Some("6".into()),
            bots: Some("7".into()),
            aggro: Some("80".into()),
            signaling: Some("wss://x".into()),
            scenario: Some("strip".into()),
            resume: Some("0".into()),
            ..vars()
        },
        DEEPEST,
    );
    assert_eq!(room.room.as_deref(), Some("abcde"));
    assert_eq!((room.players, room.bots), (6, 2));
    assert_eq!(room.aggro, Some(80));
    assert_eq!(room.scenario, Scenario::Arena, "a room is always the game");
    assert!(!room.resume);

    let junk = launch_config(
        LaunchVars {
            room: Some(String::new()),
            players: Some("many".into()),
            aggro: Some("-1".into()),
            ..vars()
        },
        DEEPEST,
    );
    assert_eq!((junk.room, junk.players, junk.aggro), (None, 1, None));
}

#[test]
fn a_room_is_warmed_up_for_and_a_solo_game_begins() {
    let room = launch_config(
        LaunchVars {
            room: Some("abcde".into()),
            signaling: Some("wss://x".into()),
            ..vars()
        },
        DEEPEST,
    );
    let opening = begin_session_setup(&room);
    assert_eq!(opening.url.as_deref(), Some("wss://x/abcde"));
    assert_eq!(opening.players, 1);
    assert!(opening.may_resume && !opening.in_game);

    let rig = launch_config(LaunchVars { scenario: Some("strip:9".into()), ..vars() }, DEEPEST);
    let opening = begin_session_setup(&rig);
    assert_eq!(opening.url, None);
    assert_eq!(opening.players, 2);
    assert_eq!(opening.scenario, Scenario::GrassStrip { depth: 9, east_stance: 0 });
    assert!(opening.in_game && !opening.may_resume);
}
