//! What the overlays say.

use army_ghosts::hud::{
    banner, board_rows, change_line, clock, copy_button_shown, health_shown, lobby_list,
    pawn_name, roster_headline, round_line, score_label, share_url, spectate_label, start_asked,
    start_button_shown, status_text, team_name, troop_lines, troop_list, BoardFlash, Decided,
    Ping, RosterPawn, ScoreRow, Troop, Winner, BOARD_ROWS,
};
use army_ghosts::net::Lobby;

#[test]
fn bots_are_numbered_from_the_first_bot_not_the_first_pawn() {
    assert_eq!(pawn_name(0, false, 1), "Player 1");
    assert_eq!(pawn_name(1, true, 1), "Bot 1");
    assert_eq!(pawn_name(7, true, 1), "Bot 7");
    assert_eq!(pawn_name(2, true, 2), "Bot 1");
}

#[test]
fn a_bot_without_a_session_to_count_seats_is_still_named() {
    assert_eq!(pawn_name(0, true, 0), "Bot 1");
}

fn roster(handles: &[usize]) -> Vec<(usize, String)> {
    handles.iter().map(|h| (*h, format!("Bot {h}"))).collect()
}

#[test]
fn the_headline_names_the_pawn_that_joined_or_left() {
    assert_eq!(roster_headline(&roster(&[0, 1]), &roster(&[0, 1, 2])), "BOT 2 JOINED");
    assert_eq!(roster_headline(&roster(&[0, 1, 2]), &roster(&[0, 1])), "BOT 2 LEFT");
}

#[test]
fn a_departed_pawn_is_still_named_from_what_was_stored() {
    let before = vec![(0, "Player 1".to_string()), (3, "Bot 3".to_string())];
    assert_eq!(roster_headline(&before, &before[..1].to_vec()), "BOT 3 LEFT");
}

#[test]
fn several_at_once_are_reported_without_naming_any() {
    assert_eq!(roster_headline(&roster(&[0]), &roster(&[0, 1, 2])), "ROSTER CHANGED");
    assert_eq!(roster_headline(&roster(&[0, 1]), &roster(&[0, 2])), "ROSTER CHANGED");
}

#[test]
fn the_troop_count_marks_your_side_without_moving_the_other_line() {
    let lines = troop_lines([3, 2], Some(0));
    assert_eq!(lines, vec!["> ALPHA 3", "  BRAVO 2"]);
    let lines = troop_lines([3, 2], Some(1));
    assert_eq!(lines, vec!["  ALPHA 3", "> BRAVO 2"]);
    for count in [[0, 0], [4, 4]] {
        let lines = troop_lines(count, None);
        assert_eq!(lines[0].len(), lines[1].len(), "{lines:?} would step");
    }
}

#[test]
fn a_change_is_said_of_one_at_a_time() {
    let one = vec!["ÉMILE".to_string()];
    assert_eq!(change_line(&one, &vec![]), "ÉMILE JOINED");
    assert_eq!(change_line(&vec![], &one), "ÉMILE LEFT");
    assert_eq!(change_line(&one, &one), "ROSTER CHANGED");
    assert_eq!(change_line(&vec![], &vec![]), "ROSTER CHANGED");
}

#[test]
fn the_clock_rounds_up() {
    assert_eq!(clock(0), "0:00");
    assert_eq!(clock(1), "0:01");
    assert_eq!(clock(60), "0:01");
    assert_eq!(clock(61), "0:02");
    assert_eq!(clock(107 * 60), "1:47");
    assert_eq!(clock(7200), "2:00");
    assert_eq!(clock(u32::MAX), "1193046:29");
}

#[test]
fn the_line_at_the_top() {
    assert_eq!(round_line(true, Some((2, 1)), Some(6420)), "ALPHA 2 - 1 BRAVO    1:47");
    assert_eq!(round_line(true, Some((2, 1)), None), "ALPHA 2 - 1 BRAVO");
    assert_eq!(round_line(false, Some((2, 1)), Some(6420)), "");
    assert_eq!(round_line(true, None, Some(1)), "");
    assert_eq!((team_name(0), team_name(1), team_name(9)), ("ALPHA", "BRAVO", "BRAVO"));
}

#[test]
fn the_spectate_button_uses_the_same_names() {
    assert_eq!(spectate_label(4, true, 1), "Bot 4 >");
    assert_eq!(spectate_label(1, false, 2), "Player 2 >");
}

#[test]
fn the_banner_says_the_result_or_the_change() {
    let decided = Decided { number: 3, winner: Winner::Team(1), left: 240 };
    let lines = banner(true, Some(decided), true, "BOT 2 LEFT").expect("up");
    assert_eq!((lines.headline.as_str(), lines.countdown.as_str()), (
        "BRAVO WINS ROUND 3",
        "NEXT ROUND IN 0:04"
    ));
    let drawn = Decided { winner: Winner::Draw, ..decided };
    assert_eq!(banner(true, Some(drawn), false, "").expect("up").headline, "ROUND 3 DRAWN");
    let flash = banner(true, None, true, "BOT 2 LEFT").expect("up");
    assert_eq!((flash.headline.as_str(), flash.countdown.as_str()), ("BOT 2 LEFT", ""));
    assert!(banner(true, None, false, "BOT 2 LEFT").is_none());
    assert!(banner(false, Some(decided), true, "x").is_none());
}

fn row(side: u8, handle: usize, alive: bool, is_bot: bool) -> ScoreRow {
    ScoreRow { side, handle, alive, kills: 5, deaths: 3, is_bot }
}

#[test]
fn the_board_lists_every_pawn_by_side() {
    let scores = vec![
        row(1, 3, false, true),
        row(0, 2, true, true),
        row(1, 1, true, false),
        row(0, 0, true, false),
    ];
    let pings = vec![Ping { handle: 1, ms: 42 }, Ping { handle: 3, ms: 9 }];
    let board = board_rows(&scores, &vec![0], 2, &pings);
    let lines: Vec<(&str, bool)> = board.iter().map(|e| (e.text.as_str(), e.dead)).collect();
    assert_eq!(
        lines,
        vec![
            ("- ALPHA -", false),
            ("Player 1 (you)        5k 3d", false),
            ("Bot 1                 5k 3d", false),
            ("", false),
            ("- BRAVO -", false),
            ("Player 2              5k 3d  42ms", false),
            ("Bot 2                 5k 3d", true),
        ]
    );
    assert!(board_rows(&vec![], &vec![], 0, &vec![]).is_empty());
    assert_eq!(score_label(5, 3), "5k 3d");
}

#[test]
fn a_full_board_fits() {
    let scores: Vec<ScoreRow> = (0..8).map(|h| row((h % 2) as u8, h, true, h > 0)).collect();
    let board = board_rows(&scores, &vec![0], 1, &vec![]);
    assert_eq!(board.len(), 11);
    assert!(board.len() <= BOARD_ROWS);
}

#[test]
fn the_roster_is_watched_between_matches_and_not_across_them() {
    let mut flash = BoardFlash::default();
    let pawns = |handles: &[usize]| -> Vec<RosterPawn> {
        handles.iter().map(|&handle| RosterPawn { handle, is_bot: handle > 0 }).collect()
    };
    assert!(!flash.watch_roster(true, &pawns(&[1, 0]), 1), "a match came up");
    assert_eq!(flash.seen, vec![(0, "Player 1".to_string()), (1, "Bot 1".to_string())]);
    assert!(!flash.watch_roster(true, &pawns(&[0, 1]), 1), "nothing moved");
    assert!(flash.watch_roster(true, &pawns(&[0, 1, 2]), 1));
    assert_eq!(flash.headline, "BOT 2 JOINED");
    assert!(flash.watch_roster(true, &pawns(&[0, 2]), 1));
    assert_eq!(flash.headline, "BOT 1 LEFT");
    assert!(!flash.watch_roster(true, &pawns(&[]), 1), "a match went down");
    assert!(!flash.watch_roster(false, &pawns(&[0, 2]), 1));
    assert!(flash.seen.is_empty());
    assert_eq!(flash.headline, "BOT 1 LEFT", "the last headline stays");
}

#[test]
fn troops_are_counted_and_the_lobby_listed() {
    let pawns = vec![
        Troop { handle: 0, team: 0, alive: false },
        Troop { handle: 1, team: 1, alive: true },
        Troop { handle: 2, team: 0, alive: true },
        Troop { handle: 3, team: 7, alive: true },
    ];
    assert_eq!(troop_list(&pawns, &vec![0]), "> ALPHA 1\n  BRAVO 2");
    assert_eq!(troop_list(&pawns, &vec![]), "  ALPHA 1\n  BRAVO 2");
    let lobby = Lobby { ids: vec![3, 5], my_id: Some(5), ..Lobby::default() };
    assert_eq!(lobby_list(&lobby), "Player 1\nPlayer 2 (you)");
    assert_eq!(lobby_list(&Lobby::default()), "");
}

#[test]
fn the_status_line() {
    let lobby = |n: u128, is_host: bool| Lobby {
        ids: (0..n).collect(),
        is_host,
        ..Lobby::default()
    };
    assert_eq!(status_text(Some(1), true, true, &lobby(0, false)), "ELIMINATED - SPECTATING");
    assert_eq!(status_text(Some(0), true, true, &lobby(0, false)), "connecting...");
    assert_eq!(status_text(None, true, true, &lobby(1, true)), "share the link to invite others");
    assert_eq!(status_text(None, true, true, &lobby(2, true)), "");
    assert_eq!(status_text(None, true, true, &lobby(2, false)), "waiting for host to start...");
    let starting = Lobby { roster: Some(vec![]), ..lobby(2, false) };
    assert_eq!(status_text(None, true, true, &starting), "starting...");
    assert_eq!(status_text(None, true, false, &lobby(2, false)), "");
    assert_eq!(status_text(None, false, true, &lobby(2, false)), "");
}

#[test]
fn buttons_and_links() {
    let host = Lobby { ids: vec![1, 2], is_host: true, ..Lobby::default() };
    assert!(start_button_shown(true, &host));
    assert!(!start_button_shown(false, &host));
    assert!(!start_button_shown(true, &Lobby { ids: vec![1], ..host }));
    assert!(copy_button_shown(true, true) && !copy_button_shown(true, false));
    assert_eq!(share_url(None, "abcde"), "?room=abcde");
    let page = Some(("https://x".to_string(), "/play/".to_string()));
    assert_eq!(share_url(page, "abcde"), "https://x/play/?room=abcde");
    assert!(start_asked(true, true, false, false));
    assert!(start_asked(false, false, true, false) && start_asked(false, false, false, true));
    assert!(!start_asked(false, true, true, true));
    assert!(health_shown(Some(true)) && !health_shown(Some(false)) && !health_shown(None));
}
