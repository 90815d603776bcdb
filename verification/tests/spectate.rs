//! Whom to watch, and whose name to show.

use army_ghosts::launch::Scenario;
use army_ghosts::nameplate::{teammates, PlatePawn};
use army_ghosts::spectate::{choose_mate, living_teammates, watched, Mate, Spectating};

#[test]
fn a_wiped_out_side_leaves_you_on_yourself() {
    assert_eq!(choose_mate(Some(4), &vec![], false), None);
    assert_eq!(choose_mate(None, &vec![], true), None);
}

#[test]
fn dying_picks_a_teammate() {
    assert_eq!(choose_mate(None, &vec![2, 4, 6], false), Some(2));
}

#[test]
fn tapping_walks_round_and_wraps() {
    let mates = vec![2, 4, 6];
    assert_eq!(choose_mate(Some(2), &mates, true), Some(4));
    assert_eq!(choose_mate(Some(4), &mates, true), Some(6));
    assert_eq!(choose_mate(Some(6), &mates, true), Some(2));
}

#[test]
fn it_stays_put_until_asked() {
    assert_eq!(choose_mate(Some(4), &vec![2, 4, 6], false), Some(4));
}

#[test]
fn watching_someone_who_dies_moves_you_on() {
    assert_eq!(choose_mate(Some(4), &vec![2, 6], false), Some(2));
}

fn pawns() -> Vec<Mate> {
    vec![
        Mate { handle: 6, team: 0, alive: true },
        Mate { handle: 0, team: 0, alive: false },
        Mate { handle: 1, team: 1, alive: true },
        Mate { handle: 2, team: 0, alive: true },
        Mate { handle: 4, team: 0, alive: false },
    ]
}

#[test]
fn only_the_standing_of_your_side_are_listed() {
    assert_eq!(living_teammates(0, &pawns()), vec![2, 6]);
    assert_eq!(living_teammates(2, &pawns()), vec![6]);
    assert_eq!(living_teammates(1, &pawns()), Vec::<usize>::new());
    assert_eq!(living_teammates(9, &pawns()), Vec::<usize>::new());
}

#[test]
fn the_camera_follows_whoever_is_left() {
    let mut camera = Spectating::default();
    camera.update_spectate(Some(2), &pawns(), false);
    assert_eq!(camera.watching, None, "still standing");
    camera.update_spectate(Some(0), &pawns(), false);
    assert_eq!(camera.watching, Some(2));
    camera.update_spectate(Some(0), &pawns(), true);
    assert_eq!(camera.watching, Some(6));
    assert_eq!(watched(Some(0), camera), Some(6));
    camera.update_spectate(None, &pawns(), false);
    assert_eq!(camera.watching, None, "not in the game");
    assert_eq!(watched(Some(0), camera), Some(0));
    assert_eq!(watched(None, camera), None);
}

#[test]
fn names_are_shown_in_handle_order_in_the_game_alone() {
    let pawns: Vec<PlatePawn> = pawns()
        .iter()
        .map(|m| PlatePawn { handle: m.handle, team: m.team, alive: m.alive })
        .collect();
    let shown: Vec<(usize, usize)> = teammates(Scenario::Arena, Some(0), &pawns)
        .iter()
        .map(|p| (p.handle, p.place))
        .collect();
    assert_eq!(shown, vec![(2, 3), (6, 0)]);
    assert!(teammates(Scenario::Gunfire, Some(0), &pawns).is_empty());
    assert!(teammates(Scenario::Arena, None, &pawns).is_empty());
    assert!(teammates(Scenario::Arena, Some(9), &pawns).is_empty());
}
