//! The wire, the room and the session.

use army_ghosts::menu::{Aggression, BotCount};
use army_ghosts::net::{
    answering_peer, reachable, seat_of, Lobby, GGRS_CHANNEL_BASE, LOBBY_CHANNEL,
    REJOIN_RETRY_FRAMES, SESSION_CHANNELS,
};
use army_ghosts::net::reseat;
use army_ghosts::persist::Dials;
use army_ghosts::room::Packet;
use army_ghosts::roster::{decode_seats, encode_seats, seats_from, Seat};
use army_ghosts::session::{
    adopt_pending_go, apply_dials, next_generation, serve_rejoin, Adoption, SeatKind,
};
use army_ghosts::wire::{hi_message, parse_go, parse_hi, world_in, MatchRoom, PendingGo};
use army_ghosts::MAX_PLAYERS;

fn peer(byte: u8) -> u128 {
    u128::from_be_bytes([byte; 16])
}

fn seat(player: &str, peer: Option<u128>) -> Seat {
    Seat { player: player.to_string(), peer }
}

fn seats() -> Vec<Seat> {
    vec![
        seat("aaaa1111", Some(peer(1))),
        seat("bbbb2222", None),
        seat("cccc3333", Some(peer(3))),
    ]
}

fn packet(from: u128, text: &str) -> Packet {
    Packet { from, text: text.to_string(), world_reads: true }
}

#[test]
fn a_roster_survives_the_wire() {
    let text = encode_seats(&seats());
    assert_eq!(decode_seats(&text), Some(seats()));
}

#[test]
fn a_roster_is_written_as_tokens_and_hyphenated_ids() {
    assert_eq!(
        encode_seats(&seats()),
        "aaaa1111@01010101-0101-0101-0101-010101010101,bbbb2222@-,\
         cccc3333@03030303-0303-0303-0303-030303030303"
    );
    let high = vec![seat("ff", Some(0xABCDEF0123456789_0011223344556677))];
    assert_eq!(encode_seats(&high), "ff@abcdef01-2345-6789-0011-223344556677");
    assert_eq!(encode_seats(&Vec::new()), "");
}

#[test]
fn a_full_table_survives_the_wire() {
    let full: Vec<Seat> =
        (0..MAX_PLAYERS).map(|i| seat(&format!("{i:x}"), Some(i as u128))).collect();
    assert_eq!(decode_seats(&encode_seats(&full)), Some(full));
}

#[test]
fn a_hostile_roster_is_refused() {
    for bad in [
        "",
        "no-at-sign",
        "aaaa1111@not-a-uuid",
        "aa,aa@00000000-0000-0000-0000-000000000001",
        "aa@bb@00000000-0000-0000-0000-000000000001",
        &["aaaa1111@-"; MAX_PLAYERS + 1].join(","),
    ] {
        assert!(decode_seats(bad).is_none(), "accepted a bad roster: {bad:?}");
    }
}

#[test]
fn a_roster_is_what_its_ids_read_as() {
    let text = "aa@one,bb@-,cc@three";
    let read = seats_from(text, &vec![Some(1), None, Some(3)]);
    assert_eq!(read, Some(vec![seat("aa", Some(1)), seat("bb", None), seat("cc", Some(3))]));
    assert_eq!(seats_from(text, &vec![Some(1), Some(9), None]), None, "an id that does not read");
    assert_eq!(seats_from("aa@-", &vec![Some(7)]), Some(vec![seat("aa", None)]));
    assert_eq!(seats_from("", &vec![None]), None);
}

#[test]
fn ids_are_read_in_every_spelling() {
    let id = Some(0x0102030405060708_090a0b0c0d0e0f10);
    for spelled in [
        "01020304-0506-0708-090a-0b0c0d0e0f10",
        "0102030405060708090A0B0C0D0E0F10",
        "{01020304-0506-0708-090a-0b0c0d0e0f10}",
        "urn:uuid:01020304-0506-0708-090a-0b0c0d0e0f10",
    ] {
        assert_eq!(decode_seats(&format!("aa@{spelled}")), Some(vec![seat("aa", id)]));
    }
}

#[test]
fn an_introduction_says_whether_a_match_is_running() {
    let lobby = parse_hi("aaaa1111:-:-").expect("a peer in the lobby");
    assert_eq!(lobby.0, "aaaa1111");
    assert_eq!(lobby.1, None, "a lobby peer must not look like a match");

    let playing =
        parse_hi(&format!("aaaa1111:4:{}", encode_seats(&seats()))).expect("a peer in a match");
    assert_eq!(playing.1, Some((4, seats())));

    for bad in [
        "",
        "aaaa1111",
        "aaaa1111:4",
        "aaaa1111:4:garbage",
        "not-a-token:-:-",
        "aaaa1111:x:aaaa1111@-",
    ] {
        assert!(parse_hi(bad).is_none(), "accepted a bad hi: {bad:?}");
    }
}

#[test]
fn an_introduction_reads_back_as_it_was_meant() {
    let room = MatchRoom { generation: 4, seats: seats(), me: 0 };
    let busy = hi_message("aaaa1111", Some(&room));
    let rest = busy.strip_prefix("hi:").expect("the tag");
    assert_eq!(parse_hi(rest), Some(("aaaa1111".to_string(), Some((4, seats())))));
    let idle = hi_message("aaaa1111", None);
    assert_eq!(idle, "hi:aaaa1111:-:-");
}

#[test]
fn a_go_message_carries_a_generation_and_maybe_a_world() {
    let cold = format!("0:{}|", encode_seats(&seats()));
    let go = parse_go(&cold).expect("cold start");
    assert_eq!(go.generation, 0);
    assert_eq!(go.seats, seats());
    assert!(go.world.is_none(), "a cold start has no world in it");

    let warm = format!("3:{}|{}", encode_seats(&seats()), "v1|2,5|a:b");
    let go = parse_go(&warm).expect("resume");
    assert_eq!(go.generation, 3);
    assert_eq!(go.world.as_deref(), Some("v1|2,5|a:b"));

    for bad in ["", "0", "x:aaaa1111@-|", &format!("0:{}", encode_seats(&seats()))] {
        assert!(parse_go(bad).is_none(), "accepted a bad go: {bad:?}");
    }
}

#[test]
fn a_blank_world_is_no_world() {
    let go = parse_go(&format!("1:{}| \t\u{a0}\n", encode_seats(&seats()))).expect("a start");
    assert!(go.world.is_none());
    assert_eq!(world_in(&format!("go:1:{}|w", encode_seats(&seats()))).as_deref(), Some("w"));
    assert_eq!(world_in("hi:aaaa1111:-:-"), None);
    assert_eq!(world_in("go:nonsense"), None);
}

#[test]
fn generations_read_like_any_whole_number() {
    let body = |generation: &str| parse_go(&format!("{generation}:aa@-|"));
    assert_eq!(body("+7").expect("a plus sign is fine").generation, 7);
    assert_eq!(body("007").expect("leading zeros are fine").generation, 7);
    assert_eq!(body("4294967295").expect("the largest").generation, u32::MAX);
    assert!(body("4294967296").is_none(), "one more does not fit");
    assert!(body("-1").is_none());
    assert!(body("+").is_none());
    assert!(body(" 1").is_none());
}

#[test]
fn reseating_keeps_every_handle_where_it_was() {
    let room = MatchRoom { generation: 1, seats: seats(), me: 0 };
    let lobby = Lobby { my_id: Some(peer(1)), ids: vec![peer(1), peer(9)], ..Lobby::default() };
    let next = reseat(&room, &lobby, "bbbb2222", peer(9));

    assert_eq!(next.len(), room.seats.len(), "a handle moved");
    let players: Vec<&str> = next.iter().map(|s| s.player.as_str()).collect();
    assert_eq!(players, vec!["aaaa1111", "bbbb2222", "cccc3333"]);
    assert_eq!(next[0].peer, Some(peer(1)), "the peer still here lost its seat");
    assert_eq!(next[1].peer, Some(peer(9)), "the returning player is not back");
    assert_eq!(next[2].peer, None, "the peer that left should be vacated, not removed");
}

#[test]
fn only_one_peer_answers_a_rejoin() {
    let mut room = MatchRoom { generation: 1, seats: seats(), me: 0 };
    let lobby = Lobby { my_id: Some(peer(3)), ids: vec![peer(3)], ..Lobby::default() };
    assert_eq!(answering_peer(&room, &lobby), Some(2));

    room.seats[0].peer = Some(peer(3));
    assert_eq!(answering_peer(&room, &lobby), Some(0), "the earliest present seat answers");

    for seat in &mut room.seats {
        seat.peer = None;
    }
    assert_eq!(answering_peer(&room, &lobby), None, "an empty room answers nothing");
}

#[test]
fn every_generation_has_a_channel() {
    for generation in 0..SESSION_CHANNELS {
        let index = GGRS_CHANNEL_BASE + generation;
        assert!(index > LOBBY_CHANNEL, "generation {generation} collides with the lobby");
        assert!(
            index < GGRS_CHANNEL_BASE + SESSION_CHANNELS,
            "generation {generation} has no channel"
        );
    }
}

#[test]
fn seats_are_found_and_vacancies_seen() {
    let room = MatchRoom { generation: 0, seats: seats(), me: 2 };
    assert_eq!(seat_of(&room, "cccc3333"), Some(2));
    assert_eq!(seat_of(&room, "dddd"), None);
    assert!(!room.vacant(0));
    assert!(room.vacant(1));
    assert!(!room.vacant(9), "a handle beyond the seats is nobody's vacancy");
    assert_eq!(room.dial_holder(), Some(0));
    let shifted = MatchRoom { seats: vec![seat("a", None), seat("b", Some(1))], ..room };
    assert_eq!(shifted.dial_holder(), Some(1));
    let empty = MatchRoom { generation: 0, seats: vec![seat("a", None)], me: 0 };
    assert_eq!(empty.dial_holder(), None);
}

#[test]
fn looking_round_the_room_orders_greets_and_forgets() {
    let mut lobby = Lobby {
        names: vec![(peer(2), "22".to_string()), (peer(7), "77".to_string())],
        heard: vec![peer(2), peer(7)],
        ..Lobby::default()
    };
    let hi = lobby.meet(peer(5), &vec![peer(9), peer(2)], &vec![peer(7)], "55", None);
    assert_eq!(lobby.ids, vec![peer(2), peer(5), peer(9)]);
    assert_eq!(lobby.my_id, Some(peer(5)));
    assert!(!lobby.is_host);
    assert_eq!(lobby.heard, vec![peer(2)]);
    assert_eq!(lobby.names, vec![(peer(2), "22".to_string()), (peer(5), "55".to_string())]);
    assert_eq!(hi.text, "hi:55:-:-");
    assert_eq!(hi.to, vec![peer(2), peer(9)]);

    let again = lobby.meet(peer(5), &vec![peer(9), peer(2)], &vec![], "55", None);
    assert!(again.to.is_empty(), "nobody is greeted twice");

    let room = MatchRoom { generation: 0, seats: vec![seat("55", Some(peer(5)))], me: 0 };
    let busy = lobby.meet(peer(5), &vec![peer(9), peer(2)], &vec![], "55", Some(&room));
    assert_eq!(busy.to, vec![peer(2), peer(9)], "a match is news to everybody");
    assert_eq!(lobby.greeted_at, Some(0));
    assert_eq!(lobby.name_of(peer(2)), Some("22"));
    assert_eq!(lobby.name_of(peer(9)), None);
}

#[test]
fn the_lowest_peer_hosts() {
    let mut lobby = Lobby::default();
    lobby.meet(peer(1), &vec![peer(4), peer(3)], &vec![], "aa", None);
    assert!(lobby.is_host);
}

#[test]
fn a_stale_start_changes_nothing() {
    let room = MatchRoom { generation: 3, seats: seats(), me: 0 };
    let mut lobby = Lobby::default();
    let old = vec![packet(peer(3), "go:3:aa@-|"), packet(peer(3), "go:2:aa@-|")];
    let news = lobby.hear(&old, "aaaa1111", Some(&room), false, None);
    assert!(news.go.is_none());
    assert!(lobby.roster.is_none());
    assert_eq!(lobby.heard, vec![peer(3)], "its sender was heard all the same");

    let fresh = vec![packet(peer(3), "go:4:aa@-|")];
    let news = lobby.hear(&fresh, "aaaa1111", Some(&room), false, Some(4));
    assert!(news.go.is_none(), "the start being acted on is not taken up again");
    let news = lobby.hear(&fresh, "aaaa1111", Some(&room), false, None);
    assert_eq!(news.go.map(|go| go.generation), Some(4));
    assert_eq!(lobby.roster, Some(vec![seat("aa", None)]));
}

#[test]
fn a_start_whose_world_is_garbled_is_dropped() {
    let mut lobby = Lobby::default();
    let bad =
        vec![Packet { from: peer(3), text: "go:0:aa@-|w".to_string(), world_reads: false }];
    assert!(lobby.hear(&bad, "aa", None, false, None).go.is_none());
    let cold = vec![Packet { from: peer(3), text: "go:0:aa@-|".to_string(), world_reads: false }];
    assert!(lobby.hear(&cold, "aa", None, false, None).go.is_some());
}

#[test]
fn whoever_lost_their_seat_gets_it_back_from_the_first_who_is_there() {
    let room = MatchRoom { generation: 1, seats: seats(), me: 0 };
    let mut lobby = Lobby { my_id: Some(peer(1)), ids: vec![peer(1)], ..Lobby::default() };
    let knock = vec![packet(peer(9), "hi:bbbb2222:-:-")];
    let news = lobby.hear(&knock, "aaaa1111", Some(&room), false, None);
    let next = news.rejoin.expect("it is ours to answer");
    assert_eq!(next[1], seat("bbbb2222", Some(peer(9))));
    assert_eq!(next[2].peer, None, "nobody has heard of the third");
    assert_eq!(lobby.name_of(peer(9)), Some("bbbb2222"));

    let third = MatchRoom { generation: 1, seats: seats(), me: 2 };
    let mut elsewhere = Lobby { my_id: Some(peer(3)), ids: vec![peer(1), peer(3)], ..Lobby::default() };
    let news = elsewhere.hear(&knock, "cccc3333", Some(&third), false, None);
    assert!(news.rejoin.is_none(), "the first seat answers, not the third");

    let news = lobby.hear(&knock, "aaaa1111", Some(&room), true, None);
    assert!(news.rejoin.is_none(), "a session is being built already");
}

#[test]
fn an_explicit_request_outranks_an_introduction() {
    let room = MatchRoom {
        generation: 1,
        seats: vec![seat("aa", Some(peer(1))), seat("bb", None), seat("cc", None)],
        me: 0,
    };
    let mut lobby = Lobby { my_id: Some(peer(1)), ids: vec![peer(1)], ..Lobby::default() };
    let both = vec![packet(peer(8), "hi:bb:-:-"), packet(peer(9), "rejoin:cc")];
    let next = lobby.hear(&both, "aa", Some(&room), false, None).rejoin.expect("an answer");
    assert_eq!(next[2].peer, Some(peer(9)));
    assert_eq!(next[1].peer, None);
    let stranger = vec![packet(peer(9), "rejoin:dd")];
    assert!(lobby.hear(&stranger, "aa", Some(&room), false, None).rejoin.is_none());
}

#[test]
fn a_returning_player_asks_again_every_so_often() {
    let mut lobby = Lobby { my_id: Some(peer(2)), ids: vec![peer(1), peer(2)], ..Lobby::default() };
    let running = vec![packet(peer(1), &format!("hi:aaaa1111:4:{}", encode_seats(&seats())))];
    let news = lobby.hear(&running, "bbbb2222", None, false, None);
    assert!(lobby.returning);
    assert_eq!(lobby.away, Some((4, seats())));
    let ask = news.ask.expect("asks at once");
    assert_eq!(ask.text, "rejoin:bbbb2222");
    assert_eq!(ask.to, vec![peer(1)], "only whom it can reach");
    for frame in 1..REJOIN_RETRY_FRAMES {
        let news = lobby.hear(&vec![], "bbbb2222", None, false, None);
        assert!(news.ask.is_none(), "asked again after {frame} frames");
    }
    assert!(lobby.hear(&vec![], "bbbb2222", None, false, None).ask.is_some());
    assert!(lobby.hear(&vec![], "bbbb2222", None, true, None).ask.is_none());
}

#[test]
fn only_the_one_who_answers_is_asked() {
    let three = vec![
        seat("aaaa1111", None),
        seat("bbbb2222", Some(peer(2))),
        seat("cccc3333", Some(peer(3))),
    ];
    let mut lobby = Lobby {
        my_id: Some(peer(9)),
        ids: vec![peer(2), peer(3), peer(9)],
        away: Some((4, three)),
        returning: true,
        ..Lobby::default()
    };
    let ask = lobby.hear(&vec![], "aaaa1111", None, false, None).ask.expect("asks at once");
    assert_eq!(ask.to, vec![peer(2)]);
    assert_eq!(lobby.retry, REJOIN_RETRY_FRAMES);

    lobby.retry = 0;
    lobby.ids = vec![peer(9)];
    let ask = lobby.hear(&vec![], "aaaa1111", None, false, None).ask.expect("asks again");
    assert!(ask.to.is_empty(), "nobody can be reached");
}

#[test]
fn junk_is_heard_and_ignored() {
    let mut lobby = Lobby::default();
    let junk = vec![packet(peer(4), "hello"), packet(peer(4), "hi:x"), packet(peer(5), "go:?")];
    let news = lobby.hear(&junk, "aa", None, false, None);
    assert!(news.go.is_none() && news.rejoin.is_none() && news.ask.is_none());
    assert_eq!(lobby.heard, vec![peer(4), peer(5)]);
    assert!(lobby.names.is_empty());
    assert!(reachable(&lobby, peer(4)));
    assert!(!reachable(&lobby, peer(6)));
}

fn ready_host() -> Lobby {
    Lobby {
        ids: vec![peer(1), peer(2), peer(3)],
        my_id: Some(peer(1)),
        is_host: true,
        names: vec![
            (peer(1), "aa".to_string()),
            (peer(2), "bb".to_string()),
            (peer(3), "cc".to_string()),
        ],
        ..Lobby::default()
    }
}

#[test]
fn the_host_starts_when_asked_or_when_the_seats_are_taken() {
    let mut lobby = ready_host();
    assert!(lobby.run_lobby("aa", 8, true, false, false).is_none(), "nobody asked");
    lobby.start_requested = true;
    let (go, letter) = lobby.run_lobby("aa", 8, true, false, false).expect("a start");
    assert_eq!(go.generation, 0);
    assert_eq!(go.seats.len(), 3);
    assert!(go.world.is_none());
    assert_eq!(letter.text, format!("go:0:{}|", encode_seats(&go.seats)));
    assert_eq!(letter.to, vec![peer(2), peer(3)]);
    assert_eq!(lobby.roster, Some(go.seats));

    let (go, letter) = ready_host().run_lobby("aa", 2, true, false, false).expect("the cap");
    assert_eq!(go.seats.len(), 2, "the third has no seat");
    assert_eq!(letter.to, vec![peer(2)]);
}

#[test]
fn nothing_starts_a_second_match() {
    let asked = || Lobby { start_requested: true, ..ready_host() };
    assert!(asked().run_lobby("aa", 8, false, false, false).is_none(), "no socket");
    assert!(asked().run_lobby("aa", 8, true, true, false).is_none(), "joining");
    assert!(asked().run_lobby("aa", 8, true, false, true).is_none(), "going");
    let mut lobby = Lobby { away: Some((1, seats())), ..asked() };
    assert!(lobby.run_lobby("aa", 8, true, false, false).is_none(), "a match is on");
    assert!(!lobby.start_requested, "the request is used up");
    let mut lobby = Lobby { roster: Some(seats()), ..asked() };
    assert!(lobby.run_lobby("aa", 8, true, false, false).is_none(), "already starting");
    let mut lobby = Lobby { is_host: false, ..asked() };
    assert!(lobby.run_lobby("aa", 8, true, false, false).is_none(), "not the host");
    let mut lobby = Lobby { ids: vec![peer(1)], ..asked() };
    assert!(lobby.run_lobby("aa", 8, true, false, false).is_none(), "alone");
    let mut lobby = Lobby { names: vec![(peer(1), "aa".to_string())], ..asked() };
    assert!(lobby.run_lobby("aa", 8, true, false, false).is_none(), "who is that?");
    assert!(asked().run_lobby("dd", 8, true, false, false).is_none(), "no seat for us");
}

#[test]
fn a_rejoin_is_served_while_channels_last() {
    assert_eq!(next_generation(0), Some(1));
    assert_eq!(next_generation(6), Some(7));
    assert_eq!(next_generation(7), None);
    let (go, letter) = serve_rejoin(2, seats(), Some(peer(1)), "world");
    assert_eq!(go.generation, 2);
    assert_eq!(go.world.as_deref(), Some("world"));
    assert_eq!(letter.to, vec![peer(3)], "not to ourselves, and not to nobody");
    let read = parse_go(letter.text.strip_prefix("go:").expect("the tag")).expect("a start");
    assert_eq!(read.seats, go.seats);
    assert_eq!(read.world.as_deref(), Some("world"));
}

#[test]
fn a_start_waits_for_everybody_and_then_makes_a_session() {
    let going = PendingGo { generation: 2, seats: seats(), world: Some("w".to_string()) };
    let nowhere = Lobby::default();
    assert!(matches!(adopt_pending_go(&going, &nowhere, "aaaa1111"), Adoption::Unconnected));

    let alone = Lobby { my_id: Some(peer(1)), ids: vec![peer(1)], ..Lobby::default() };
    assert!(matches!(adopt_pending_go(&going, &alone, "dddd"), Adoption::NoSeat));
    match adopt_pending_go(&going, &alone, "aaaa1111") {
        Adoption::Waiting(missing) => assert_eq!(missing, vec![peer(3)]),
        other => panic!("did not wait: {other:?}"),
    }

    let together = Lobby { heard: vec![peer(3)], ..alone };
    match adopt_pending_go(&going, &together, "aaaa1111") {
        Adoption::Ready(session) => {
            assert_eq!(session.channel, 3);
            assert_eq!(
                session.players,
                vec![SeatKind::Local, SeatKind::Local, SeatKind::Remote(peer(3))]
            );
            assert_eq!(session.world.as_deref(), Some("w"));
            assert_eq!(session.room.generation, 2);
            assert_eq!(session.room.me, 0);
            assert_eq!(session.room.seats, seats());
        }
        other => panic!("not ready: {other:?}"),
    }

    let beyond = PendingGo { generation: 8, seats: seats(), world: None };
    assert!(matches!(adopt_pending_go(&beyond, &together, "aaaa1111"), Adoption::NoChannel));
}

#[test]
fn a_stored_match_sets_the_dials() {
    let (mut bots, mut aggro) = (BotCount(1), Aggression(4));
    apply_dials(Dials { bots: 5, aggro: 0 }, &mut bots, &mut aggro);
    assert_eq!((bots, aggro), (BotCount(5), Aggression(4)));
    apply_dials(Dials { bots: 200, aggro: 9 }, &mut bots, &mut aggro);
    assert_eq!((bots, aggro), (BotCount(MAX_PLAYERS), Aggression(9)));
}
