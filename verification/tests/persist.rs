//! What is remembered.

use army_ghosts::persist::{
    autosave_record, dials_of, file_name, forced_read, is_token, match_key, mint_clock,
    mint_random, stored_match, Dials, Identity, SaveClock, IDENTITY_KEY, SAVE_EVERY,
};

#[test]
fn only_plain_tokens_are_accepted() {
    assert!(is_token("deadbeef00112233"));
    assert!(!is_token(""), "an empty token would match a missing one");
    assert!(!is_token("dead,beef"), "a comma would split the roster");
    assert!(!is_token("dead@beef"), "an at-sign would rewrite a seat");
    assert!(!is_token("../../etc/passwd"), "it is also used as a file name");
    assert!(!is_token(&"a".repeat(33)), "unbounded ids make unbounded packets");
}

#[test]
fn tokens_are_hexadecimal_in_either_case() {
    assert!(is_token("0123456789abcdefABCDEF"));
    assert!(is_token(&"f".repeat(32)));
    for c in ['g', 'G', '/', ':', '@', '`', 'é', '１'] {
        assert!(!is_token(&c.to_string()), "accepted {c:?}");
    }
}

#[test]
fn each_room_remembers_its_own_match() {
    assert_ne!(match_key(Some("abcde")), match_key(None));
    assert_ne!(match_key(Some("abcde")), match_key(Some("fghij")));
}

#[test]
fn keys_are_spelled_out() {
    assert_eq!(match_key(Some("abcde")), "army-ghosts.match.abcde");
    assert_eq!(match_key(None), "army-ghosts.offline");
    assert_ne!(match_key(Some("offline")), match_key(None));
    assert_eq!(IDENTITY_KEY, "army-ghosts.player");
}

#[test]
fn an_identity_is_remembered_or_minted() {
    let (kept, new) = Identity::load(Some("beef".into()), "0000".into(), Some("abcde"));
    assert_eq!((kept.player.as_str(), new), ("beef", false));
    assert_eq!(kept.key, "army-ghosts.match.abcde");
    let (minted, new) = Identity::load(Some("not hex".into()), "0000".into(), None);
    assert_eq!((minted.player.as_str(), new), ("0000", true));
    let (minted, new) = Identity::load(None, "1111".into(), None);
    assert_eq!((minted.player.as_str(), new), ("1111", true));
}

#[test]
fn a_forced_token_counts_only_for_the_identity() {
    assert_eq!(forced_read(IDENTITY_KEY, Some("abcd".into())), Some("abcd".to_string()));
    assert_eq!(forced_read(IDENTITY_KEY, Some(String::new())), None);
    assert_eq!(forced_read("army-ghosts.offline", Some("abcd".into())), None);
    assert_eq!(forced_read(IDENTITY_KEY, None), None);
}

#[test]
fn a_key_makes_one_file() {
    assert_eq!(file_name("army-ghosts.match.a/b\\c"), "slashed/army-ghosts.match.a%2Fb%5Cc");
    assert_eq!(file_name("50%/a"), "slashed/50%25%2Fa");
    assert_eq!(file_name("army-ghosts.match.50%"), "army-ghosts.match.50%");
    assert_eq!(file_name("army-ghosts.match.a_b"), "army-ghosts.match.a_b");
    assert_eq!(file_name("a%2Fb"), "a%2Fb");
    assert_ne!(file_name("a/b"), file_name("a%2Fb"));
    assert_eq!(file_name(IDENTITY_KEY), IDENTITY_KEY);
}

#[test]
fn a_stored_match_is_read_back() {
    let record = autosave_record("1700000000123.5", "v1\nlines\nand more", 3).expect("worth it");
    assert_eq!(record, "1700000000123.5\nv1\nlines\nand more");
    let stored = stored_match(&record).expect("a match");
    assert_eq!(stored.stamp, "1700000000123.5");
    assert_eq!(stored.blob, "v1\nlines\nand more");
    assert!(stored_match("no line break").is_none());
    assert!(autosave_record("1", "v1", 0).is_none(), "an empty world is no match");
}

#[test]
fn the_clock_writes_every_so_often() {
    let mut clock = SaveClock::default();
    let due: Vec<bool> = (0..3 * SAVE_EVERY).map(|_| clock.tick()).collect();
    for (frame, due) in due.iter().enumerate() {
        assert_eq!(*due, (frame + 1) % 20 == 0, "frame {frame}");
    }
}

#[test]
fn dials_go_down_with_the_world() {
    assert_eq!(dials_of(Some(5), Some(70)), Dials { bots: 5, aggro: 70 });
    assert_eq!(dials_of(None, None), Dials { bots: 0, aggro: 0 });
    assert_eq!(dials_of(Some(260), None).bots, 4);
}

#[test]
fn minted_tokens_are_tokens() {
    assert_eq!(mint_random(0xDEAD, 7), "0000dead00000007");
    assert_eq!(mint_random(u32::MAX, 0), "ffffffff00000000");
    assert_eq!(mint_clock(0x1234_5678_9ABC_DEF0, 0xF_BEEF), "56789abcdef0beef");
    assert_eq!(mint_clock(0, 0), "0000000000000000");
    assert!(is_token(&mint_clock(1, 2)));
}
