//! What a client remembers from one start to the next: who it is, and the
//! match it was in.

use vstd::prelude::*;

use crate::peer;
use crate::text;

verus! {

/// Frames between writes: three times a second.
pub const SAVE_EVERY: u32 = 20;

/// Where the token is kept.
pub const IDENTITY_KEY: &'static str = "army-ghosts.player";

/// Whether a character is a hexadecimal digit, in either case.
pub open spec fn is_hex(c: char) -> bool {
    let n = c as u32;
    48 <= n <= 57 || 65 <= n <= 70 || 97 <= n <= 102
}

/// Whether a text can be a player's token: one to 32 hexadecimal digits.
pub open spec fn token(s: Seq<char>) -> bool {
    &&& 0 < s.len() <= 32
    &&& forall|i: int| 0 <= i < s.len() ==> is_hex(#[trigger] s[i])
}

/// No token holds a character that means something in a message or in a file's
/// name, so none can rewrite what it travels in.
pub proof fn a_token_holds_no_separator(s: Seq<char>, c: char)
    requires
        token(s),
        !is_hex(c),
    ensures
        text::free_of(s, c),
{
}

/// Whether the characters make a token.
pub fn token_chars(s: &Vec<char>) -> (yes: bool)
    ensures
        yes == token(s@),
{
    if s.len() == 0 || s.len() > 32 {
        return false;
    }
    let mut i: usize = 0;
    while i < s.len()
        invariant
            i <= s.len(),
            forall|j: int| 0 <= j < i ==> is_hex(#[trigger] s@[j]),
        decreases s.len() - i,
    {
        let n: u32 = s[i] as u32;
        if !((48 <= n && n <= 57) || (65 <= n && n <= 70) || (97 <= n && n <= 102)) {
            assert(!is_hex(s@[i as int]));
            return false;
        }
        i = i + 1;
    }
    true
}

/// Tokens travel in messages that commas, colons and at-signs cut up, so they
/// are held to hexadecimal digits wherever they come from.
pub fn is_token(candidate: &str) -> (yes: bool)
    ensures
        yes == token(candidate@),
{
    let chars = text::chars_of(candidate);
    token_chars(&chars)
}

/// Where a room's match is kept: each room has its own, and so has the game
/// without a room.
pub open spec fn match_key_text(room: Option<Seq<char>>) -> Seq<char> {
    match room {
        Some(name) => "army-ghosts.match."@ + name,
        None => "army-ghosts.offline"@,
    }
}

pub fn match_key(room: Option<&str>) -> (key: String)
    ensures
        key@ == match_key_text(
            match room {
                Some(name) => Some(name@),
                None => None,
            },
        ),
{
    match room {
        Some(name) => {
            let mut key: String = text::copy_of("army-ghosts.match.");
            key.append(name);
            key
        },
        None => text::copy_of("army-ghosts.offline"),
    }
}

/// Two rooms never share a stored match.
pub proof fn each_room_has_its_own_match(a: Seq<char>, b: Seq<char>)
    requires
        a != b,
    ensures
        match_key_text(Some(a)) != match_key_text(Some(b)),
{
    let head = "army-ghosts.match."@;
    text::lemma_after(head, a);
    text::lemma_after(head, b);
}

/// The game without a room shares its stored match with no room.
pub proof fn the_solo_match_is_kept_apart(room: Seq<char>)
    ensures
        match_key_text(Some(room)) != match_key_text(None),
{
    reveal_strlit("army-ghosts.match.");
    reveal_strlit("army-ghosts.offline");
    assert(match_key_text(Some(room))[12] == 'm');
    assert(match_key_text(None)[12] == 'o');
}

/// No match is stored where the player's token is.
pub proof fn the_token_is_kept_apart(room: Option<Seq<char>>)
    ensures
        match_key_text(room) != IDENTITY_KEY@,
{
    reveal_strlit("army-ghosts.match.");
    reveal_strlit("army-ghosts.offline");
    reveal_strlit("army-ghosts.player");
    assert(IDENTITY_KEY@[12] == 'p');
    match room {
        Some(name) => assert(match_key_text(room)[12] == 'm'),
        None => assert(match_key_text(room)[12] == 'o'),
    }
}

/// Who is playing here, and where their match is kept.
#[derive(Debug)]
pub struct Identity {
    pub player: String,
    pub key: String,
}

impl Identity {
    /// The remembered token, where it is one, and else the minted one. The
    /// second result says whether the token is new and has to be written down.
    pub fn load(remembered: Option<String>, minted: String, room: Option<&str>) -> (out: (
        Identity,
        bool,
    ))
        ensures
            out.1 == !(remembered matches Some(kept) && token(kept@)),
            out.0.player@ == (match remembered {
                Some(kept) => if token(kept@) {
                    kept@
                } else {
                    minted@
                },
                None => minted@,
            }),
            out.0.key@ == match_key_text(
                match room {
                    Some(name) => Some(name@),
                    None => None,
                },
            ),
    {
        let key = match_key(room);
        match remembered {
            Some(kept) => {
                if is_token(kept.as_str()) {
                    (Identity { player: kept, key }, false)
                } else {
                    (Identity { player: minted, key }, true)
                }
            },
            None => (Identity { player: minted, key }, true),
        }
    }
}

/// Which text counts as the remembered one where the environment forces a
/// token: the forced one, but only under the token's own key and only where it
/// is not empty.
pub fn forced_read(key: &str, forced: Option<String>) -> (out: Option<String>)
    ensures
        match forced {
            Some(name) => if key@ == IDENTITY_KEY@ && name@.len() > 0 {
                out matches Some(got) && got@ == name@
            } else {
                out is None
            },
            None => out is None,
        },
{
    match forced {
        Some(name) => {
            if text::same_str(key, IDENTITY_KEY) && !name.as_str().is_empty() {
                Some(name)
            } else {
                None
            }
        },
        None => None,
    }
}

/// The directory for keys whose own name would make directories.
pub const SLASHED: &'static str = "slashed/";

/// Whether a key's own name would make directories.
pub open spec fn has_slash(key: Seq<char>) -> bool {
    !text::free_of(key, '/') || !text::free_of(key, '\\')
}

/// A character without its slash: slashes, and the sign that marks their place, are
/// spelled out in hexadecimal.
pub open spec fn spelled(c: char) -> Seq<char> {
    if c == '/' {
        seq!['%', '2', 'F']
    } else if c == '\\' {
        seq!['%', '5', 'C']
    } else if c == '%' {
        seq!['%', '2', '5']
    } else {
        seq![c]
    }
}

/// A key with every character spelled without a slash.
pub open spec fn spelled_out(key: Seq<char>) -> Seq<char>
    decreases key.len(),
{
    if key.len() == 0 {
        Seq::empty()
    } else {
        spelled_out(key.drop_last()) + spelled(key.last())
    }
}

/// The file that a key is kept in: one of the key's own name, or, where that would
/// make directories, one in the directory for such keys.
pub open spec fn file_name_text(key: Seq<char>) -> Seq<char> {
    if has_slash(key) {
        SLASHED@ + spelled_out(key)
    } else {
        key
    }
}

fn spell_out(chars: &Vec<char>) -> (out: String)
    ensures
        out@ == spelled_out(chars@),
{
    let mut out: String = String::new();
    let mut i: usize = 0;
    assert(chars@.take(0) =~= Seq::empty());
    while i < chars.len()
        invariant
            i <= chars.len(),
            out@ == spelled_out(chars@.take(i as int)),
        decreases chars.len() - i,
    {
        let ghost before = out@;
        let c = chars[i];
        if c == '/' {
            out.push('%');
            out.push('2');
            out.push('F');
        } else if c == '\\' {
            out.push('%');
            out.push('5');
            out.push('C');
        } else if c == '%' {
            out.push('%');
            out.push('2');
            out.push('5');
        } else {
            out.push(c);
        }
        proof {
            assert(out@ =~= before + spelled(c));
            assert(chars@.take(i + 1).drop_last() =~= chars@.take(i as int));
            assert(chars@.take(i + 1).last() == c);
        }
        i = i + 1;
    }
    assert(chars@.take(i as int) =~= chars@);
    out
}

pub fn file_name(key: &str) -> (out: String)
    ensures
        out@ == file_name_text(key@),
{
    let chars = text::chars_of(key);
    let mut i: usize = 0;
    while i < chars.len()
        invariant
            i <= chars.len(),
            chars@ == key@,
            forall|k: int| 0 <= k < i ==> chars@[k] != '/' && chars@[k] != '\\',
        decreases chars.len() - i,
    {
        if chars[i] == '/' || chars[i] == '\\' {
            assert(key@[i as int] == '/' || key@[i as int] == '\\');
            let mut out: String = text::copy_of(SLASHED);
            let name = spell_out(&chars);
            out.append(name.as_str());
            return out;
        }
        i = i + 1;
    }
    text::copy_of(key)
}

/// A name that is spelled out makes no directory.
pub proof fn a_name_spelled_out_has_no_slash(key: Seq<char>)
    ensures
        !has_slash(spelled_out(key)),
    decreases key.len(),
{
    if key.len() > 0 {
        a_name_spelled_out_has_no_slash(key.drop_last());
    }
}

proof fn lemma_first_spelled(key: Seq<char>)
    requires
        key.len() > 0,
    ensures
        spelled_out(key) == spelled(key[0]) + spelled_out(key.drop_first()),
    decreases key.len(),
{
    let init = key.drop_last();
    if key.len() == 1 {
        assert(init =~= Seq::empty());
        assert(key.drop_first() =~= Seq::empty());
        assert(spelled_out(key) =~= spelled(key[0]) + spelled_out(key.drop_first()));
    } else {
        lemma_first_spelled(init);
        let rest = key.drop_first();
        assert(rest.drop_last() =~= init.drop_first());
        assert(rest.last() == key.last());
        assert(spelled_out(key) =~= spelled(key[0]) + spelled_out(rest));
    }
}

proof fn lemma_spelled_apart(a: Seq<char>, b: Seq<char>)
    requires
        a != b,
    ensures
        spelled_out(a) != spelled_out(b),
    decreases a.len(),
{
    if a.len() > 0 {
        lemma_first_spelled(a);
    }
    if b.len() > 0 {
        lemma_first_spelled(b);
    }
    if a.len() == 0 || b.len() == 0 {
        assert(a.len() != b.len()) by {
            if a.len() == b.len() {
                assert(a =~= b);
            }
        }
    } else if spelled_out(a) == spelled_out(b) {
        let name = spelled_out(a);
        let x = spelled(a[0]);
        let y = spelled(b[0]);
        assert(name[0] == x[0] && name[0] == y[0]);
        if x.len() == 3 && y.len() == 3 {
            assert(name[1] == x[1] && name[1] == y[1]);
            assert(name[2] == x[2] && name[2] == y[2]);
        }
        assert(a[0] == b[0]);
        assert(name.skip(x.len() as int) =~= spelled_out(a.drop_first()));
        assert(name.skip(x.len() as int) =~= spelled_out(b.drop_first()));
        if a.drop_first() == b.drop_first() {
            assert(a =~= seq![a[0]] + a.drop_first());
            assert(b =~= seq![b[0]] + b.drop_first());
        }
        lemma_spelled_apart(a.drop_first(), b.drop_first());
    }
}

/// Two keys are never kept in one file.
pub proof fn each_key_has_its_own_file(a: Seq<char>, b: Seq<char>)
    requires
        a != b,
    ensures
        file_name_text(a) != file_name_text(b),
{
    reveal_strlit("slashed/");
    lemma_spelled_apart(a, b);
    text::lemma_after(SLASHED@, spelled_out(a));
    text::lemma_after(SLASHED@, spelled_out(b));
    assert((SLASHED@ + spelled_out(a))[7] == '/');
    assert((SLASHED@ + spelled_out(b))[7] == '/');
}

// ---------------------------------------------------------------------------
// The stored match.
// ---------------------------------------------------------------------------

/// A stored match as it lies in storage: when it was written, and the world.
pub struct StoredText {
    pub stamp: String,
    pub blob: String,
}

/// A match as it is written: the time, a line break, and the world.
pub open spec fn stored_text(stamp: Seq<char>, blob: Seq<char>) -> Seq<char> {
    stamp + seq!['\n'] + blob
}

/// What to write for a match, if it is worth writing: a world without pawns is
/// no match to come back to.
pub fn autosave_record(stamp: &str, blob: &str, pawns: usize) -> (out: Option<String>)
    ensures
        match out {
            Some(record) => pawns > 0 && record@ == stored_text(stamp@, blob@),
            None => pawns == 0,
        },
{
    if pawns == 0 {
        return None;
    }
    let mut record: String = text::copy_of(stamp);
    record.push('\n');
    record.append(blob);
    assert(record@ =~= stored_text(stamp@, blob@));
    Some(record)
}

/// Takes a stored match apart at its first line break.
pub fn stored_match(raw: &str) -> (out: Option<StoredText>)
    ensures
        match out {
            Some(stored) => text::cut(raw@, '\n') == Some((stored.stamp@, stored.blob@)),
            None => text::cut(raw@, '\n') is None,
        },
{
    let chars = text::chars_of(raw);
    match text::split_once(&chars, '\n') {
        Some(halves) => Some(
            StoredText { stamp: text::string_of(&halves.0), blob: text::string_of(&halves.1) },
        ),
        None => None,
    }
}

/// A match that was written is read back as it was, whatever the world's text
/// holds.
pub proof fn a_stored_match_reads_back(stamp: Seq<char>, blob: Seq<char>)
    requires
        text::free_of(stamp, '\n'),
    ensures
        text::cut(stored_text(stamp, blob), '\n') == Some((stamp, blob)),
{
    text::lemma_cut_at(stamp, '\n', blob);
}

/// Counts the frames up to the next write.
#[derive(Clone, Copy, Debug, PartialEq, Eq)]
pub struct SaveClock {
    pub frames: u32,
}

impl Default for SaveClock {
    fn default() -> (out: Self)
        ensures
            out.frames == 0,
            out.wf(),
    {
        SaveClock { frames: 0 }
    }
}

impl SaveClock {
    pub open spec fn wf(self) -> bool {
        self.frames < SAVE_EVERY
    }

    /// One more frame. Says whether this is one to write on.
    pub fn tick(&mut self) -> (due: bool)
        requires
            old(self).wf(),
        ensures
            final(self).wf(),
            final(self).frames == (old(self).frames + 1) % SAVE_EVERY as int,
            due == (final(self).frames == 0),
    {
        self.frames = self.frames + 1;
        if self.frames < SAVE_EVERY {
            return false;
        }
        self.frames = 0;
        true
    }
}

/// Where a clock stands after `n` more frames.
pub open spec fn ticked(frames: nat, n: nat) -> nat
    decreases n,
{
    if n == 0 {
        frames
    } else {
        (ticked(frames, (n - 1) as nat) + 1) % (SAVE_EVERY as nat)
    }
}

/// A fresh clock falls due on every [`SAVE_EVERY`]th frame and on no other.
pub proof fn a_write_falls_due_every_so_often(n: nat)
    ensures
        ticked(0, n) == n % (SAVE_EVERY as nat),
    decreases n,
{
    if n > 0 {
        a_write_falls_due_every_so_often((n - 1) as nat);
    }
}

/// What a client's dials read.
#[derive(Clone, Copy, Debug, PartialEq, Eq, Structural)]
pub struct Dials {
    pub bots: u8,
    pub aggro: u32,
}

/// The dials as they go down with the world. A bot dial beyond a byte keeps its
/// low eight bits.
pub fn dials_of(bots: Option<usize>, aggro: Option<u32>) -> (out: Dials)
    ensures
        out.bots == (match bots {
            Some(n) => n as int % 256,
            None => 0,
        }),
        out.aggro == (match aggro {
            Some(n) => n,
            None => 0,
        }),
{
    let low: usize = match bots {
        Some(n) => n % 256,
        None => 0,
    };
    let level: u32 = match aggro {
        Some(n) => n,
        None => 0,
    };
    Dials { bots: low as u8, aggro: level }
}

// ---------------------------------------------------------------------------
// Minting tokens.
// ---------------------------------------------------------------------------

/// A number in lower-case hexadecimal, without leading zeros.
pub open spec fn hex(n: nat) -> Seq<char>
    decreases n,
{
    if n < 16 {
        seq![peer::hex_digit(n)]
    } else {
        hex(n / 16).push(peer::hex_digit(n % 16))
    }
}

/// Sixteen to the power `k`.
pub open spec fn hex_range(k: nat) -> nat
    decreases k,
{
    if k == 0 {
        1
    } else {
        16 * hex_range((k - 1) as nat)
    }
}

pub proof fn lemma_hex(n: nat, k: nat)
    requires
        k >= 1,
        n < hex_range(k),
    ensures
        1 <= hex(n).len() <= k,
        forall|i: int| 0 <= i < hex(n).len() ==> is_hex(#[trigger] hex(n)[i]),
    decreases k,
{
    reveal_with_fuel(hex_range, 2);
    if n >= 16 {
        assert(n / 16 < hex_range((k - 1) as nat)) by (nonlinear_arith)
            requires
                n < 16 * hex_range((k - 1) as nat),
        ;
        lemma_hex(n / 16, (k - 1) as nat);
    }
}

fn hex_chars(n: u64) -> (out: Vec<char>)
    ensures
        out@ == hex(n as nat),
    decreases n,
{
    let d: u8 = (n % 16) as u8;
    let last: u8 = if d < 10 {
        48 + d
    } else {
        87 + d
    };
    let mut out: Vec<char> = Vec::new();
    if n >= 16 {
        out = hex_chars(n / 16);
    }
    out.push(last as char);
    out
}

/// Two numbers in hexadecimal, each brought up to a width with leading zeros.
pub open spec fn minted_text(a: nat, wide_a: nat, b: nat, wide_b: nat) -> Seq<char> {
    text::right_in(hex(a), '0', wide_a) + text::right_in(hex(b), '0', wide_b)
}

fn minted(a: u64, wide_a: usize, b: u64, wide_b: usize) -> (out: String)
    ensures
        out@ == minted_text(a as nat, wide_a as nat, b as nat, wide_b as nat),
{
    let left = hex_chars(a);
    let right = hex_chars(b);
    let mut all: Vec<char> = text::pad_left(&left, '0', wide_a);
    let mut tail: Vec<char> = text::pad_left(&right, '0', wide_b);
    all.append(&mut tail);
    text::string_of(&all)
}

proof fn lemma_minted(a: nat, wide_a: nat, b: nat, wide_b: nat)
    requires
        1 <= wide_a,
        1 <= wide_b,
        wide_a + wide_b <= 32,
        a < hex_range(wide_a),
        b < hex_range(wide_b),
    ensures
        minted_text(a, wide_a, b, wide_b).len() == wide_a + wide_b,
        token(minted_text(a, wide_a, b, wide_b)),
{
    lemma_hex(a, wide_a);
    lemma_hex(b, wide_b);
}

/// A token out of 64 random bits.
pub fn mint_random(hi: u32, lo: u32) -> (out: String)
    ensures
        out@ == minted_text(hi as nat, 8, lo as nat, 8),
        token(out@),
{
    let out = minted(hi as u64, 8, lo as u64, 8);
    proof {
        reveal_with_fuel(hex_range, 9);
        lemma_minted(hi as nat, 8, lo as nat, 8);
    }
    out
}

/// A token out of the clock's low 48 bits and the process number's low 16.
pub fn mint_clock(nanos: u64, process: u32) -> (out: String)
    ensures
        out@ == minted_text(
            nanos as nat % 0x1_0000_0000_0000,
            12,
            process as nat % 0x1_0000,
            4,
        ),
        token(out@),
{
    let a: u64 = nanos % 0x1_0000_0000_0000;
    let b: u64 = (process % 0x1_0000) as u64;
    let out = minted(a, 12, b, 4);
    proof {
        reveal_with_fuel(hex_range, 13);
        lemma_minted(a as nat, 12, b as nat, 4);
    }
    out
}

// ---------------------------------------------------------------------------
// What holds of everything that is kept.
// ---------------------------------------------------------------------------

/// A token is one to thirty-two digits of hexadecimal, in either case, and nothing else is.
pub proof fn what_a_token_is(s: Seq<char>)
    ensures
        token(s) <==> (1 <= s.len() <= 32 && forall|i: int|
            0 <= i < s.len() ==> "0123456789abcdefABCDEF"@.contains(#[trigger] s[i])),
{
    let digits = "0123456789abcdefABCDEF"@;
    reveal_strlit("0123456789abcdefABCDEF");
    assert forall|c: char| is_hex(c) == #[trigger] digits.contains(c) by {
        lemma_hex_digits(c);
    }
    if token(s) {
        assert forall|i: int| 0 <= i < s.len() implies digits.contains(#[trigger] s[i]) by {
            assert(is_hex(s[i]));
        }
    }
}

proof fn lemma_hex_digits(c: char)
    ensures
        is_hex(c) == "0123456789abcdefABCDEF"@.contains(c),
{
    let digits = "0123456789abcdefABCDEF"@;
    reveal_strlit("0123456789abcdefABCDEF");
    let n = c as u32;
    if 48 <= n <= 57 {
        assert(digits[n - 48] == c);
    }
    if 97 <= n <= 102 {
        assert(digits[n - 87] == c);
    }
    if 65 <= n <= 70 {
        assert(digits[n - 65 + 16] == c);
    }
    if digits.contains(c) {
        let i = choose|i: int| 0 <= i < digits.len() && digits[i] == c;
        assert(digits.len() == 22);
        assert(is_hex(digits[i]));
    }
}

/// A room's match is kept under the room's own name behind one prefix, and the game
/// without a room under a name of its own.
pub proof fn where_a_match_is_kept(room: Seq<char>)
    ensures
        match_key_text(Some(room)) == "army-ghosts.match."@ + room,
        match_key_text(None) == "army-ghosts.offline"@,
        IDENTITY_KEY@ == "army-ghosts.player"@,
{
}

/// A key without a slash is kept in the file of its own name; one with a slash is kept in
/// the directory for such keys, under a name without one.
pub proof fn only_keys_with_slashes_are_respelled(key: Seq<char>)
    ensures
        !key.contains('/') && !key.contains('\\') ==> file_name_text(key) == key,
        key.contains('/') || key.contains('\\') ==> (text::after(
            file_name_text(key),
            "slashed/"@,
        ) matches Some(rest) && !rest.contains('/') && !rest.contains('\\')),
{
    if key.contains('/') {
        let i = choose|i: int| 0 <= i < key.len() && key[i] == '/';
        assert(!text::free_of(key, '/')) by {
            assert(key[i] == '/');
        }
    }
    if key.contains('\\') {
        let i = choose|i: int| 0 <= i < key.len() && key[i] == '\\';
        assert(!text::free_of(key, '\\')) by {
            assert(key[i] == '\\');
        }
    }
    a_name_spelled_out_has_no_slash(key);
    text::lemma_after("slashed/"@, spelled_out(key));
    let rest = spelled_out(key);
    if rest.contains('/') {
        let i = choose|i: int| 0 <= i < rest.len() && rest[i] == '/';
        assert(text::free_of(rest, '/'));
        assert(rest[i] != '/');
    }
    if rest.contains('\\') {
        let i = choose|i: int| 0 <= i < rest.len() && rest[i] == '\\';
        assert(text::free_of(rest, '\\'));
        assert(rest[i] != '\\');
    }
}

/// Slashes and the sign that marks them are spelled by their own numbers, and every other
/// character stands for itself: a key is spelled character by character.
pub proof fn a_key_is_spelled_by_its_characters(key: Seq<char>, c: char)
    ensures
        spelled_out(Seq::empty()) == Seq::<char>::empty(),
        spelled_out(key.push('/')) == spelled_out(key) + "%2F"@,
        spelled_out(key.push('\\')) == spelled_out(key) + "%5C"@,
        spelled_out(key.push('%')) == spelled_out(key) + "%25"@,
        c != '/' && c != '\\' && c != '%' ==> spelled_out(key.push(c)) == spelled_out(key).push(c),
{
    reveal_strlit("%2F");
    reveal_strlit("%5C");
    reveal_strlit("%25");
    assert("%2F"@ =~= seq!['%', '2', 'F']);
    assert("%5C"@ =~= seq!['%', '5', 'C']);
    assert("%25"@ =~= seq!['%', '2', '5']);
    assert(key.push('/').drop_last() =~= key);
    assert(key.push('\\').drop_last() =~= key);
    assert(key.push('%').drop_last() =~= key);
    assert(key.push(c).drop_last() =~= key);
    if c != '/' && c != '\\' && c != '%' {
        assert(spelled_out(key.push(c)) =~= spelled_out(key).push(c));
    }
}

/// A match is stored as its time, a line break and the world, and a write falls due three
/// times a second.
pub proof fn how_a_match_is_stored(stamp: Seq<char>, blob: Seq<char>)
    ensures
        stored_text(stamp, blob).take(stamp.len() as int) == stamp,
        stored_text(stamp, blob)[stamp.len() as int] == '\n',
        stored_text(stamp, blob).skip(stamp.len() as int + 1) == blob,
        3 * SAVE_EVERY == crate::TICK_HZ,
{
    assert(stored_text(stamp, blob).take(stamp.len() as int) =~= stamp);
    assert(stored_text(stamp, blob).skip(stamp.len() as int + 1) =~= blob);
}

/// A number is written in sixteens: one digit below sixteen, and above that the digit of
/// the ones behind what is written for the sixteens.
pub proof fn numbers_are_spelled_in_sixteens(n: nat, d: nat)
    requires
        d < 16,
    ensures
        hex(d) == seq!["0123456789abcdef"@[d as int]],
        n > 0 ==> hex(16 * n + d) == hex(n).push("0123456789abcdef"@[d as int]),
{
    peer::the_sixteen_digits(d);
    let m = 16 * n + d;
    assert(m / 16 == n && m % 16 == d);
}

/// A minted token is its two numbers in hexadecimal, the first before the second, each
/// brought up to its width with noughts.
pub proof fn a_minted_token_spells_its_numbers(a: nat, wide_a: nat, b: nat, wide_b: nat)
    requires
        hex(a).len() <= wide_a,
        hex(b).len() <= wide_b,
    ensures
        ({
            let minted = minted_text(a, wide_a, b, wide_b);
            &&& minted.len() == wide_a + wide_b
            &&& minted.subrange(wide_a - hex(a).len(), wide_a as int) == hex(a)
            &&& minted.skip(wide_a + wide_b - hex(b).len()) == hex(b)
            &&& forall|i: int| 0 <= i < wide_a - hex(a).len() ==> #[trigger] minted[i] == '0'
            &&& forall|i: int|
                wide_a <= i < wide_a + wide_b - hex(b).len() ==> #[trigger] minted[i] == '0'
        }),
{
    let minted = minted_text(a, wide_a, b, wide_b);
    text::a_column_is_filled_before(hex(a), '0', wide_a);
    text::a_column_is_filled_before(hex(b), '0', wide_b);
    assert(minted.subrange(wide_a - hex(a).len(), wide_a as int) =~= hex(a));
    assert(minted.skip(wide_a + wide_b - hex(b).len()) =~= hex(b));
}

} // verus!
