//! Text as sequences of characters: cutting it up, gluing it together, and
//! reading and writing whole numbers in it.

use vstd::prelude::*;

verus! {

/// `String::push` appends one character to the end of the string.
pub assume_specification[ String::push ](s: &mut String, c: char)
    ensures
        final(s)@ == old(s)@.push(c),
;

/// The characters of a string, in order.
pub fn chars_of(text: &str) -> (out: Vec<char>)
    ensures
        out@ == text@,
{
    let mut out: Vec<char> = Vec::new();
    for c in it: text.chars()
        invariant
            it.seq() == text@,
            out@ == text@.take(it.index()),
    {
        out.push(c);
        assert(text@.take(it.index() + 1) =~= text@.take(it.index()).push(c));
    }
    assert(text@.take(text@.len() as int) =~= text@);
    out
}

/// The string made of these characters, in order.
pub fn string_of(chars: &Vec<char>) -> (out: String)
    ensures
        out@ == chars@,
{
    let mut out: String = String::new();
    let mut i: usize = 0;
    while i < chars.len()
        invariant
            i <= chars.len(),
            out@ == chars@.take(i as int),
        decreases chars.len() - i,
    {
        out.push(chars[i]);
        i = i + 1;
        assert(chars@.take(i as int) =~= chars@.take(i - 1).push(chars@[i - 1]));
    }
    assert(chars@.take(i as int) =~= chars@);
    out
}

/// Whether two texts hold the same characters.
pub fn same(a: &Vec<char>, b: &Vec<char>) -> (yes: bool)
    ensures
        yes == (a@ == b@),
{
    if a.len() != b.len() {
        return false;
    }
    let mut i: usize = 0;
    while i < a.len()
        invariant
            i <= a.len(),
            a.len() == b.len(),
            a@.take(i as int) == b@.take(i as int),
        decreases a.len() - i,
    {
        if a[i] != b[i] {
            assert(a@[i as int] != b@[i as int]);
            return false;
        }
        i = i + 1;
        assert(a@.take(i as int) =~= a@.take(i - 1).push(a@[i - 1]));
        assert(b@.take(i as int) =~= b@.take(i - 1).push(b@[i - 1]));
    }
    assert(a@.take(i as int) =~= a@);
    assert(b@.take(i as int) =~= b@);
    true
}

/// Whether the characters spell this string.
pub fn spells(a: &Vec<char>, b: &str) -> (yes: bool)
    ensures
        yes == (a@ == b@),
{
    let other = chars_of(b);
    same(a, &other)
}

/// Whether two strings hold the same characters.
pub fn same_str(a: &str, b: &str) -> (yes: bool)
    ensures
        yes == (a@ == b@),
{
    let left = chars_of(a);
    spells(&left, b)
}

/// A fresh string with the same characters.
pub fn copy_of(a: &str) -> (out: String)
    ensures
        out@ == a@,
{
    let mut out: String = String::new();
    out.append(a);
    assert(out@ =~= a@);
    out
}

/// The piece of the text between two positions.
pub fn piece(s: &Vec<char>, from: usize, to: usize) -> (out: Vec<char>)
    requires
        from <= to <= s.len(),
    ensures
        out@ == s@.subrange(from as int, to as int),
{
    let mut out: Vec<char> = Vec::new();
    let mut i: usize = from;
    while i < to
        invariant
            from <= i <= to <= s.len(),
            out@ == s@.subrange(from as int, i as int),
        decreases to - i,
    {
        out.push(s[i]);
        i = i + 1;
        assert(s@.subrange(from as int, i as int) =~= s@.subrange(from as int, i - 1).push(
            s@[i - 1],
        ));
    }
    out
}

// ---------------------------------------------------------------------------
// Finding, splitting and joining.
// ---------------------------------------------------------------------------

/// Where `c` first stands in `s`: the length of `s` where it does not.
pub open spec fn position(s: Seq<char>, c: char) -> int
    decreases s.len(),
{
    if s.len() == 0 || s[0] == c {
        0
    } else {
        1 + position(s.drop_first(), c)
    }
}

pub proof fn lemma_position(s: Seq<char>, c: char)
    ensures
        0 <= position(s, c) <= s.len(),
        position(s, c) < s.len() ==> s[position(s, c)] == c,
        forall|i: int| 0 <= i < position(s, c) ==> s[i] != c,
    decreases s.len(),
{
    if s.len() == 0 || s[0] == c {
    } else {
        let rest = s.drop_first();
        lemma_position(rest, c);
        assert forall|i: int| 0 <= i < position(s, c) implies s[i] != c by {
            if i > 0 {
                assert(rest[i - 1] == s[i]);
            }
        }
        if position(s, c) < s.len() {
            assert(rest[position(rest, c)] == s[position(s, c)]);
        }
    }
}

/// The first place is the only one with nothing before it.
pub proof fn lemma_position_is(s: Seq<char>, c: char, k: int)
    requires
        0 <= k <= s.len(),
        k < s.len() ==> s[k] == c,
        forall|i: int| 0 <= i < k ==> s[i] != c,
    ensures
        position(s, c) == k,
{
    lemma_position(s, c);
    let p = position(s, c);
    if p < k {
        assert(s[p] != c);
    } else if k < p {
        assert(s[k] != c);
    }
}

/// Text cut in two at the first `c`, which belongs to neither half.
pub open spec fn cut(s: Seq<char>, c: char) -> Option<(Seq<char>, Seq<char>)> {
    let k = position(s, c);
    if k < s.len() {
        Some((s.take(k), s.skip(k + 1)))
    } else {
        None
    }
}

/// Text cut at every `c`.
pub open spec fn split(s: Seq<char>, c: char) -> Seq<Seq<char>>
    decreases s.len(),
{
    let k = position(s, c);
    if 0 <= k < s.len() {
        seq![s.take(k)] + split(s.skip(k + 1), c)
    } else {
        seq![s]
    }
}

/// Pieces glued together with `sep` between neighbours.
pub open spec fn join(parts: Seq<Seq<char>>, sep: Seq<char>) -> Seq<char>
    decreases parts.len(),
{
    if parts.len() == 0 {
        Seq::empty()
    } else if parts.len() == 1 {
        parts[0]
    } else {
        parts[0] + sep + join(parts.drop_first(), sep)
    }
}

/// One more piece goes behind one more separator.
pub proof fn lemma_join_push(parts: Seq<Seq<char>>, sep: Seq<char>, last: Seq<char>)
    ensures
        parts.len() == 0 ==> join(parts.push(last), sep) == last,
        parts.len() > 0 ==> join(parts.push(last), sep) == join(parts, sep) + sep + last,
    decreases parts.len(),
{
    let all = parts.push(last);
    if parts.len() == 0 {
    } else if parts.len() == 1 {
        assert(all.drop_first() =~= seq![last]);
        assert(join(all.drop_first(), sep) == last);
    } else {
        lemma_join_push(parts.drop_first(), sep, last);
        assert(all.drop_first() =~= parts.drop_first().push(last));
        assert(join(all, sep) =~= join(parts, sep) + sep + last);
    }
}

/// Whether `c` stands nowhere in `s`.
pub open spec fn free_of(s: Seq<char>, c: char) -> bool {
    forall|i: int| 0 <= i < s.len() ==> s[i] != c
}

pub proof fn lemma_cut_at(a: Seq<char>, c: char, b: Seq<char>)
    requires
        free_of(a, c),
    ensures
        cut(a + seq![c] + b, c) == Some((a, b)),
        position(a + seq![c] + b, c) == a.len(),
{
    let s = a + seq![c] + b;
    assert forall|i: int| 0 <= i < a.len() implies s[i] != c by {
        assert(s[i] == a[i]);
    }
    assert(s[a.len() as int] == c);
    lemma_position_is(s, c, a.len() as int);
    assert(s.take(a.len() as int) =~= a);
    assert(s.skip(a.len() as int + 1) =~= b);
}

pub proof fn lemma_cut_none(s: Seq<char>, c: char)
    ensures
        free_of(s, c) <==> cut(s, c) is None,
{
    lemma_position(s, c);
    if free_of(s, c) {
        lemma_position_is(s, c, s.len() as int);
    }
}

/// Pieces that do not hold the separator come back out of the text that they
/// were glued into.
pub proof fn splitting_undoes_joining(parts: Seq<Seq<char>>, c: char)
    requires
        parts.len() >= 1,
        forall|i: int| 0 <= i < parts.len() ==> free_of(#[trigger] parts[i], c),
    ensures
        split(join(parts, seq![c]), c) == parts,
    decreases parts.len(),
{
    if parts.len() == 1 {
        assert(free_of(parts[0], c));
        lemma_cut_none(parts[0], c);
        lemma_position(parts[0], c);
        assert(split(join(parts, seq![c]), c) =~= parts);
    } else {
        let rest = parts.drop_first();
        assert forall|i: int| 0 <= i < rest.len() implies free_of(#[trigger] rest[i], c) by {
            assert(rest[i] == parts[i + 1]);
        }
        splitting_undoes_joining(rest, c);
        assert(free_of(parts[0], c));
        lemma_cut_at(parts[0], c, join(rest, seq![c]));
        assert(split(join(parts, seq![c]), c) =~= seq![parts[0]] + rest);
        assert(seq![parts[0]] + rest =~= parts);
    }
}

pub proof fn lemma_split_parts(s: Seq<char>, c: char)
    ensures
        split(s, c).len() >= 1,
        forall|i: int| 0 <= i < split(s, c).len() ==> free_of(#[trigger] split(s, c)[i], c),
    decreases s.len(),
{
    lemma_position(s, c);
    let k = position(s, c);
    if k < s.len() {
        lemma_split_parts(s.skip(k + 1), c);
        assert forall|i: int| 0 <= i < split(s, c).len() implies free_of(
            #[trigger] split(s, c)[i],
            c,
        ) by {
            if i == 0 {
                assert(split(s, c)[0] == s.take(k));
            } else {
                assert(split(s, c)[i] == split(s.skip(k + 1), c)[i - 1]);
            }
        }
    }
}

/// Where `c` first stands at or after `from`: the length where it does not.
fn find(s: &Vec<char>, from: usize, c: char) -> (at: usize)
    requires
        from <= s.len(),
    ensures
        from <= at <= s.len(),
        at == from + position(s@.skip(from as int), c),
{
    let mut i: usize = from;
    while i < s.len() && s[i] != c
        invariant
            from <= i <= s.len(),
            forall|j: int| from <= j < i ==> s@[j] != c,
        decreases s.len() - i,
    {
        i = i + 1;
    }
    proof {
        let rest = s@.skip(from as int);
        assert forall|j: int| 0 <= j < i - from implies rest[j] != c by {
            assert(rest[j] == s@[from + j]);
        }
        lemma_position_is(rest, c, i - from);
    }
    i
}

/// Cuts the text in two at the first `c`.
pub fn split_once(s: &Vec<char>, c: char) -> (out: Option<(Vec<char>, Vec<char>)>)
    ensures
        match out {
            Some(halves) => cut(s@, c) == Some((halves.0@, halves.1@)),
            None => cut(s@, c) is None,
        },
{
    let at: usize = find(s, 0, c);
    assert(s@.skip(0) =~= s@);
    if at < s.len() {
        let head = piece(s, 0, at);
        let tail = piece(s, at + 1, s.len());
        assert(head@ =~= s@.take(at as int));
        assert(tail@ =~= s@.skip(at + 1));
        Some((head, tail))
    } else {
        None
    }
}

/// The characters of each text in a list.
pub open spec fn views(v: Seq<Vec<char>>) -> Seq<Seq<char>> {
    v.map_values(|p: Vec<char>| p@)
}

/// Cuts the text at every `c`.
pub fn split_all(s: &Vec<char>, c: char) -> (out: Vec<Vec<char>>)
    ensures
        views(out@) == split(s@, c),
{
    let mut out: Vec<Vec<char>> = Vec::new();
    let mut start: usize = 0;
    assert(s@.skip(0) =~= s@);
    let mut at: usize = find(s, start, c);
    assert(views(out@) + split(s@.skip(0), c) =~= split(s@, c));
    while at < s.len()
        invariant
            start <= at <= s.len(),
            at == start + position(s@.skip(start as int), c),
            views(out@) + split(s@.skip(start as int), c) == split(s@, c),
        decreases s.len() - start,
    {
        let ghost rest = s@.skip(start as int);
        let ghost before = views(out@);
        let next = piece(s, start, at);
        proof {
            assert(next@ =~= rest.take(at - start));
            assert(rest.skip(at - start + 1) =~= s@.skip(at + 1));
            assert(split(rest, c) =~= seq![next@] + split(s@.skip(at + 1), c));
        }
        out.push(next);
        assert(views(out@) =~= before.push(next@));
        start = at + 1;
        at = find(s, start, c);
        assert(views(out@) + split(s@.skip(start as int), c) =~= before + split(rest, c));
    }
    let ghost before = views(out@);
    let last = piece(s, start, s.len());
    proof {
        assert(last@ =~= s@.skip(start as int));
        assert(split(last@, c) =~= seq![last@]);
    }
    out.push(last);
    assert(views(out@) =~= before + seq![last@]);
    out
}

/// Glues pieces together with `sep` between neighbours.
pub fn join_all(parts: &Vec<Vec<char>>, sep: &str) -> (out: String)
    ensures
        out@ == join(views(parts@), sep@),
{
    let mut out: String = String::new();
    let mut i: usize = 0;
    assert(views(parts@).take(0) =~= Seq::empty());
    while i < parts.len()
        invariant
            i <= parts.len(),
            out@ == join(views(parts@).take(i as int), sep@),
        decreases parts.len() - i,
    {
        let ghost all = views(parts@);
        if i > 0 {
            out.append(sep);
        }
        let next = string_of(&parts[i]);
        out.append(next.as_str());
        proof {
            lemma_join_push(all.take(i as int), sep@, all[i as int]);
            assert(all.take(i + 1) =~= all.take(i as int).push(all[i as int]));
            assert(out@ =~= join(all.take(i + 1), sep@));
        }
        i = i + 1;
    }
    assert(views(parts@).take(i as int) =~= views(parts@));
    out
}

// ---------------------------------------------------------------------------
// Prefixes, white space and padding.
// ---------------------------------------------------------------------------

/// What follows `prefix` at the start of `s`.
pub open spec fn after(s: Seq<char>, prefix: Seq<char>) -> Option<Seq<char>> {
    if prefix.len() <= s.len() && s.take(prefix.len() as int) == prefix {
        Some(s.skip(prefix.len() as int))
    } else {
        None
    }
}

pub proof fn lemma_after(prefix: Seq<char>, rest: Seq<char>)
    ensures
        after(prefix + rest, prefix) == Some(rest),
{
    assert((prefix + rest).take(prefix.len() as int) =~= prefix);
    assert((prefix + rest).skip(prefix.len() as int) =~= rest);
}

/// Takes `prefix` off the front of the text, if it is there.
pub fn strip_prefix(s: &Vec<char>, prefix: &str) -> (out: Option<Vec<char>>)
    ensures
        match out {
            Some(rest) => after(s@, prefix@) == Some(rest@),
            None => after(s@, prefix@) is None,
        },
{
    let p = chars_of(prefix);
    if p.len() > s.len() {
        return None;
    }
    let head = piece(s, 0, p.len());
    assert(head@ =~= s@.take(p.len() as int));
    if same(&head, &p) {
        let rest = piece(s, p.len(), s.len());
        assert(rest@ =~= s@.skip(p.len() as int));
        Some(rest)
    } else {
        None
    }
}

/// Whether a character is white space, in Unicode's sense.
pub open spec fn is_white(c: char) -> bool {
    let n = c as u32;
    ||| 9 <= n <= 13
    ||| n == 32
    ||| n == 0x85
    ||| n == 0xa0
    ||| n == 0x1680
    ||| 0x2000 <= n <= 0x200a
    ||| n == 0x2028
    ||| n == 0x2029
    ||| n == 0x202f
    ||| n == 0x205f
    ||| n == 0x3000
}

/// Whether the text holds nothing but white space.
pub open spec fn is_blank(s: Seq<char>) -> bool {
    forall|i: int| 0 <= i < s.len() ==> is_white(s[i])
}

fn white(c: char) -> (yes: bool)
    ensures
        yes == is_white(c),
{
    let n: u32 = c as u32;
    (9 <= n && n <= 13) || n == 32 || n == 0x85 || n == 0xa0 || n == 0x1680 || (0x2000 <= n && n
        <= 0x200a) || n == 0x2028 || n == 0x2029 || n == 0x202f || n == 0x205f || n == 0x3000
}

/// Whether the text holds nothing but white space.
pub fn blank(s: &Vec<char>) -> (yes: bool)
    ensures
        yes == is_blank(s@),
{
    let mut i: usize = 0;
    while i < s.len()
        invariant
            i <= s.len(),
            forall|j: int| 0 <= j < i ==> is_white(s@[j]),
        decreases s.len() - i,
    {
        if !white(s[i]) {
            return false;
        }
        i = i + 1;
    }
    true
}

/// Text without the white space at its start.
pub open spec fn trimmed_start(s: Seq<char>) -> Seq<char>
    decreases s.len(),
{
    if s.len() > 0 && is_white(s[0]) {
        trimmed_start(s.drop_first())
    } else {
        s
    }
}

/// Text without the white space at its end.
pub open spec fn trimmed_end(s: Seq<char>) -> Seq<char>
    decreases s.len(),
{
    if s.len() > 0 && is_white(s.last()) {
        trimmed_end(s.drop_last())
    } else {
        s
    }
}

/// Text without the white space around it.
pub open spec fn trimmed(s: Seq<char>) -> Seq<char> {
    trimmed_end(trimmed_start(s))
}

/// Takes the white space off both ends.
pub fn trim(s: &Vec<char>) -> (out: Vec<char>)
    ensures
        out@ == trimmed(s@),
{
    let mut from: usize = 0;
    assert(s@.skip(0) =~= s@);
    while from < s.len() && white(s[from])
        invariant
            from <= s.len(),
            trimmed_start(s@.skip(from as int)) == trimmed_start(s@),
        decreases s.len() - from,
    {
        assert(s@.skip(from as int).drop_first() =~= s@.skip(from + 1));
        from = from + 1;
    }
    let mut to: usize = s.len();
    let ghost body = s@.skip(from as int);
    assert(body == trimmed_start(s@));
    assert(s@.subrange(from as int, to as int) =~= body);
    while to > from && white(s[to - 1])
        invariant
            from <= to <= s.len(),
            trimmed_end(s@.subrange(from as int, to as int)) == trimmed_end(body),
        decreases to,
    {
        assert(s@.subrange(from as int, to as int).drop_last() =~= s@.subrange(
            from as int,
            to - 1,
        ));
        to = to - 1;
    }
    piece(s, from, to)
}

/// A run of `n` copies of one character.
pub open spec fn run_of(c: char, n: nat) -> Seq<char> {
    Seq::new(n, |i: int| c)
}

/// Text with spaces behind it up to `width` characters.
pub open spec fn left_in(s: Seq<char>, width: nat) -> Seq<char> {
    if s.len() < width {
        s + run_of(' ', (width - s.len()) as nat)
    } else {
        s
    }
}

/// Text with `fill` before it up to `width` characters.
pub open spec fn right_in(s: Seq<char>, fill: char, width: nat) -> Seq<char> {
    if s.len() < width {
        run_of(fill, (width - s.len()) as nat) + s
    } else {
        s
    }
}

fn run(c: char, n: usize) -> (out: Vec<char>)
    ensures
        out@ == run_of(c, n as nat),
{
    let mut out: Vec<char> = Vec::new();
    while out.len() < n
        invariant
            out.len() <= n,
            out@ == run_of(c, out@.len()),
        decreases n - out.len(),
    {
        out.push(c);
    }
    out
}

/// Puts spaces behind the text up to `width` characters.
pub fn pad_right(s: &Vec<char>, width: usize) -> (out: Vec<char>)
    ensures
        out@ == left_in(s@, width as nat),
{
    let mut out: Vec<char> = piece(s, 0, s.len());
    assert(out@ =~= s@);
    if s.len() < width {
        let mut fill = run(' ', width - s.len());
        out.append(&mut fill);
    }
    out
}

/// Puts `fill` before the text up to `width` characters.
pub fn pad_left(s: &Vec<char>, fill: char, width: usize) -> (out: Vec<char>)
    ensures
        out@ == right_in(s@, fill, width as nat),
{
    let mut body: Vec<char> = piece(s, 0, s.len());
    assert(body@ =~= s@);
    if s.len() < width {
        let mut out = run(fill, width - s.len());
        out.append(&mut body);
        out
    } else {
        body
    }
}

// ---------------------------------------------------------------------------
// Whole numbers.
// ---------------------------------------------------------------------------

/// The decimal digit for a number below ten.
pub open spec fn digit(d: nat) -> char {
    (48 + d) as char
}

/// A number in decimal, without leading zeros.
pub open spec fn decimal(n: nat) -> Seq<char>
    decreases n,
{
    if n < 10 {
        seq![digit(n)]
    } else {
        decimal(n / 10).push(digit(n % 10))
    }
}

pub open spec fn is_digit(c: char) -> bool {
    48 <= c as u32 <= 57
}

/// Whether the text is one or more decimal digits.
pub open spec fn is_number(s: Seq<char>) -> bool {
    &&& s.len() > 0
    &&& forall|i: int| 0 <= i < s.len() ==> is_digit(s[i])
}

/// What a row of decimal digits is worth.
pub open spec fn worth(s: Seq<char>) -> nat
    decreases s.len(),
{
    if s.len() == 0 {
        0
    } else {
        worth(s.drop_last()) * 10 + (s.last() as u32 - 48) as nat
    }
}

/// A whole number from nothing up to `max`: digits, with a plus sign allowed.
pub open spec fn read_unsigned(s: Seq<char>, max: nat) -> Option<nat> {
    let body = if s.len() > 0 && s[0] == '+' {
        s.drop_first()
    } else {
        s
    };
    if is_number(body) && worth(body) <= max {
        Some(worth(body))
    } else {
        None
    }
}

/// A whole number that fits an `i32`: digits, with a sign allowed.
pub open spec fn read_i32(s: Seq<char>) -> Option<int> {
    if s.len() > 0 && s[0] == '-' {
        let body = s.drop_first();
        if is_number(body) && worth(body) <= 0x8000_0000 {
            Some(-(worth(body) as int))
        } else {
            None
        }
    } else {
        match read_unsigned(s, i32::MAX as nat) {
            Some(n) => Some(n as int),
            None => None,
        }
    }
}

pub proof fn lemma_decimal(n: nat)
    ensures
        is_number(decimal(n)),
        worth(decimal(n)) == n,
        forall|c: char| !is_digit(c) ==> #[trigger] free_of(decimal(n), c),
    decreases n,
{
    reveal_with_fuel(worth, 2);
    if n >= 10 {
        lemma_decimal(n / 10);
        assert(decimal(n).drop_last() =~= decimal(n / 10));
        assert(decimal(n).last() == digit(n % 10));
    } else {
        assert(decimal(n).drop_last() =~= Seq::<char>::empty());
    }
}

/// A number written in decimal reads back as itself.
pub proof fn a_written_number_reads_back(n: nat, max: nat)
    requires
        n <= max,
    ensures
        read_unsigned(decimal(n), max) == Some(n),
{
    lemma_decimal(n);
    assert(is_digit(decimal(n)[0]));
}

/// Writes a number at the end of a string, in decimal.
pub fn append_number(out: &mut String, n: u128)
    ensures
        final(out)@ == old(out)@ + decimal(n as nat),
    decreases n,
{
    let last: u8 = 48u8 + (n % 10) as u8;
    if n >= 10 {
        append_number(out, n / 10);
    }
    out.push(last as char);
    assert(out@ =~= old(out)@ + decimal(n as nat));
}

/// A number in decimal.
pub fn number_text(n: u128) -> (out: String)
    ensures
        out@ == decimal(n as nat),
{
    let mut out: String = String::new();
    append_number(&mut out, n);
    assert(out@ =~= decimal(n as nat));
    out
}

/// Adds a number to the end of a row of characters, in decimal.
pub fn push_number(out: &mut Vec<char>, n: u128)
    ensures
        final(out)@ == old(out)@ + decimal(n as nat),
{
    let shown = number_text(n);
    let mut more = chars_of(shown.as_str());
    out.append(&mut more);
}

/// Adds a string to the end of a row of characters.
pub fn push_text(out: &mut Vec<char>, more: &str)
    ensures
        final(out)@ == old(out)@ + more@,
{
    let mut tail = chars_of(more);
    out.append(&mut tail);
}

/// Reads a row of digits that is worth at most `max`.
fn read_number(s: &Vec<char>, from: usize, max: u64) -> (out: Option<u64>)
    requires
        from <= s.len(),
    ensures
        match out {
            Some(n) => is_number(s@.skip(from as int)) && worth(s@.skip(from as int)) == n && n
                <= max,
            None => !(is_number(s@.skip(from as int)) && worth(s@.skip(from as int)) <= max),
        },
{
    let ghost body = s@.skip(from as int);
    if from == s.len() {
        return None;
    }
    let mut i: usize = from;
    let mut total: u64 = 0;
    let mut over: bool = false;
    while i < s.len()
        invariant
            from <= i <= s.len(),
            body == s@.skip(from as int),
            forall|j: int| 0 <= j < i - from ==> is_digit(#[trigger] body[j]),
            !over ==> total == worth(body.take(i - from)) && total <= max,
            over ==> worth(body.take(i - from)) > max,
        decreases s.len() - i,
    {
        let c: u32 = s[i] as u32;
        assert(body[i - from] == s@[i as int]);
        if c < 48 || c > 57 {
            assert(!is_digit(body[i - from]));
            return None;
        }
        let ghost before = worth(body.take(i - from));
        proof {
            assert(body.take(i - from + 1).drop_last() =~= body.take(i - from));
            assert(worth(body.take(i - from + 1)) == before * 10 + (c - 48) as nat);
        }
        if !over {
            let next: u128 = total as u128 * 10 + (c - 48) as u128;
            if next > max as u128 {
                over = true;
            } else {
                total = next as u64;
            }
        }
        i = i + 1;
    }
    assert(body.take(i - from) =~= body);
    if over {
        None
    } else {
        Some(total)
    }
}

/// Reads a whole number from nothing up to `max`.
pub fn parse_unsigned(s: &Vec<char>, max: u64) -> (out: Option<u64>)
    ensures
        match out {
            Some(n) => read_unsigned(s@, max as nat) == Some(n as nat),
            None => read_unsigned(s@, max as nat) is None,
        },
{
    assert(s@.skip(0) =~= s@);
    if s.len() > 0 && s[0] == '+' {
        assert(s@.skip(1) =~= s@.drop_first());
        read_number(s, 1, max)
    } else {
        read_number(s, 0, max)
    }
}

/// Reads a whole number that fits an `i32`.
pub fn parse_i32(s: &Vec<char>) -> (out: Option<i32>)
    ensures
        match out {
            Some(n) => read_i32(s@) == Some(n as int),
            None => read_i32(s@) is None,
        },
{
    if s.len() > 0 && s[0] == '-' {
        assert(s@.skip(1) =~= s@.drop_first());
        match read_number(s, 1, 0x8000_0000) {
            Some(n) => Some((-(n as i64)) as i32),
            None => None,
        }
    } else {
        match parse_unsigned(s, 0x7fff_ffff) {
            Some(n) => Some(n as i32),
            None => None,
        }
    }
}

// ---------------------------------------------------------------------------
// What holds of all texts.
// ---------------------------------------------------------------------------

/// A text is what follows a prefix if putting the prefix before it gives the whole
/// back, and only then.
pub proof fn a_prefix_goes_back_on(s: Seq<char>, prefix: Seq<char>, rest: Seq<char>)
    ensures
        after(s, prefix) == Some(rest) <==> s == prefix + rest,
{
    if s == prefix + rest {
        lemma_after(prefix, rest);
    }
    if after(s, prefix) == Some(rest) {
        assert(s =~= s.take(prefix.len() as int) + s.skip(prefix.len() as int));
    }
}

/// A text is cut in two at the first of its separators: the halves with the
/// separator between them are the text, and the first half holds none.
pub proof fn a_cut_text_goes_back_together(
    s: Seq<char>,
    c: char,
    a: Seq<char>,
    b: Seq<char>,
)
    ensures
        cut(s, c) == Some((a, b)) <==> (s == a + seq![c] + b && !a.contains(c)),
        cut(s, c) is None <==> !s.contains(c),
{
    lemma_position(s, c);
    if s == a + seq![c] + b && !a.contains(c) {
        assert(free_of(a, c));
        lemma_cut_at(a, c, b);
    }
    if cut(s, c) == Some((a, b)) {
        let k = position(s, c);
        assert(s =~= s.take(k) + seq![c] + s.skip(k + 1));
        assert(!a.contains(c)) by {
            if a.contains(c) {
                let i = choose|i: int| 0 <= i < a.len() && a[i] == c;
                assert(s[i] == c);
            }
        }
    }
    if s.contains(c) {
        let i = choose|i: int| 0 <= i < s.len() && s[i] == c;
        if cut(s, c) is None {
            assert(s[i] != c);
        }
    } else if cut(s, c) is Some {
        assert(s[position(s, c)] == c);
    }
}

/// Gluing what was split back together gives the text again, and no piece holds the
/// separator.
pub proof fn joining_undoes_splitting(s: Seq<char>, c: char)
    ensures
        join(split(s, c), seq![c]) == s,
        forall|i: int| 0 <= i < split(s, c).len() ==> !(#[trigger] split(s, c)[i]).contains(c),
        split(s, c).len() >= 1,
    decreases s.len(),
{
    lemma_position(s, c);
    lemma_split_parts(s, c);
    let k = position(s, c);
    let parts = split(s, c);
    if k < s.len() {
        let rest = s.skip(k + 1);
        joining_undoes_splitting(rest, c);
        assert(parts.drop_first() =~= split(rest, c));
        assert(parts[0] == s.take(k));
        assert(s =~= s.take(k) + seq![c] + rest);
    } else {
        assert(parts =~= seq![s]);
    }
}

/// Text that is put on the left of a column keeps to the left, fills the column and
/// is followed by blanks alone; text wider than the column is left as it is.
pub proof fn a_column_is_filled_behind(s: Seq<char>, width: nat)
    ensures
        s.len() >= width ==> left_in(s, width) == s,
        s.len() < width ==> {
            &&& left_in(s, width).len() == width
            &&& left_in(s, width).take(s.len() as int) == s
            &&& forall|i: int| s.len() <= i < width ==> #[trigger] left_in(s, width)[i] == ' '
        },
{
    if s.len() < width {
        assert(left_in(s, width).take(s.len() as int) =~= s);
    }
}

/// Text that is put on the right of a column keeps to the right, fills the column
/// and is preceded by the filling alone.
pub proof fn a_column_is_filled_before(s: Seq<char>, fill: char, width: nat)
    ensures
        s.len() >= width ==> right_in(s, fill, width) == s,
        s.len() < width ==> {
            &&& right_in(s, fill, width).len() == width
            &&& right_in(s, fill, width).skip(width - s.len()) == s
            &&& forall|i: int|
                0 <= i < width - s.len() ==> #[trigger] right_in(s, fill, width)[i] == fill
        },
{
    if s.len() < width {
        assert(right_in(s, fill, width).skip(width - s.len()) =~= s);
    }
}

/// The blanks of ASCII are the space and the five that move the place of writing.
pub proof fn what_counts_as_blank(c: char)
    requires
        c as u32 <= 127,
    ensures
        is_white(c) <==> (c == ' ' || c == '\t' || c == '\n' || c == '\r' || c as u32 == 11
            || c as u32 == 12),
{
}

/// Beyond ASCII there are nineteen blanks more.
pub proof fn what_counts_as_blank_beyond_ascii(c: char)
    requires
        c as u32 > 127,
    ensures
        is_white(c) <==> seq![
            0x85u32,
            0xa0,
            0x1680,
            0x2000,
            0x2001,
            0x2002,
            0x2003,
            0x2004,
            0x2005,
            0x2006,
            0x2007,
            0x2008,
            0x2009,
            0x200a,
            0x2028,
            0x2029,
            0x202f,
            0x205f,
            0x3000,
        ].contains(c as u32),
{
    let row = seq![
        0x85u32,
        0xa0,
        0x1680,
        0x2000,
        0x2001,
        0x2002,
        0x2003,
        0x2004,
        0x2005,
        0x2006,
        0x2007,
        0x2008,
        0x2009,
        0x200a,
        0x2028,
        0x2029,
        0x202f,
        0x205f,
        0x3000,
    ];
    let n = c as u32;
    assert(row[0] == 0x85 && row[1] == 0xa0 && row[2] == 0x1680);
    assert(0x2000 <= n <= 0x200a ==> row[3 + (n - 0x2000)] == n);
    assert(row[14] == 0x2028 && row[15] == 0x2029 && row[16] == 0x202f);
    assert(row[17] == 0x205f && row[18] == 0x3000);
}

/// Trimming takes blanks off the two ends and nothing else, and leaves none there.
pub proof fn trimming_takes_only_the_blanks_around(s: Seq<char>)
    ensures
        exists|a: Seq<char>, b: Seq<char>|
            #![trigger a + trimmed(s) + b]
            s == a + trimmed(s) + b && is_blank(a) && is_blank(b),
        trimmed(s).len() > 0 ==> !is_white(trimmed(s)[0]) && !is_white(trimmed(s).last()),
{
    lemma_trimmed_start(s);
    let t = trimmed_start(s);
    lemma_trimmed_end(t);
    let a = s.take(s.len() - t.len());
    let b = t.skip(trimmed_end(t).len() as int);
    assert(s =~= a + trimmed(s) + b) by {
        assert(s =~= a + t);
        assert(t =~= trimmed_end(t) + b);
    }
}

proof fn lemma_trimmed_start(s: Seq<char>)
    ensures
        trimmed_start(s).len() <= s.len(),
        trimmed_start(s) == s.skip(s.len() - trimmed_start(s).len()),
        is_blank(s.take(s.len() - trimmed_start(s).len())),
        trimmed_start(s).len() > 0 ==> !is_white(trimmed_start(s)[0]),
    decreases s.len(),
{
    if s.len() > 0 && is_white(s[0]) {
        let rest = s.drop_first();
        lemma_trimmed_start(rest);
        let n = rest.len() - trimmed_start(rest).len();
        assert(s.skip(n + 1) =~= rest.skip(n));
        let head = s.take(n + 1);
        assert forall|i: int| 0 <= i < head.len() implies is_white(head[i]) by {
            if i > 0 {
                assert(rest.take(n)[i - 1] == head[i]);
            }
        }
    } else {
        assert(s.skip(0) =~= s);
    }
}

proof fn lemma_trimmed_end(s: Seq<char>)
    ensures
        trimmed_end(s).len() <= s.len(),
        trimmed_end(s) == s.take(trimmed_end(s).len() as int),
        is_blank(s.skip(trimmed_end(s).len() as int)),
        trimmed_end(s).len() > 0 ==> !is_white(trimmed_end(s).last()),
    decreases s.len(),
{
    if s.len() > 0 && is_white(s.last()) {
        let rest = s.drop_last();
        lemma_trimmed_end(rest);
        let n = trimmed_end(rest).len() as int;
        assert(s.take(n) =~= rest.take(n));
        let tail = s.skip(n);
        assert forall|i: int| 0 <= i < tail.len() implies is_white(tail[i]) by {
            if i < tail.len() - 1 {
                assert(rest.skip(n)[i] == tail[i]);
            }
        }
    } else {
        assert(s.take(s.len() as int) =~= s);
    }
}

/// A text without blanks at its ends is trimmed to itself, whatever blanks are put
/// around it.
pub proof fn blanks_around_a_text_do_not_matter(a: Seq<char>, s: Seq<char>, b: Seq<char>)
    requires
        is_blank(a),
        is_blank(b),
        s.len() > 0,
        !is_white(s[0]),
        !is_white(s.last()),
    ensures
        trimmed(a + s + b) == s,
{
    lemma_start_dropped(a, s + b);
    assert(a + s + b =~= a + (s + b));
    lemma_end_dropped(s, b);
}

proof fn lemma_start_dropped(a: Seq<char>, s: Seq<char>)
    requires
        is_blank(a),
        s.len() > 0,
        !is_white(s[0]),
    ensures
        trimmed_start(a + s) == s,
    decreases a.len(),
{
    if a.len() > 0 {
        assert((a + s).drop_first() =~= a.drop_first() + s);
        lemma_start_dropped(a.drop_first(), s);
    } else {
        assert(a + s =~= s);
    }
}

proof fn lemma_end_dropped(s: Seq<char>, b: Seq<char>)
    requires
        is_blank(b),
        s.len() > 0,
        !is_white(s.last()),
    ensures
        trimmed_end(s + b) == s,
    decreases b.len(),
{
    if b.len() > 0 {
        assert((s + b).drop_last() =~= s + b.drop_last());
        lemma_end_dropped(s, b.drop_last());
    } else {
        assert(s + b =~= s);
    }
}

/// A number is written in tens: one digit below ten, and above that the digit of
/// the ones behind what is written for the tens.
pub proof fn numbers_are_written_in_tens(n: nat, d: nat)
    requires
        d < 10,
    ensures
        decimal(d) == seq!["0123456789"@[d as int]],
        n > 0 ==> decimal(10 * n + d) == decimal(n).push("0123456789"@[d as int]),
{
    reveal_strlit("0123456789");
    let m = 10 * n + d;
    assert(m / 10 == n && m % 10 == d);
    assert(digit(d) == "0123456789"@[d as int]);
}

/// Different numbers are written differently.
pub proof fn no_two_numbers_are_written_alike(a: nat, b: nat)
    requires
        a != b,
    ensures
        decimal(a) != decimal(b),
{
    lemma_decimal(a);
    lemma_decimal(b);
}

/// A number reads as itself with or without a plus, if it is within the limit; past
/// it, it is none.
pub proof fn a_number_reads_up_to_the_limit(n: nat, max: nat)
    ensures
        read_unsigned(decimal(n), max) == (if n <= max {
            Some(n)
        } else {
            None
        }),
        read_unsigned(seq!['+'] + decimal(n), max) == (if n <= max {
            Some(n)
        } else {
            None
        }),
{
    lemma_decimal(n);
    assert(is_digit(decimal(n)[0]));
    assert((seq!['+'] + decimal(n)).drop_first() =~= decimal(n));
}

/// A number with a sign reads as itself as far as it fits: both ends of the range
/// do, and nothing beyond them.
pub proof fn a_signed_number_reads_as_itself(n: nat)
    ensures
        read_i32(decimal(n)) == (if n <= 0x7fff_ffff {
            Some(n as int)
        } else {
            None
        }),
        read_i32(seq!['-'] + decimal(n)) == (if n <= 0x8000_0000 {
            Some(-(n as int))
        } else {
            None
        }),
{
    lemma_decimal(n);
    assert(is_digit(decimal(n)[0]));
    assert((seq!['-'] + decimal(n)).drop_first() =~= decimal(n));
}

/// What is read as a number holds digits alone behind its sign, and at least one.
pub proof fn only_digits_read_as_a_number(s: Seq<char>, max: nat, i: int)
    requires
        read_unsigned(s, max) is Some || read_i32(s) is Some,
        0 <= i < s.len(),
    ensures
        i > 0 ==> '0' as u32 <= s[i] as u32 <= '9' as u32,
        '0' as u32 <= s[0] as u32 <= '9' as u32 || s[0] == '+' || s[0] == '-',
        '0' as u32 <= s.last() as u32 <= '9' as u32,
{
    let body = s.drop_first();
    if s[0] == '+' || s[0] == '-' {
        if i > 0 {
            assert(is_digit(body[i - 1]));
        }
        assert(is_digit(body[body.len() - 1]));
    } else {
        assert(is_digit(s[i]));
        assert(is_digit(s[0]));
        assert(is_digit(s[s.len() - 1]));
    }
}

/// Noughts before a number change nothing.
pub proof fn leading_noughts_change_nothing(k: nat, n: nat, max: nat)
    ensures
        read_unsigned(run_of('0', k) + decimal(n), max) == read_unsigned(decimal(n), max),
    decreases k,
{
    lemma_decimal(n);
    let s = run_of('0', k) + decimal(n);
    lemma_noughts(k, decimal(n));
    assert forall|i: int| 0 <= i < s.len() implies is_digit(s[i]) by {
        if i >= k {
            assert(is_digit(decimal(n)[i - k]));
        }
    }
    assert(is_digit(s[0]));
    assert(is_digit(decimal(n)[0]));
}

proof fn lemma_noughts(k: nat, s: Seq<char>)
    ensures
        worth(run_of('0', k) + s) == worth(s),
    decreases s.len(), k,
{
    let t = run_of('0', k) + s;
    if s.len() > 0 {
        assert(t.drop_last() =~= run_of('0', k) + s.drop_last());
        assert(t.last() == s.last());
        lemma_noughts(k, s.drop_last());
    } else if k > 0 {
        assert(t.drop_last() =~= run_of('0', (k - 1) as nat) + s);
        lemma_noughts((k - 1) as nat, s);
    } else {
        assert(t =~= s);
    }
}

/// Contracts speak of a list of texts one by one.
pub proof fn texts_are_seen_one_by_one(v: Seq<Vec<char>>, i: int)
    requires
        0 <= i < v.len(),
    ensures
        views(v).len() == v.len(),
        views(v)[i] == v[i]@,
{
}

} // verus!
