//! What a match of bots against bots produced.

use vstd::prelude::*;

use crate::{MAX_PLAYERS, TEAM_COUNT};

verus! {

/// What a match produced.
#[derive(Copy, Clone, Debug, PartialEq, Eq)]
pub struct Outcome {
    /// Rounds taken by each side.
    pub wins: [u32; 2],
    /// Rounds that ended level.
    pub draws: u32,
    /// Ticks the match took.
    pub ticks: usize,
    pub kills: [u32; 8],
    pub deaths: [u32; 8],
}

/// The sum of a row.
pub open spec fn total(row: Seq<u32>) -> int
    decreases row.len(),
{
    if row.len() == 0 {
        0
    } else {
        total(row.drop_last()) + row.last()
    }
}

proof fn lemma_total_take(row: Seq<u32>, i: int)
    requires
        0 <= i <= row.len(),
    ensures
        0 <= total(row.take(i)) <= total(row),
    decreases row.len() - i, row.len(),
{
    if i < row.len() {
        lemma_total_take(row, i + 1);
        assert(row.take(i + 1).drop_last() =~= row.take(i));
        lemma_total_nonnegative(row.take(i));
    } else {
        assert(row.take(i) =~= row);
        lemma_total_nonnegative(row);
    }
}

pub proof fn lemma_total_nonnegative(row: Seq<u32>)
    ensures
        0 <= total(row),
    decreases row.len(),
{
    if row.len() > 0 {
        lemma_total_nonnegative(row.drop_last());
    }
}

fn sum(row: &[u32; 8]) -> (out: u32)
    requires
        total(row@) <= u32::MAX,
    ensures
        out == total(row@),
{
    let mut out: u32 = 0;
    let mut i: usize = 0;
    assert(row@.take(0) =~= Seq::empty());
    while i < 8
        invariant
            i <= 8,
            row@.len() == 8,
            total(row@) <= u32::MAX,
            out == total(row@.take(i as int)),
        decreases 8 - i,
    {
        proof {
            assert(row@.take(i + 1).drop_last() =~= row@.take(i as int));
            lemma_total_take(row@, i + 1);
        }
        out = out + row[i];
        i = i + 1;
    }
    assert(row@.take(i as int) =~= row@);
    out
}

/// The side that a number means: anything past the last side is the last.
pub open spec fn side_of(team: u8) -> int {
    if team < TEAM_COUNT {
        team as int
    } else {
        TEAM_COUNT - 1
    }
}

/// A side's rounds won minus its rounds lost, out of a match's tally.
pub open spec fn net_of(wins: Seq<u32>, team: u8) -> int {
    wins[side_of(team)] - wins[1 - side_of(team)]
}

impl Outcome {
    /// The candidate's rounds won minus its rounds lost. Drawn rounds count for
    /// neither.
    pub fn net(&self, candidate_team: u8) -> (out: i32)
        requires
            self.wins@[0] <= i32::MAX,
            self.wins@[1] <= i32::MAX,
        ensures
            out == net_of(self.wins@, candidate_team),
    {
        let side: usize = if (candidate_team as usize) < TEAM_COUNT {
            candidate_team as usize
        } else {
            TEAM_COUNT - 1
        };
        let mine: i32 = self.wins[side] as i32;
        let theirs: i32 = self.wins[TEAM_COUNT - 1 - side] as i32;
        mine - theirs
    }

    /// Rounds played.
    pub fn rounds(&self) -> (out: u32)
        requires
            self.wins@[0] + self.wins@[1] + self.draws <= u32::MAX,
        ensures
            out == self.wins@[0] + self.wins@[1] + self.draws,
    {
        self.wins[0] + self.wins[1] + self.draws
    }

    pub fn total_kills(&self) -> (out: u32)
        requires
            total(self.kills@) <= u32::MAX,
        ensures
            out == total(self.kills@),
    {
        sum(&self.kills)
    }

    pub fn total_deaths(&self) -> (out: u32)
        requires
            total(self.deaths@) <= u32::MAX,
        ensures
            out == total(self.deaths@),
    {
        sum(&self.deaths)
    }
}

/// The score is zero sum: what one side is ahead by, the other is behind by.
pub proof fn the_two_sides_differentials_cancel(wins: Seq<u32>)
    ensures
        net_of(wins, 0) == -net_of(wins, 1),
{
}

/// A pawn's line on the scoreboard.
#[derive(Copy, Clone, Debug, PartialEq, Eq, Structural)]
pub struct Tally {
    pub handle: usize,
    pub kills: u32,
    pub deaths: u32,
}

/// The kills by handle: the last line for each, nothing where there is none, and
/// nothing of pawns beyond the seats.
pub open spec fn kills_by_handle(rows: Seq<Tally>) -> Seq<u32>
    decreases rows.len(),
{
    if rows.len() == 0 {
        Seq::new(MAX_PLAYERS as nat, |i: int| 0u32)
    } else if rows.last().handle < MAX_PLAYERS {
        kills_by_handle(rows.drop_last()).update(rows.last().handle as int, rows.last().kills)
    } else {
        kills_by_handle(rows.drop_last())
    }
}

/// The deaths by handle, likewise.
pub open spec fn deaths_by_handle(rows: Seq<Tally>) -> Seq<u32>
    decreases rows.len(),
{
    if rows.len() == 0 {
        Seq::new(MAX_PLAYERS as nat, |i: int| 0u32)
    } else if rows.last().handle < MAX_PLAYERS {
        deaths_by_handle(rows.drop_last()).update(rows.last().handle as int, rows.last().deaths)
    } else {
        deaths_by_handle(rows.drop_last())
    }
}

/// The scoreboard as it stands.
pub fn read_outcome(wins: [u32; 2], draws: u32, ticks: usize, rows: &Vec<Tally>) -> (out: Outcome)
    ensures
        out.wins == wins,
        out.draws == draws,
        out.ticks == ticks,
        out.kills@ == kills_by_handle(rows@),
        out.deaths@ == deaths_by_handle(rows@),
{
    let mut kills: [u32; 8] = [0, 0, 0, 0, 0, 0, 0, 0];
    let mut deaths: [u32; 8] = [0, 0, 0, 0, 0, 0, 0, 0];
    let mut i: usize = 0;
    assert(rows@.take(0) =~= Seq::empty());
    assert(kills@ =~= kills_by_handle(rows@.take(0)));
    assert(deaths@ =~= deaths_by_handle(rows@.take(0)));
    while i < rows.len()
        invariant
            i <= rows.len(),
            kills@ == kills_by_handle(rows@.take(i as int)),
            deaths@ == deaths_by_handle(rows@.take(i as int)),
        decreases rows.len() - i,
    {
        let row = rows[i];
        assert(rows@.take(i + 1).drop_last() =~= rows@.take(i as int));
        if row.handle < MAX_PLAYERS {
            kills[row.handle] = row.kills;
            deaths[row.handle] = row.deaths;
        }
        i = i + 1;
    }
    assert(rows@.take(i as int) =~= rows@);
    Outcome { wins, draws, ticks, kills, deaths }
}

/// How many ticks a match may take: every round the full clock and its
/// intermission, and the bots' arrival besides.
pub fn tick_budget(rounds: u32, round_ticks: u32, intermission_ticks: u32) -> (out: usize)
    requires
        rounds * (round_ticks + intermission_ticks) + 4 * MAX_PLAYERS <= usize::MAX,
        round_ticks + intermission_ticks <= u32::MAX,
    ensures
        out == rounds * (round_ticks + intermission_ticks) + 4 * MAX_PLAYERS,
{
    let each: usize = (round_ticks + intermission_ticks) as usize;
    assert(rounds as int * each as int == rounds * (round_ticks + intermission_ticks));
    rounds as usize * each + 4 * MAX_PLAYERS
}

/// Whether a match goes on for another tick.
pub fn keep_playing(ticks: usize, budget: usize, decided: u32, rounds: u32) -> (yes: bool)
    ensures
        yes == (ticks < budget && decided < rounds),
{
    ticks < budget && decided < rounds
}

// ---------------------------------------------------------------------------
// What holds of every match.
// ---------------------------------------------------------------------------

/// A total counts every entry once: whatever is changed in one place, the total changes
/// by just that, and a row of noughts comes to nothing.
pub proof fn a_total_counts_every_entry(row: Seq<u32>, i: int, v: u32)
    ensures
        0 <= i < row.len() ==> total(row.update(i, v)) == total(row) - row[i] + v,
        (forall|k: int| 0 <= k < row.len() ==> #[trigger] row[k] == 0) ==> total(row) == 0,
    decreases row.len(),
{
    if row.len() > 0 {
        let rest = row.drop_last();
        a_total_counts_every_entry(rest, i, v);
        if 0 <= i < row.len() - 1 {
            assert(row.update(i, v).drop_last() =~= rest.update(i, v));
        } else if i == row.len() - 1 {
            assert(row.update(i, v).drop_last() =~= rest);
        }
        if forall|k: int| 0 <= k < row.len() ==> #[trigger] row[k] == 0 {
            assert forall|k: int| 0 <= k < rest.len() implies #[trigger] rest[k] == 0 by {
                assert(rest[k] == row[k]);
            }
            assert(row[row.len() - 1] == 0);
        }
    }
}

/// A side is ahead by the rounds it won less those the other won, and whatever is not
/// the first side is the second.
pub proof fn a_side_is_ahead_by_its_own_rounds(wins: Seq<u32>, team: u8)
    ensures
        team == 0 ==> net_of(wins, team) == wins[0] - wins[1],
        team > 0 ==> net_of(wins, team) == wins[1] - wins[0],
{
}

/// A seat's kills and deaths are those of the last line for it, and none where it has no
/// line.
pub proof fn the_last_line_counts(rows: Seq<Tally>, h: int, k: int)
    requires
        0 <= h < 8,
        -1 <= k < rows.len(),
        k >= 0 ==> rows[k].handle == h,
        forall|i: int| k < i < rows.len() ==> (#[trigger] rows[i]).handle != h,
    ensures
        kills_by_handle(rows).len() == 8,
        deaths_by_handle(rows).len() == 8,
        kills_by_handle(rows)[h] == (if k >= 0 {
            rows[k].kills
        } else {
            0
        }),
        deaths_by_handle(rows)[h] == (if k >= 0 {
            rows[k].deaths
        } else {
            0
        }),
    decreases rows.len(),
{
    if rows.len() > 0 {
        let rest = rows.drop_last();
        if k < rows.len() - 1 {
            assert(rows[rows.len() - 1].handle != h);
            assert forall|i: int| k < i < rest.len() implies (#[trigger] rest[i]).handle != h by {
                assert(rest[i] == rows[i]);
            }
            if k >= 0 {
                assert(rest[k] == rows[k]);
            }
            the_last_line_counts(rest, h, k);
        } else {
            lemma_eight_seats(rest);
        }
    }
}

proof fn lemma_eight_seats(rows: Seq<Tally>)
    ensures
        kills_by_handle(rows).len() == 8,
        deaths_by_handle(rows).len() == 8,
    decreases rows.len(),
{
    if rows.len() > 0 {
        lemma_eight_seats(rows.drop_last());
    }
}

} // verus!
