//! The tally of a sequential test: trials are won, lost or tied, and the ties are
//! dropped.

use vstd::prelude::*;

verus! {

/// What the test says.
#[derive(Copy, Clone, Debug, PartialEq, Eq, Structural)]
pub enum Verdict {
    /// The candidate is better by at least the margin asked for.
    Better,
    /// It is not: either no different or worse.
    NotBetter,
    /// Not enough evidence yet.
    Undecided,
}

/// What a trial was.
#[derive(Copy, Clone, Debug, PartialEq, Eq, Structural)]
pub enum Trial {
    Win,
    Loss,
    Tie,
}

/// A trial's result is the sign of its margin.
pub open spec fn trial_of(margin: int) -> Trial {
    if margin > 0 {
        Trial::Win
    } else if margin < 0 {
        Trial::Loss
    } else {
        Trial::Tie
    }
}

/// A running tally of trials.
#[derive(Copy, Clone, Debug, PartialEq, Eq, Structural)]
pub struct Sprt {
    pub wins: u32,
    pub losses: u32,
    pub ties: u32,
}

/// A tally, as contracts speak of it.
pub struct TallyModel {
    pub wins: nat,
    pub losses: nat,
    pub ties: nat,
}

impl View for Sprt {
    type V = TallyModel;

    open spec fn view(&self) -> TallyModel {
        TallyModel { wins: self.wins as nat, losses: self.losses as nat, ties: self.ties as nat }
    }
}

/// The tally before any trial.
pub open spec fn untried() -> TallyModel {
    TallyModel { wins: 0, losses: 0, ties: 0 }
}

/// The tally after one more trial.
pub open spec fn pushed(t: TallyModel, margin: int) -> TallyModel {
    match trial_of(margin) {
        Trial::Win => TallyModel { wins: t.wins + 1, ..t },
        Trial::Loss => TallyModel { losses: t.losses + 1, ..t },
        Trial::Tie => TallyModel { ties: t.ties + 1, ..t },
    }
}

/// The tally after a row of trials.
pub open spec fn pushed_all(t: TallyModel, margins: Seq<i32>) -> TallyModel
    decreases margins.len(),
{
    if margins.len() == 0 {
        t
    } else {
        pushed(pushed_all(t, margins.drop_last()), margins.last() as int)
    }
}

/// After any row of trials the tally counts the margins above nothing, below
/// nothing and at nothing, and no trial is left out.
pub proof fn the_tally_counts_the_signs(margins: Seq<i32>)
    ensures
        ({
            let t = pushed_all(untried(), margins);
            &&& t.wins == margins.filter(|m: i32| m > 0).len()
            &&& t.losses == margins.filter(|m: i32| m < 0).len()
            &&& t.ties == margins.filter(|m: i32| m == 0).len()
            &&& t.wins + t.losses + t.ties == margins.len()
        }),
    decreases margins.len(),
{
    reveal(Seq::filter);
    if margins.len() > 0 {
        the_tally_counts_the_signs(margins.drop_last());
    }
}

/// Only the sign of a margin matters.
pub proof fn a_wide_margin_counts_no_more(t: TallyModel, a: int, b: int)
    requires
        trial_of(a) == trial_of(b),
    ensures
        pushed(t, a) == pushed(t, b),
{
}

/// A tie is no evidence: it leaves the trials that count as they were.
pub proof fn a_tie_is_no_evidence(t: TallyModel)
    ensures
        pushed(t, 0).wins == t.wins,
        pushed(t, 0).losses == t.losses,
        pushed(t, 0).ties == t.ties + 1,
{
}

impl Sprt {
    pub fn new() -> (out: Self)
        ensures
            out@ == untried(),
    {
        Sprt { wins: 0, losses: 0, ties: 0 }
    }

    /// How many trials were recorded.
    pub open spec fn recorded(self) -> int {
        self.wins + self.losses + self.ties
    }

    /// Records one trial, and says what it was.
    pub fn push(&mut self, margin: i32) -> (trial: Trial)
        requires
            old(self).recorded() < u32::MAX,
        ensures
            trial == trial_of(margin as int),
            final(self)@ == pushed(old(self)@, margin as int),
    {
        if margin > 0 {
            self.wins = self.wins + 1;
            Trial::Win
        } else if margin < 0 {
            self.losses = self.losses + 1;
            Trial::Loss
        } else {
            self.ties = self.ties + 1;
            Trial::Tie
        }
    }

    /// How many trials count: the ties do not.
    pub fn decisive(&self) -> (out: u32)
        requires
            self.recorded() <= u32::MAX,
        ensures
            out == self.wins + self.losses,
    {
        self.wins + self.losses
    }

    /// What the test says, by whether the evidence has reached the bound for better
    /// and the bound for not better.
    pub fn verdict(&self, at_upper: bool, at_lower: bool) -> (out: Verdict)
        ensures
            out == (if at_upper {
                Verdict::Better
            } else if at_lower {
                Verdict::NotBetter
            } else {
                Verdict::Undecided
            }),
    {
        if at_upper {
            Verdict::Better
        } else if at_lower {
            Verdict::NotBetter
        } else {
            Verdict::Undecided
        }
    }
}

/// A trial is won by being ahead, lost by being behind and tied by neither, and counts
/// as that and nothing else.
pub proof fn a_trial_is_what_its_sign_says(t: TallyModel, margin: int)
    ensures
        margin > 0 ==> trial_of(margin) == Trial::Win && pushed(t, margin) == (TallyModel {
            wins: t.wins + 1,
            losses: t.losses,
            ties: t.ties,
        }),
        margin < 0 ==> trial_of(margin) == Trial::Loss && pushed(t, margin) == (TallyModel {
            wins: t.wins,
            losses: t.losses + 1,
            ties: t.ties,
        }),
        margin == 0 ==> trial_of(margin) == Trial::Tie && pushed(t, margin) == (TallyModel {
            wins: t.wins,
            losses: t.losses,
            ties: t.ties + 1,
        }),
{
}

/// Contracts speak of a tally by its three counts; before any trial all are nothing.
pub proof fn a_tally_is_seen_as_it_is(t: Sprt)
    ensures
        t@.wins == t.wins,
        t@.losses == t.losses,
        t@.ties == t.ties,
        untried() == (TallyModel { wins: 0, losses: 0, ties: 0 }),
{
}

} // verus!
