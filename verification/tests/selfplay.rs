//! Bots against bots: the profiles, the command line, the tally and the test.

use army_ghosts::game::{keep_playing, read_outcome, tick_budget, Outcome, Tally};
use army_ghosts::selfplay::{
    dice_are_dead, in_index_order, lineup, number, pair_limit, pair_of, parse_args,
    parse_profile, profile_values, salt_of, ArgReading, Args, BotProfile, Command, Pair, Played,
    Reading, Run, DEFAULT_PAIRS, DEFAULT_ROUNDS, MEMORY_TICKS,
};
use army_ghosts::sprt::{Sprt, Trial, Verdict};

const FP: i32 = 1024;

fn shipping() -> BotProfile {
    BotProfile { skill: 700, accuracy: 600, reaction: 12, aggression: 500, caution: 400 }
}

fn read_unit(raw: &str) -> Reading {
    match raw.parse::<f64>() {
        Err(_) => Reading::NotANumber,
        Ok(unit) if !(0.0..=1.0).contains(&unit) => Reading::OutOfRange(format!("{unit}")),
        Ok(unit) => Reading::Fixed((unit * FP as f64).round() as i32),
    }
}

fn profile(spec: &str) -> Result<BotProfile, String> {
    let readings: Vec<Reading> = profile_values(spec)
        .iter()
        .map(|raw| read_unit(&raw.iter().collect::<String>()))
        .collect();
    parse_profile(shipping(), spec, &readings)
}

#[test]
fn a_spec_varies_one_dial() {
    let profile = profile("accuracy=0.25").expect("parse");
    let default = shipping();
    assert_eq!(profile.accuracy, FP / 4);
    assert_eq!(profile.skill, default.skill);
    assert_eq!(profile.reaction, default.reaction);
    assert_eq!(profile.aggression, default.aggression);
    assert_eq!(profile.caution, default.caution);
}

#[test]
fn specs_reject_what_they_should() {
    assert!(profile("accuracy=1.5").is_err(), "accepted a dial past 1");
    assert!(profile("nonsense=0.5").is_err(), "accepted an unknown dial");
    assert!(profile("accuracy").is_err(), "accepted a bare key");
    assert!(
        profile(&format!("reaction={MEMORY_TICKS}")).is_err(),
        "accepted a reaction the memory can't reach"
    );
    assert!(profile(&format!("reaction={}", MEMORY_TICKS - 1)).is_ok());
}

#[test]
fn specs_take_a_list() {
    let profile = profile(" skill=1.0 , reaction=3 ,caution=0.0").expect("parse");
    assert_eq!(profile.skill, FP);
    assert_eq!(profile.reaction, 3);
    assert_eq!(profile.caution, 0);
    assert_eq!(profile.accuracy, shipping().accuracy);
}

#[test]
fn every_complaint_is_spelled_out() {
    let complaint = |spec: &str| profile(spec).expect_err("accepted");
    assert_eq!(complaint("accuracy"), "`accuracy` should be key=value");
    assert_eq!(complaint("accuracy=soon"), "`soon` isn't a number");
    assert_eq!(complaint(" accuracy = 1.5 "), "accuracy is a 0..1 dial, got 1.5");
    assert_eq!(complaint("luck=0.5"), "no dial called `luck`");
    assert_eq!(complaint("reaction=fast"), "`fast` isn't a number");
    assert_eq!(
        complaint("reaction=24"),
        "reaction 24 is past the 24-tick memory; the bot cannot remember that far back"
    );
    assert_eq!(complaint("luck=2,accuracy"), "luck is a 0..1 dial, got 2", "the first counts");
    assert_eq!(profile("").expect("nothing to vary"), shipping());
    assert_eq!(profile(" , ,").expect("blanks are skipped"), shipping());
}

#[test]
fn numbers_are_read_whole() {
    assert_eq!(number::<u32>("42"), Ok(42));
    assert_eq!(number::<usize>("+7"), Ok(7));
    assert_eq!(number::<u32>("4294967296"), Err("`4294967296` isn't a number".to_string()));
    assert_eq!(number::<u32>(""), Err("`` isn't a number".to_string()));
    assert_eq!(number::<usize>("1.5"), Err("`1.5` isn't a number".to_string()));
}

fn command(argv: &[&str]) -> Result<Command, String> {
    let argv: Vec<String> = argv.iter().map(|a| a.to_string()).collect();
    let readings: Vec<ArgReading> = argv
        .iter()
        .map(|a| ArgReading { is_rate: a.parse::<f64>().is_ok(), profile: profile(a) })
        .collect();
    let defaults = Args {
        candidate: shipping(),
        baseline: shipping(),
        rounds: DEFAULT_ROUNDS,
        pairs: DEFAULT_PAIRS,
        jobs: 3,
        p1: None,
        alpha: None,
        beta: None,
        quiet: false,
    };
    parse_args(&argv, &readings, defaults)
}

#[test]
fn the_command_line_is_read() {
    let Ok(Command::Run(args)) = command(&[]) else { panic!("defaults") };
    assert_eq!((args.rounds, args.pairs, args.jobs), (9, 150, 3));
    let Ok(Command::Run(args)) = command(&[
        "-q", "-c", "reaction=3", "--baseline", "reaction=23", "--rounds", "0", "--pairs", "12",
        "--jobs", "0", "--p1", "0.7", "--alpha", "0.01", "--beta", "0.02",
    ]) else {
        panic!("refused")
    };
    assert!(args.quiet);
    assert_eq!((args.candidate.reaction, args.baseline.reaction), (3, 23));
    assert_eq!((args.rounds, args.pairs, args.jobs), (1, 12, 1));
    assert_eq!(args.p1.as_deref(), Some("0.7"));
    assert_eq!(args.alpha.as_deref(), Some("0.01"));
    assert_eq!(args.beta.as_deref(), Some("0.02"));
}

#[test]
fn the_command_line_complains() {
    let complaint = |argv: &[&str]| match command(argv) {
        Err(message) => message,
        Ok(_) => panic!("accepted {argv:?}"),
    };
    assert_eq!(complaint(&["--what"]), "unknown option --what");
    assert_eq!(complaint(&["--rounds"]), "--rounds needs a value");
    assert_eq!(complaint(&["--rounds", "many"]), "`many` isn't a number");
    assert_eq!(complaint(&["--p1", "high"]), "`high` isn't a number");
    assert_eq!(complaint(&["-c", "luck=0.5"]), "no dial called `luck`");
    assert!(matches!(command(&["-q", "--help", "--what"]), Ok(Command::Help)));
    assert!(matches!(command(&["-h"]), Ok(Command::Help)));
}

fn outcome(a: u32, b: u32, draws: u32) -> Outcome {
    Outcome { wins: [a, b], draws, ticks: 100, kills: [1; 8], deaths: [1; 8] }
}

#[test]
fn the_two_sides_differentials_cancel() {
    let outcome = outcome(2, 1, 0);
    assert_eq!(outcome.net(0), -outcome.net(1));
    assert_eq!(outcome.total_kills(), outcome.total_deaths(), "a death went uncredited");
    assert_eq!(outcome.net(0), 1);
    assert_eq!(outcome.net(9), -1, "anything past the last side is the last");
}

#[test]
fn an_outcome_is_read_off_the_board() {
    let rows = vec![
        Tally { handle: 7, kills: 4, deaths: 1 },
        Tally { handle: 0, kills: 2, deaths: 3 },
        Tally { handle: 8, kills: 9, deaths: 9 },
    ];
    let outcome = read_outcome([3, 1], 2, 500, &rows);
    assert_eq!(outcome.kills, [2, 0, 0, 0, 0, 0, 0, 4]);
    assert_eq!(outcome.deaths, [3, 0, 0, 0, 0, 0, 0, 1]);
    assert_eq!((outcome.rounds(), outcome.ticks), (6, 500));
    assert_eq!((outcome.total_kills(), outcome.total_deaths()), (6, 4));
    assert_eq!(tick_budget(9, 7200, 300), 9 * 7500 + 32);
    assert!(keep_playing(0, 1, 0, 1) && !keep_playing(1, 1, 0, 1) && !keep_playing(0, 1, 1, 1));
}

#[test]
fn a_pair_adds_both_ends_of_the_field() {
    let pair = pair_of(&outcome(5, 3, 1), &outcome(4, 4, 0));
    assert_eq!(pair, Pair { margin: 2, kills: 16, ticks: 200, draws: 1 });
    assert_eq!(pair_of(&outcome(5, 3, 1), &outcome(5, 3, 1)).margin, 0, "a mirror image ties");
    let (a, b) = (shipping(), BotProfile { skill: 0, ..shipping() });
    assert_eq!(lineup(a, b, 1, &vec![0, 1, 1, 0]), vec![b, a, a, b]);
}

#[test]
fn dead_dice_allow_one_pair() {
    let sharp = BotProfile { accuracy: FP, ..shipping() };
    assert!(dice_are_dead(sharp, sharp, FP));
    assert!(!dice_are_dead(sharp, shipping(), FP));
    assert_eq!((pair_limit(150, true), pair_limit(150, false), pair_limit(0, true)), (1, 150, 0));
    assert_eq!((salt_of(0), salt_of(41)), (1, 42));
}

#[test]
fn a_run_adds_up() {
    let pair = |margin| Pair { margin, kills: 3, ticks: 1000, draws: 2 };
    let mut run = Run::new();
    assert_eq!(run.next_batch(5, 4, Verdict::Undecided), Some(4));
    let finished = vec![
        Played { index: 2, pair: pair(0) },
        Played { index: 0, pair: pair(4) },
        Played { index: 1, pair: pair(-1) },
        Played { index: 3, pair: pair(0) },
    ];
    let ordered: Vec<usize> = in_index_order(&finished).iter().map(|p| p.index).collect();
    assert_eq!(ordered, vec![0, 1, 2, 3]);
    let recorded = run.record_batch(&finished);
    let trials: Vec<Trial> = recorded.iter().map(|r| r.trial).collect();
    assert_eq!(trials, vec![Trial::Win, Trial::Loss, Trial::Tie, Trial::Tie]);
    let order: Vec<usize> = recorded.iter().map(|r| r.played.index).collect();
    assert_eq!(order, vec![0, 1, 2, 3]);
    assert_eq!(recorded[1].after.sprt, Sprt { wins: 1, losses: 1, ties: 0 });
    assert_eq!(recorded[3].after, run);
    assert_eq!(run.sprt, Sprt { wins: 1, losses: 1, ties: 2 });
    assert_eq!((run.played, run.kills, run.ticks, run.drawn), (4, 12, 4000, 8));
    assert_eq!(run.next_batch(5, 4, Verdict::Undecided), Some(1));
    assert_eq!(run.next_batch(5, 4, Verdict::Better), None);
    assert_eq!(run.next_batch(4, 4, Verdict::Undecided), None);
    let rounds = run.rounds_played(1);
    assert_eq!(rounds, 8);
    assert_eq!(run.fighting_ticks(rounds, 300), 1600);
    assert_eq!(run.fighting_ticks(rounds, 600), 0);
    assert!(run.mostly_drawn(rounds) && !run.mostly_drawn(16));
    assert!(!run.mostly_tied());
    run.record(pair(0));
    assert!(run.mostly_tied());
}

#[test]
fn a_run_is_the_same_whatever_finishes_first() {
    let margins = [3, -2, 0, 5, -1, 1, 0];
    let play = |jobs: usize, backward: bool| {
        let mut run = Run::new();
        while let Some(size) = run.next_batch(margins.len(), jobs, Verdict::Undecided) {
            let mut batch: Vec<Played> = (run.played..run.played + size)
                .map(|index| Played {
                    index,
                    pair: Pair { margin: margins[index], kills: 1, ticks: 10, draws: 0 },
                })
                .collect();
            if backward {
                batch.reverse();
            }
            run.record_batch(&batch);
        }
        run
    };
    let one_by_one = play(1, false);
    assert_eq!(one_by_one.sprt, Sprt { wins: 3, losses: 2, ties: 2 });
    assert_eq!(one_by_one.played, 7);
    assert_eq!(play(3, true), one_by_one);
    assert_eq!(play(7, true), one_by_one);
}

#[test]
fn exchanging_the_bots_turns_the_margin() {
    let (a, b) = (shipping(), BotProfile { skill: 0, ..shipping() });
    let sides = vec![0, 1, 0, 1, 0, 1, 0, 1];
    assert_eq!(lineup(a, b, 0, &sides), lineup(b, a, 1, &sides));
    let (west, east) = (outcome(5, 3, 1), outcome(2, 6, 0));
    let (there, back) = (pair_of(&west, &east), pair_of(&east, &west));
    assert_eq!(there.margin, 6);
    assert_eq!(back.margin, -6);
    assert_eq!((there.kills, there.ticks, there.draws), (back.kills, back.ticks, back.draws));
}

#[test]
fn only_the_sign_of_a_margin_counts() {
    let (mut wide, mut narrow) = (Sprt::new(), Sprt::new());
    for (a, b) in [(5, 1), (-9, -1), (0, 0), (2, 7)] {
        assert_eq!(wide.push(a), narrow.push(b));
    }
    assert_eq!(wide, narrow);
    assert_eq!(wide, Sprt { wins: 2, losses: 1, ties: 1 });
}

/// The evidence behind the tally, as the driver keeps it.
struct Evidence {
    tally: Sprt,
    p1: f64,
    upper: f64,
    lower: f64,
    llr: f64,
}

impl Evidence {
    fn new(p1: f64, alpha: f64, beta: f64) -> Self {
        Self {
            tally: Sprt::new(),
            p1,
            upper: ((1.0 - beta) / alpha).ln(),
            lower: (beta / (1.0 - alpha)).ln(),
            llr: 0.0,
        }
    }

    fn push(&mut self, margin: i32) {
        match self.tally.push(margin) {
            Trial::Win => self.llr += (self.p1 / 0.5).ln(),
            Trial::Loss => self.llr += ((1.0 - self.p1) / 0.5).ln(),
            Trial::Tie => {}
        }
    }

    fn verdict(&self) -> Verdict {
        self.tally.verdict(self.llr >= self.upper, self.llr <= self.lower)
    }

    fn rate(&self) -> f64 {
        if self.tally.decisive() == 0 {
            return 0.5;
        }
        self.tally.wins as f64 / self.tally.decisive() as f64
    }
}

#[test]
fn a_streak_decides_and_a_short_one_does_not() {
    let mut sprt = Evidence::new(0.6, 0.05, 0.05);
    sprt.push(1);
    assert_eq!(sprt.verdict(), Verdict::Undecided, "one pair decided a match-up");
    for _ in 0..40 {
        sprt.push(1);
    }
    assert_eq!(sprt.verdict(), Verdict::Better);

    let mut sprt = Evidence::new(0.6, 0.05, 0.05);
    for _ in 0..40 {
        sprt.push(-1);
    }
    assert_eq!(sprt.verdict(), Verdict::NotBetter);
}

#[test]
fn an_even_split_never_decides_better() {
    let mut sprt = Evidence::new(0.6, 0.05, 0.05);
    for _ in 0..500 {
        sprt.push(1);
        sprt.push(-1);
    }
    assert_ne!(sprt.verdict(), Verdict::Better);
    assert!((sprt.rate() - 0.5).abs() < 1e-9);
}

#[test]
fn ties_move_nothing() {
    let mut sprt = Evidence::new(0.6, 0.05, 0.05);
    for _ in 0..100 {
        sprt.push(0);
    }
    assert_eq!(sprt.tally.ties, 100);
    assert_eq!(sprt.tally.decisive(), 0);
    assert_eq!(sprt.llr, 0.0);
    assert_eq!(sprt.verdict(), Verdict::Undecided);
}
