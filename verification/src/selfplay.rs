//! Measuring one bot against another by playing them: what to measure, and how the
//! results add up.

use vstd::prelude::*;

use crate::game;
use crate::game::Outcome;
use crate::order;
use crate::order::Ranked;
use crate::sprt;
use crate::sprt::{Sprt, TallyModel, Trial, Verdict};
use crate::text;
use crate::TEAM_COUNT;

verus! {

/// How many ticks back a bot remembers.
pub const MEMORY_TICKS: usize = 24;

/// Rounds in a match, and pairs to give up after, where nobody says.
pub const DEFAULT_ROUNDS: u32 = 9;

pub const DEFAULT_PAIRS: usize = 150;

/// A bot's dials. All but the reaction are in fixed point.
#[derive(Copy, Clone, Debug, PartialEq, Eq, Structural)]
pub struct BotProfile {
    pub skill: i32,
    pub accuracy: i32,
    pub reaction: u8,
    pub aggression: i32,
    pub caution: i32,
}

// ---------------------------------------------------------------------------
// Numbers.
// ---------------------------------------------------------------------------

/// Numbers that can be read out of a text.
pub trait Number: Sized {
    spec fn reading(t: Seq<char>) -> Option<Self>;

    fn read(t: &Vec<char>) -> (out: Option<Self>)
        ensures
            out == Self::reading(t@),
    ;
}

impl Number for u32 {
    open spec fn reading(t: Seq<char>) -> Option<Self> {
        match text::read_unsigned(t, u32::MAX as nat) {
            Some(n) => Some(n as u32),
            None => None,
        }
    }

    fn read(t: &Vec<char>) -> (out: Option<Self>) {
        match text::parse_unsigned(t, u32::MAX as u64) {
            Some(n) => Some(n as u32),
            None => None,
        }
    }
}

impl Number for usize {
    open spec fn reading(t: Seq<char>) -> Option<Self> {
        match text::read_unsigned(t, usize::MAX as nat) {
            Some(n) => Some(n as usize),
            None => None,
        }
    }

    fn read(t: &Vec<char>) -> (out: Option<Self>) {
        match text::parse_unsigned(t, usize::MAX as u64) {
            Some(n) => Some(n as usize),
            None => None,
        }
    }
}

/// What is said of a text that should have been a number.
pub open spec fn no_number_text(t: Seq<char>) -> Seq<char> {
    "`"@ + t + "` isn't a number"@
}

fn no_number(t: &str) -> (out: String)
    ensures
        out@ == no_number_text(t@),
{
    let mut out: String = text::copy_of("`");
    out.append(t);
    out.append("` isn't a number");
    out
}

/// The number that a text is.
pub fn number<T: Number>(t: &str) -> (out: Result<T, String>)
    ensures
        match out {
            Ok(n) => T::reading(t@) == Some(n),
            Err(message) => T::reading(t@) is None && message@ == no_number_text(t@),
        },
{
    let chars = text::chars_of(t);
    match T::read(&chars) {
        Some(n) => Ok(n),
        None => Err(no_number(t)),
    }
}

// ---------------------------------------------------------------------------
// Profiles.
// ---------------------------------------------------------------------------

/// What a dial's text says: no number, a number that is no setting of a dial (as
/// it is shown), or a setting in fixed point.
#[derive(Debug)]
pub enum Reading {
    NotANumber,
    OutOfRange(String),
    Fixed(i32),
}

/// The fields of a profile's text: what stands between its commas, without the
/// blank ones.
pub open spec fn fields_of(parts: Seq<Seq<char>>) -> Seq<Seq<char>>
    decreases parts.len(),
{
    if parts.len() == 0 {
        Seq::empty()
    } else if text::is_blank(parts.last()) {
        fields_of(parts.drop_last())
    } else {
        fields_of(parts.drop_last()).push(parts.last())
    }
}

pub open spec fn profile_fields(t: Seq<char>) -> Seq<Seq<char>> {
    fields_of(text::split(t, ','))
}

/// The value's text in a field, empty where it has none.
pub open spec fn field_value(field: Seq<char>) -> Seq<char> {
    match text::cut(field, '=') {
        Some((key, raw)) => text::trimmed(raw),
        None => Seq::empty(),
    }
}

/// What one field does to a profile.
pub open spec fn field_set(profile: BotProfile, field: Seq<char>, reading: Reading) -> Result<
    BotProfile,
    Seq<char>,
> {
    match text::cut(field, '=') {
        None => Err("`"@ + field + "` should be key=value"@),
        Some((name, raw)) => {
            let key = text::trimmed(name);
            let value = text::trimmed(raw);
            if key == "reaction"@ {
                match text::read_unsigned(value, u32::MAX as nat) {
                    None => Err(no_number_text(value)),
                    Some(ticks) => if ticks >= MEMORY_TICKS {
                        Err(
                            "reaction "@ + text::decimal(ticks) + " is past the "@ + text::decimal(
                                MEMORY_TICKS as nat,
                            ) + "-tick memory; the bot cannot remember that far back"@,
                        )
                    } else {
                        Ok(BotProfile { reaction: ticks as u8, ..profile })
                    },
                }
            } else {
                match reading {
                    Reading::NotANumber => Err(no_number_text(value)),
                    Reading::OutOfRange(shown) => Err(key + " is a 0..1 dial, got "@ + shown@),
                    Reading::Fixed(fixed) => if key == "skill"@ {
                        Ok(BotProfile { skill: fixed, ..profile })
                    } else if key == "accuracy"@ {
                        Ok(BotProfile { accuracy: fixed, ..profile })
                    } else if key == "aggression"@ {
                        Ok(BotProfile { aggression: fixed, ..profile })
                    } else if key == "caution"@ {
                        Ok(BotProfile { caution: fixed, ..profile })
                    } else {
                        Err("no dial called `"@ + key + "`"@)
                    },
                }
            }
        },
    }
}

/// What the fields do to a profile, one after the other, up to the first that is
/// wrong.
pub open spec fn fields_set(
    base: BotProfile,
    fields: Seq<Seq<char>>,
    readings: Seq<Reading>,
) -> Result<BotProfile, Seq<char>>
    decreases fields.len(),
{
    if fields.len() == 0 {
        Ok(base)
    } else {
        match fields_set(base, fields.drop_last(), readings) {
            Ok(profile) => field_set(profile, fields.last(), readings[fields.len() - 1]),
            Err(message) => Err(message),
        }
    }
}

fn list_fields(t: &str) -> (out: Vec<Vec<char>>)
    ensures
        text::views(out@) == profile_fields(t@),
{
    let chars = text::chars_of(t);
    let parts = text::split_all(&chars, ',');
    let ghost all = text::views(parts@);
    let mut out: Vec<Vec<char>> = Vec::new();
    let mut i: usize = 0;
    assert(all.take(0) =~= Seq::empty());
    assert(text::views(out@) =~= Seq::empty());
    while i < parts.len()
        invariant
            i <= parts.len(),
            all == text::views(parts@),
            text::views(out@) == fields_of(all.take(i as int)),
        decreases parts.len() - i,
    {
        let ghost before = text::views(out@);
        proof {
            assert(all.take(i + 1).drop_last() =~= all.take(i as int));
            assert(all.take(i + 1).last() == parts@[i as int]@);
        }
        if !text::blank(&parts[i]) {
            let next = text::piece(&parts[i], 0, parts[i].len());
            assert(next@ =~= parts@[i as int]@);
            out.push(next);
            assert(text::views(out@) =~= before.push(next@));
        }
        i = i + 1;
    }
    assert(all.take(i as int) =~= all);
    out
}

/// The values' texts of a profile's fields, in order: what has to be read as
/// numbers between nothing and one.
pub fn profile_values(t: &str) -> (out: Vec<Vec<char>>)
    ensures
        text::views(out@) == profile_fields(t@).map_values(|f: Seq<char>| field_value(f)),
{
    let fields = list_fields(t);
    let ghost wanted = profile_fields(t@).map_values(|f: Seq<char>| field_value(f));
    let mut out: Vec<Vec<char>> = Vec::new();
    let mut i: usize = 0;
    assert(text::views(out@) =~= wanted.take(0));
    while i < fields.len()
        invariant
            i <= fields.len(),
            text::views(fields@) == profile_fields(t@),
            wanted == profile_fields(t@).map_values(|f: Seq<char>| field_value(f)),
            text::views(out@) == wanted.take(i as int),
        decreases fields.len() - i,
    {
        let ghost before = text::views(out@);
        assert(text::views(fields@)[i as int] == fields@[i as int]@);
        let value: Vec<char> = match text::split_once(&fields[i], '=') {
            Some(halves) => text::trim(&halves.1),
            None => Vec::new(),
        };
        assert(value@ =~= wanted[i as int]);
        out.push(value);
        assert(text::views(out@) =~= before.push(value@));
        assert(wanted.take(i + 1) =~= before.push(wanted[i as int]));
        i = i + 1;
    }
    assert(wanted.take(i as int) =~= wanted);
    out
}

fn set_field(profile: BotProfile, field: &Vec<char>, reading: &Reading) -> (out: Result<
    BotProfile,
    String,
>)
    ensures
        match out {
            Ok(p) => field_set(profile, field@, *reading) == Ok::<BotProfile, Seq<char>>(p),
            Err(m) => field_set(profile, field@, *reading) == Err::<BotProfile, Seq<char>>(m@),
        },
{
    let (name, raw) = match text::split_once(field, '=') {
        Some(halves) => halves,
        None => {
            let mut message: String = text::copy_of("`");
            let shown = text::string_of(field);
            message.append(shown.as_str());
            message.append("` should be key=value");
            return Err(message);
        },
    };
    let key = text::trim(&name);
    let value = text::trim(&raw);
    if text::spells(&key, "reaction") {
        let ticks: u64 = match text::parse_unsigned(&value, u32::MAX as u64) {
            Some(n) => n,
            None => {
                let shown = text::string_of(&value);
                return Err(no_number(shown.as_str()));
            },
        };
        if ticks as usize >= MEMORY_TICKS {
            let mut message: String = text::copy_of("reaction ");
            text::append_number(&mut message, ticks as u128);
            message.append(" is past the ");
            text::append_number(&mut message, MEMORY_TICKS as u128);
            message.append("-tick memory; the bot cannot remember that far back");
            return Err(message);
        }
        return Ok(BotProfile { reaction: ticks as u8, ..profile });
    }
    match reading {
        Reading::NotANumber => {
            let shown = text::string_of(&value);
            Err(no_number(shown.as_str()))
        },
        Reading::OutOfRange(shown) => {
            let mut message: String = text::string_of(&key);
            message.append(" is a 0..1 dial, got ");
            message.append(shown.as_str());
            Err(message)
        },
        Reading::Fixed(fixed) => {
            if text::spells(&key, "skill") {
                Ok(BotProfile { skill: *fixed, ..profile })
            } else if text::spells(&key, "accuracy") {
                Ok(BotProfile { accuracy: *fixed, ..profile })
            } else if text::spells(&key, "aggression") {
                Ok(BotProfile { aggression: *fixed, ..profile })
            } else if text::spells(&key, "caution") {
                Ok(BotProfile { caution: *fixed, ..profile })
            } else {
                let mut message: String = text::copy_of("no dial called `");
                let shown = text::string_of(&key);
                message.append(shown.as_str());
                message.append("`");
                Err(message)
            }
        },
    }
}

/// `skill=0.8,reaction=6` onto a profile: a text says what is varied, and nothing
/// else moves with it. `readings` holds, in order, what the fields' values say
/// (see [`profile_values`]).
pub fn parse_profile(base: BotProfile, t: &str, readings: &Vec<Reading>) -> (out: Result<
    BotProfile,
    String,
>)
    requires
        readings.len() == profile_fields(t@).len(),
    ensures
        match out {
            Ok(p) => fields_set(base, profile_fields(t@), readings@) == Ok::<
                BotProfile,
                Seq<char>,
            >(p),
            Err(m) => fields_set(base, profile_fields(t@), readings@) == Err::<
                BotProfile,
                Seq<char>,
            >(m@),
        },
{
    let fields = list_fields(t);
    let ghost all = profile_fields(t@);
    let mut profile = base;
    let mut i: usize = 0;
    assert(all.take(0) =~= Seq::empty());
    while i < fields.len()
        invariant
            i <= fields.len(),
            all == text::views(fields@),
            readings.len() == all.len(),
            all == profile_fields(t@),
            fields_set(base, all.take(i as int), readings@) == Ok::<BotProfile, Seq<char>>(
                profile,
            ),
        decreases fields.len() - i,
    {
        proof {
            assert(all.take(i + 1).drop_last() =~= all.take(i as int));
            assert(all.take(i + 1).last() == fields@[i as int]@);
        }
        match set_field(profile, &fields[i], &readings[i]) {
            Ok(next) => {
                profile = next;
            },
            Err(message) => {
                proof {
                    lemma_error_stays(base, all, readings@, i + 1);
                    assert(all.take(all.len() as int) =~= all);
                }
                return Err(message);
            },
        }
        i = i + 1;
    }
    assert(all.take(i as int) =~= all);
    Ok(profile)
}

proof fn lemma_error_stays(
    base: BotProfile,
    fields: Seq<Seq<char>>,
    readings: Seq<Reading>,
    i: int,
)
    requires
        0 <= i <= fields.len(),
        fields_set(base, fields.take(i), readings) is Err,
    ensures
        fields_set(base, fields, readings) == fields_set(base, fields.take(i), readings),
    decreases fields.len() - i,
{
    if i < fields.len() {
        assert(fields.take(i + 1).drop_last() =~= fields.take(i));
        lemma_error_stays(base, fields, readings, i + 1);
    } else {
        assert(fields.take(i) =~= fields);
    }
}

/// One field moves one dial at most: whatever it does not name stays.
pub proof fn a_field_varies_one_dial(profile: BotProfile, field: Seq<char>, reading: Reading)
    ensures
        field_set(profile, field, reading) matches Ok(next) ==> {
            ||| next == BotProfile { skill: next.skill, ..profile }
            ||| next == BotProfile { accuracy: next.accuracy, ..profile }
            ||| next == BotProfile { reaction: next.reaction, ..profile }
            ||| next == BotProfile { aggression: next.aggression, ..profile }
            ||| next == BotProfile { caution: next.caution, ..profile }
        },
{
}

/// No profile that was read reacts slower than a bot can remember, if the one it
/// is based on does not.
pub proof fn a_bot_remembers_as_far_as_it_reacts(
    base: BotProfile,
    fields: Seq<Seq<char>>,
    readings: Seq<Reading>,
)
    requires
        base.reaction < MEMORY_TICKS,
    ensures
        fields_set(base, fields, readings) matches Ok(profile) ==> profile.reaction < MEMORY_TICKS,
    decreases fields.len(),
{
    if fields.len() > 0 {
        a_bot_remembers_as_far_as_it_reacts(base, fields.drop_last(), readings);
    }
}

// ---------------------------------------------------------------------------
// The command line.
// ---------------------------------------------------------------------------

/// What to measure. The three rates are still the texts they came as.
#[derive(Debug)]
pub struct Args {
    pub candidate: BotProfile,
    pub baseline: BotProfile,
    pub rounds: u32,
    pub pairs: usize,
    pub jobs: usize,
    pub p1: Option<String>,
    pub alpha: Option<String>,
    pub beta: Option<String>,
    pub quiet: bool,
}

#[verifier::ext_equal]
pub struct ArgsModel {
    pub candidate: BotProfile,
    pub baseline: BotProfile,
    pub rounds: u32,
    pub pairs: usize,
    pub jobs: usize,
    pub p1: Option<Seq<char>>,
    pub alpha: Option<Seq<char>>,
    pub beta: Option<Seq<char>>,
    pub quiet: bool,
}

impl View for Args {
    type V = ArgsModel;

    open spec fn view(&self) -> ArgsModel {
        ArgsModel {
            candidate: self.candidate,
            baseline: self.baseline,
            rounds: self.rounds,
            pairs: self.pairs,
            jobs: self.jobs,
            p1: crate::wire::text_view(self.p1),
            alpha: crate::wire::text_view(self.alpha),
            beta: crate::wire::text_view(self.beta),
            quiet: self.quiet,
        }
    }
}

/// What an argument says if it is taken for a rate or for a profile.
#[derive(Debug)]
pub struct ArgReading {
    /// Whether it reads as a number with a point.
    pub is_rate: bool,
    /// The profile that it describes, or what is wrong with it.
    pub profile: Result<BotProfile, String>,
}

/// What the command line asks for.
#[derive(Debug)]
pub enum Command {
    Help,
    Run(Args),
}

pub enum CommandModel {
    Help,
    Run(ArgsModel),
}

pub open spec fn command_view(command: Command) -> CommandModel {
    match command {
        Command::Help => CommandModel::Help,
        Command::Run(args) => CommandModel::Run(args@),
    }
}

pub open spec fn at_least_one(n: int) -> int {
    if n < 1 {
        1
    } else {
        n
    }
}

/// What an option with a value does, or what is wrong with the value.
pub open spec fn option_set(
    args: ArgsModel,
    flag: Seq<char>,
    value: Seq<char>,
    reading: ArgReading,
) -> Result<ArgsModel, Seq<char>> {
    if flag == "-c"@ || flag == "--candidate"@ {
        match reading.profile {
            Ok(p) => Ok(ArgsModel { candidate: p, ..args }),
            Err(m) => Err(m@),
        }
    } else if flag == "-b"@ || flag == "--baseline"@ {
        match reading.profile {
            Ok(p) => Ok(ArgsModel { baseline: p, ..args }),
            Err(m) => Err(m@),
        }
    } else if flag == "--rounds"@ {
        match <u32 as Number>::reading(value) {
            Some(n) => Ok(ArgsModel { rounds: at_least_one(n as int) as u32, ..args }),
            None => Err(no_number_text(value)),
        }
    } else if flag == "--pairs"@ {
        match <usize as Number>::reading(value) {
            Some(n) => Ok(ArgsModel { pairs: n, ..args }),
            None => Err(no_number_text(value)),
        }
    } else if flag == "--jobs"@ {
        match <usize as Number>::reading(value) {
            Some(n) => Ok(ArgsModel { jobs: at_least_one(n as int) as usize, ..args }),
            None => Err(no_number_text(value)),
        }
    } else if !reading.is_rate {
        Err(no_number_text(value))
    } else if flag == "--p1"@ {
        Ok(ArgsModel { p1: Some(value), ..args })
    } else if flag == "--alpha"@ {
        Ok(ArgsModel { alpha: Some(value), ..args })
    } else {
        Ok(ArgsModel { beta: Some(value), ..args })
    }
}

/// Whether an option takes a value.
pub open spec fn takes_value(flag: Seq<char>) -> bool {
    ||| flag == "-c"@
    ||| flag == "--candidate"@
    ||| flag == "-b"@
    ||| flag == "--baseline"@
    ||| flag == "--rounds"@
    ||| flag == "--pairs"@
    ||| flag == "--jobs"@
    ||| flag == "--p1"@
    ||| flag == "--alpha"@
    ||| flag == "--beta"@
}

/// What the arguments from the `i`-th on ask for, on top of `args`: the first
/// request for help, or the first thing that is wrong, ends it.
pub open spec fn asked(
    argv: Seq<Seq<char>>,
    readings: Seq<ArgReading>,
    i: int,
    args: ArgsModel,
) -> Result<CommandModel, Seq<char>>
    decreases argv.len() - i,
{
    if i >= argv.len() {
        Ok(CommandModel::Run(args))
    } else {
        let flag = argv[i];
        if flag == "-h"@ || flag == "--help"@ {
            Ok(CommandModel::Help)
        } else if flag == "-q"@ || flag == "--quiet"@ {
            asked(argv, readings, i + 1, ArgsModel { quiet: true, ..args })
        } else if !takes_value(flag) {
            Err("unknown option "@ + flag)
        } else if i + 1 >= argv.len() {
            Err(flag + " needs a value"@)
        } else {
            match option_set(args, flag, argv[i + 1], readings[i + 1]) {
                Ok(next) => asked(argv, readings, i + 2, next),
                Err(message) => Err(message),
            }
        }
    }
}

pub open spec fn argv_view(argv: Seq<String>) -> Seq<Seq<char>> {
    argv.map_values(|s: String| s@)
}

fn copy_profile(reading: &ArgReading) -> (out: Result<BotProfile, String>)
    ensures
        match reading.profile {
            Ok(p) => out matches Ok(got) && got == p,
            Err(m) => out matches Err(got) && got@ == m@,
        },
{
    match &reading.profile {
        Ok(p) => Ok(*p),
        Err(m) => Err(text::copy_of(m.as_str())),
    }
}

fn set_option(args: Args, flag: &str, value: &str, reading: &ArgReading) -> (out: Result<
    Args,
    String,
>)
    requires
        takes_value(flag@),
    ensures
        match out {
            Ok(next) => option_set(args@, flag@, value@, *reading) == Ok::<ArgsModel, Seq<char>>(
                next@,
            ),
            Err(m) => option_set(args@, flag@, value@, *reading) == Err::<ArgsModel, Seq<char>>(
                m@,
            ),
        },
{
    if text::same_str(flag, "-c") || text::same_str(flag, "--candidate") {
        return match copy_profile(reading) {
            Ok(p) => Ok(Args { candidate: p, ..args }),
            Err(m) => Err(m),
        };
    }
    if text::same_str(flag, "-b") || text::same_str(flag, "--baseline") {
        return match copy_profile(reading) {
            Ok(p) => Ok(Args { baseline: p, ..args }),
            Err(m) => Err(m),
        };
    }
    if text::same_str(flag, "--rounds") {
        return match number::<u32>(value) {
            Ok(n) => Ok(
                Args {
                    rounds: if n < 1 {
                        1
                    } else {
                        n
                    },
                    ..args
                },
            ),
            Err(m) => Err(m),
        };
    }
    if text::same_str(flag, "--pairs") {
        return match number::<usize>(value) {
            Ok(n) => Ok(Args { pairs: n, ..args }),
            Err(m) => Err(m),
        };
    }
    if text::same_str(flag, "--jobs") {
        return match number::<usize>(value) {
            Ok(n) => Ok(
                Args {
                    jobs: if n < 1 {
                        1
                    } else {
                        n
                    },
                    ..args
                },
            ),
            Err(m) => Err(m),
        };
    }
    if !reading.is_rate {
        return Err(no_number(value));
    }
    let kept = text::copy_of(value);
    if text::same_str(flag, "--p1") {
        Ok(Args { p1: Some(kept), ..args })
    } else if text::same_str(flag, "--alpha") {
        Ok(Args { alpha: Some(kept), ..args })
    } else {
        Ok(Args { beta: Some(kept), ..args })
    }
}

fn wants_value(flag: &str) -> (yes: bool)
    ensures
        yes == takes_value(flag@),
{
    text::same_str(flag, "-c") || text::same_str(flag, "--candidate") || text::same_str(flag, "-b")
        || text::same_str(flag, "--baseline") || text::same_str(flag, "--rounds")
        || text::same_str(flag, "--pairs") || text::same_str(flag, "--jobs") || text::same_str(
        flag,
        "--p1",
    ) || text::same_str(flag, "--alpha") || text::same_str(flag, "--beta")
}

/// Reads the command line, starting from `defaults`. `readings` says of each
/// argument what it is as a rate and as a profile.
pub fn parse_args(argv: &Vec<String>, readings: &Vec<ArgReading>, defaults: Args) -> (out: Result<
    Command,
    String,
>)
    requires
        readings.len() == argv.len(),
        argv.len() < usize::MAX,
    ensures
        match out {
            Ok(command) => asked(argv_view(argv@), readings@, 0, defaults@) == Ok::<
                CommandModel,
                Seq<char>,
            >(command_view(command)),
            Err(m) => asked(argv_view(argv@), readings@, 0, defaults@) == Err::<
                CommandModel,
                Seq<char>,
            >(m@),
        },
{
    let mut args = defaults;
    let mut i: usize = 0;
    let ghost all = argv_view(argv@);
    while i < argv.len()
        invariant
            i <= argv.len() < usize::MAX,
            readings.len() == argv.len(),
            all == argv_view(argv@),
            asked(all, readings@, 0, defaults@) == asked(all, readings@, i as int, args@),
        decreases argv.len() - i,
    {
        let flag = argv[i].as_str();
        assert(all[i as int] == flag@);
        if text::same_str(flag, "-h") || text::same_str(flag, "--help") {
            return Ok(Command::Help);
        }
        if text::same_str(flag, "-q") || text::same_str(flag, "--quiet") {
            args = Args { quiet: true, ..args };
            i = i + 1;
        } else if !wants_value(flag) {
            let mut message: String = text::copy_of("unknown option ");
            message.append(flag);
            return Err(message);
        } else if i + 1 >= argv.len() {
            let mut message: String = text::copy_of(flag);
            message.append(" needs a value");
            return Err(message);
        } else {
            assert(all[i + 1] == argv@[i + 1]@);
            match set_option(args, flag, argv[i + 1].as_str(), &readings[i + 1]) {
                Ok(next) => {
                    args = next;
                },
                Err(message) => {
                    return Err(message);
                },
            }
            i = i + 2;
        }
    }
    Ok(Command::Run(args))
}

// ---------------------------------------------------------------------------
// Pairs.
// ---------------------------------------------------------------------------

/// What one pair produced.
#[derive(Copy, Clone, Debug, PartialEq, Eq, Structural)]
pub struct Pair {
    pub margin: i32,
    pub kills: u32,
    pub ticks: usize,
    pub draws: u32,
}

/// The profile of a handle on a side.
pub open spec fn profile_on(
    candidate: BotProfile,
    baseline: BotProfile,
    candidate_team: u8,
    side: u8,
) -> BotProfile {
    if side == candidate_team {
        candidate
    } else {
        baseline
    }
}

/// Which profile each handle plays with: the candidate's, on its side.
pub fn lineup(candidate: BotProfile, baseline: BotProfile, candidate_team: u8, sides: &Vec<u8>) -> (
    out: Vec<BotProfile>)
    ensures
        out@ == sides@.map_values(
            |side: u8| profile_on(candidate, baseline, candidate_team, side),
        ),
{
    let ghost wanted = sides@.map_values(
        |side: u8| profile_on(candidate, baseline, candidate_team, side),
    );
    let mut out: Vec<BotProfile> = Vec::new();
    let mut i: usize = 0;
    while i < sides.len()
        invariant
            i <= sides.len(),
            wanted == sides@.map_values(
                |side: u8| profile_on(candidate, baseline, candidate_team, side),
            ),
            out@ == wanted.take(i as int),
        decreases sides.len() - i,
    {
        if sides[i] == candidate_team {
            out.push(candidate);
        } else {
            out.push(baseline);
        }
        assert(wanted.take(i + 1) =~= wanted.take(i as int).push(wanted[i as int]));
        i = i + 1;
    }
    assert(wanted.take(i as int) =~= wanted);
    out
}

/// Exchanging the two bots is exchanging the ends: one in the west against the
/// other is the same line-up as the other in the east against the one.
pub proof fn exchanging_the_bots_exchanges_the_ends(a: BotProfile, b: BotProfile, sides: Seq<u8>)
    requires
        forall|h: int| 0 <= h < sides.len() ==> #[trigger] sides[h] < TEAM_COUNT,
    ensures
        sides.map_values(|side: u8| profile_on(a, b, 0, side)) == sides.map_values(
            |side: u8| profile_on(b, a, 1, side),
        ),
{
    assert forall|h: int| 0 <= h < sides.len() implies profile_on(a, b, 0, #[trigger] sides[h])
        == profile_on(b, a, 1, sides[h]) by {
        assert(sides[h] < TEAM_COUNT);
    }
    assert(sides.map_values(|side: u8| profile_on(a, b, 0, side)) =~= sides.map_values(
        |side: u8| profile_on(b, a, 1, side),
    ));
}

/// A pair, as contracts speak of it.
pub struct PairModel {
    pub margin: int,
    pub kills: int,
    pub ticks: int,
    pub draws: int,
}

impl View for Pair {
    type V = PairModel;

    open spec fn view(&self) -> PairModel {
        PairModel {
            margin: self.margin as int,
            kills: self.kills as int,
            ticks: self.ticks as int,
            draws: self.draws as int,
        }
    }
}

/// What two matches make a pair of: the candidate's rounds in the west and in the
/// east, and everything else added up.
pub open spec fn paired(west: Outcome, east: Outcome) -> PairModel {
    PairModel {
        margin: game::net_of(west.wins@, 0) + game::net_of(east.wins@, 1),
        kills: game::total(west.kills@) + game::total(east.kills@),
        ticks: west.ticks + east.ticks,
        draws: west.draws + east.draws,
    }
}

/// One pair: the same dice with the candidate in the west and in the east. Its
/// margins add up, so what an end of the field is worth cancels.
pub fn pair_of(west: &Outcome, east: &Outcome) -> (out: Pair)
    requires
        west.wins@[0] + east.wins@[1] <= i32::MAX,
        west.wins@[1] + east.wins@[0] <= i32::MAX,
        game::total(west.kills@) + game::total(east.kills@) <= u32::MAX,
        west.ticks + east.ticks <= usize::MAX,
        west.draws + east.draws <= u32::MAX,
    ensures
        out@ == paired(*west, *east),
{
    proof {
        game::lemma_total_nonnegative(west.kills@);
        game::lemma_total_nonnegative(east.kills@);
    }
    Pair {
        margin: west.net(0) + east.net(1),
        kills: west.total_kills() + east.total_kills(),
        ticks: west.ticks + east.ticks,
        draws: west.draws + east.draws,
    }
}

/// Two copies of one bot tie: where the mirrored match has the same tally, the
/// pair's margin is nothing.
pub proof fn identical_tallies_tie(west: Outcome, east: Outcome)
    requires
        west.wins@ == east.wins@,
    ensures
        paired(west, east).margin == 0,
{
}

/// Exchanging the two matches, as exchanging the two bots does, turns the margin
/// round and leaves the rest as it is.
pub proof fn exchanging_the_matches_turns_the_margin(west: Outcome, east: Outcome)
    ensures
        paired(east, west).margin == -paired(west, east).margin,
        paired(east, west).kills == paired(west, east).kills,
        paired(east, west).ticks == paired(west, east).ticks,
        paired(east, west).draws == paired(west, east).draws,
{
}

// ---------------------------------------------------------------------------
// A run.
// ---------------------------------------------------------------------------

/// Whether neither bot ever touches its dice: one that never misses never does.
pub fn dice_are_dead(candidate: BotProfile, baseline: BotProfile, unit: i32) -> (yes: bool)
    ensures
        yes == (candidate.accuracy >= unit && baseline.accuracy >= unit),
{
    candidate.accuracy >= unit && baseline.accuracy >= unit
}

/// How many pairs are worth playing: with dead dice every pair is the same pair.
pub fn pair_limit(pairs: usize, dead: bool) -> (out: usize)
    ensures
        out == (if dead && pairs > 1 {
            1
        } else {
            pairs
        }),
{
    if dead && pairs > 1 {
        1
    } else {
        pairs
    }
}

/// The salt of a pair's dice.
pub fn salt_of(index: usize) -> (out: u32)
    requires
        index < u32::MAX,
    ensures
        out == index + 1,
{
    index as u32 + 1
}

/// A pair that was played, and which one it was.
#[derive(Copy, Clone, Debug, PartialEq, Eq, Structural)]
pub struct Played {
    pub index: usize,
    pub pair: Pair,
}

impl Ranked for Played {
    open spec fn le(self, other: Self) -> bool {
        self.index <= other.index
    }

    proof fn le_total(a: Self, b: Self) {
    }

    proof fn le_trans(a: Self, b: Self, c: Self) {
    }

    fn may_precede(&self, other: &Self) -> (yes: bool) {
        self.index <= other.index
    }
}

/// A batch's results in the order the test takes them: by index, however they
/// finished.
pub fn in_index_order(results: &Vec<Played>) -> (out: Vec<Played>)
    ensures
        out@ == order::arranged(results@),
        order::in_order(out@),
        out@.to_multiset() == results@.to_multiset(),
{
    proof {
        order::arranging_puts_in_order(results@);
        order::arranging_keeps_everything(results@);
    }
    order::arrange(results)
}

/// It does not matter in which order a batch's pairs finish: the test takes them
/// the same way.
pub proof fn the_order_of_finishing_does_not_matter(a: Seq<Played>, b: Seq<Played>)
    requires
        a.to_multiset() == b.to_multiset(),
        forall|i: int, j: int|
            0 <= i < j < a.len() ==> (#[trigger] a[i]).index != (#[trigger] a[j]).index,
    ensures
        order::arranged(a) == order::arranged(b),
{
    assert forall|i: int, j: int|
        0 <= i < a.len() && 0 <= j < a.len() && #[trigger] a[i].le(#[trigger] a[j]) && a[j].le(
            a[i],
        ) implies a[i] == a[j] by {
        if i < j {
            assert(a[i].index != a[j].index);
        } else if j < i {
            assert(a[j].index != a[i].index);
        }
    }
    order::arranging_forgets_the_order_of_arrival(a, b);
}

/// What a run has added up.
#[derive(Copy, Clone, Debug, PartialEq, Eq, Structural)]
pub struct Run {
    pub sprt: Sprt,
    pub played: usize,
    pub kills: u32,
    pub ticks: usize,
    pub drawn: u32,
}

/// A run, as contracts speak of it.
pub struct RunModel {
    pub sprt: TallyModel,
    pub played: nat,
    pub kills: nat,
    pub ticks: nat,
    pub drawn: nat,
}

impl View for Run {
    type V = RunModel;

    open spec fn view(&self) -> RunModel {
        RunModel {
            sprt: self.sprt@,
            played: self.played as nat,
            kills: self.kills as nat,
            ticks: self.ticks as nat,
            drawn: self.drawn as nat,
        }
    }
}

/// A run before its first pair.
pub open spec fn unplayed() -> RunModel {
    RunModel { sprt: sprt::untried(), played: 0, kills: 0, ticks: 0, drawn: 0 }
}

/// A run with one more pair in it.
pub open spec fn with_pair(run: RunModel, pair: Pair) -> RunModel {
    RunModel {
        sprt: sprt::pushed(run.sprt, pair.margin as int),
        played: run.played + 1,
        kills: run.kills + pair.kills as nat,
        ticks: run.ticks + pair.ticks as nat,
        drawn: run.drawn + pair.draws as nat,
    }
}

/// A run with a row of pairs more in it, taken one after the other.
pub open spec fn with_pairs(run: RunModel, row: Seq<Played>) -> RunModel
    decreases row.len(),
{
    if row.len() == 0 {
        run
    } else {
        with_pair(with_pairs(run, row.drop_last()), row.last().pair)
    }
}

/// Whether a run's sums are numbers that a machine can hold.
pub open spec fn countable(run: RunModel) -> bool {
    &&& run.played <= u32::MAX
    &&& run.kills <= u32::MAX
    &&& run.ticks <= usize::MAX
    &&& run.drawn <= u32::MAX
}

proof fn lemma_sums_only_grow(run: RunModel, row: Seq<Played>, k: int)
    requires
        0 <= k <= row.len(),
        countable(with_pairs(run, row)),
    ensures
        countable(with_pairs(run, row.take(k))),
    decreases row.len(),
{
    if k == row.len() {
        assert(row.take(k) =~= row);
    } else {
        lemma_sums_only_grow(run, row.drop_last(), k);
        assert(row.drop_last().take(k) =~= row.take(k));
    }
}

proof fn lemma_one_row_after_another(run: RunModel, a: Seq<Played>, b: Seq<Played>)
    ensures
        with_pairs(with_pairs(run, a), b) == with_pairs(run, a + b),
    decreases b.len(),
{
    if b.len() == 0 {
        assert(a + b =~= a);
    } else {
        lemma_one_row_after_another(run, a, b.drop_last());
        assert((a + b).drop_last() =~= a + b.drop_last());
        assert((a + b).last() == b.last());
    }
}

/// A pair that was taken into the run: what it was to the test, and the run with it.
#[derive(Copy, Clone, Debug, PartialEq, Eq, Structural)]
pub struct Recorded {
    pub played: Played,
    pub trial: Trial,
    pub after: Run,
}

/// How many pairs are played at once after `played` of them: as many as asked for,
/// and never past the limit.
pub open spec fn batch_after(played: int, limit: int, jobs: int) -> int {
    if jobs < limit - played {
        jobs
    } else {
        limit - played
    }
}

impl Run {
    pub fn new() -> (out: Self)
        ensures
            out.wf(),
            out@ == unplayed(),
    {
        Run { sprt: Sprt::new(), played: 0, kills: 0, ticks: 0, drawn: 0 }
    }

    /// Every pair that was played was recorded.
    pub open spec fn wf(self) -> bool {
        self.sprt.recorded() == self.played
    }

    /// How many pairs to play next, if any: as many at once as asked for, never
    /// past the limit, and none once the test has spoken.
    pub fn next_batch(&self, limit: usize, jobs: usize, verdict: Verdict) -> (out: Option<usize>)
        ensures
            match out {
                Some(batch) => {
                    &&& self.played < limit
                    &&& verdict == Verdict::Undecided
                    &&& batch == batch_after(self.played as int, limit as int, jobs as int)
                },
                None => self.played >= limit || verdict != Verdict::Undecided,
            },
    {
        if self.played >= limit || verdict != Verdict::Undecided {
            return None;
        }
        let left: usize = limit - self.played;
        Some(
            if jobs < left {
                jobs
            } else {
                left
            },
        )
    }

    /// Takes one pair into the run, and says what it was to the test.
    pub fn record(&mut self, pair: Pair) -> (trial: Trial)
        requires
            old(self).wf(),
            countable(with_pair(old(self)@, pair)),
        ensures
            final(self).wf(),
            trial == sprt::trial_of(pair.margin as int),
            final(self)@ == with_pair(old(self)@, pair),
    {
        let trial = self.sprt.push(pair.margin);
        self.played = self.played + 1;
        self.kills = self.kills + pair.kills;
        self.ticks = self.ticks + pair.ticks;
        self.drawn = self.drawn + pair.draws;
        trial
    }

    /// Takes a batch into the run, strictly in index order, however its pairs
    /// finished.
    pub fn record_batch(&mut self, batch: &Vec<Played>) -> (out: Vec<Recorded>)
        requires
            old(self).wf(),
            countable(with_pairs(old(self)@, order::arranged(batch@))),
        ensures
            final(self).wf(),
            final(self)@ == with_pairs(old(self)@, order::arranged(batch@)),
            out@.len() == batch@.len(),
            forall|i: int| #![trigger out@[i]]
                0 <= i < out@.len() ==> {
                    &&& out@[i].played == order::arranged(batch@)[i]
                    &&& out@[i].trial == sprt::trial_of(out@[i].played.pair.margin as int)
                    &&& out@[i].after@ == with_pairs(
                        old(self)@,
                        order::arranged(batch@).take(i + 1),
                    )
                },
    {
        let row = in_index_order(batch);
        let mut out: Vec<Recorded> = Vec::new();
        let mut i: usize = 0;
        proof {
            order::arranging_puts_in_order(batch@);
            assert(row@.take(0) =~= Seq::empty());
        }
        while i < row.len()
            invariant
                i <= row.len(),
                row@ == order::arranged(batch@),
                countable(with_pairs(old(self)@, row@)),
                self.wf(),
                self@ == with_pairs(old(self)@, row@.take(i as int)),
                out@.len() == i,
                forall|k: int| #![trigger out@[k]]
                    0 <= k < i ==> {
                        &&& out@[k].played == row@[k]
                        &&& out@[k].trial == sprt::trial_of(out@[k].played.pair.margin as int)
                        &&& out@[k].after@ == with_pairs(old(self)@, row@.take(k + 1))
                    },
            decreases row.len() - i,
        {
            proof {
                lemma_sums_only_grow(old(self)@, row@, i + 1);
                assert(row@.take(i + 1).drop_last() =~= row@.take(i as int));
                assert(row@.take(i + 1).last() == row@[i as int]);
            }
            let played = row[i];
            let trial = self.record(played.pair);
            out.push(Recorded { played, trial, after: *self });
            i = i + 1;
        }
        assert(row@.take(i as int) =~= row@);
        out
    }

    /// How many rounds were played: two matches to a pair.
    pub fn rounds_played(&self, rounds: u32) -> (out: usize)
        requires
            self.played * 2 * rounds <= usize::MAX,
            self.played * 2 <= usize::MAX,
        ensures
            out == self.played * 2 * rounds,
    {
        self.played * 2 * rounds as usize
    }

    /// The ticks that were fought: without the intermissions.
    pub fn fighting_ticks(&self, rounds: usize, intermission_ticks: u32) -> (out: usize)
        requires
            rounds * intermission_ticks <= usize::MAX,
        ensures
            out == (if self.ticks >= rounds * intermission_ticks {
                self.ticks - rounds * intermission_ticks
            } else {
                0
            }),
    {
        self.ticks.saturating_sub(rounds * intermission_ticks as usize)
    }

    /// Whether most rounds ended level.
    pub fn mostly_drawn(&self, rounds: usize) -> (yes: bool)
        requires
            self.drawn * 2 <= u32::MAX,
            rounds <= u32::MAX,
        ensures
            yes == (self.drawn * 2 > rounds),
    {
        self.drawn * 2 > rounds as u32
    }

    /// Whether most pairs came out level and were dropped.
    pub fn mostly_tied(&self) -> (yes: bool)
        requires
            self.sprt.ties * 2 <= usize::MAX,
        ensures
            yes == (self.sprt.ties * 2 > self.played),
    {
        self.sprt.ties as usize * 2 > self.played
    }
}

// ---------------------------------------------------------------------------
// A whole run.
// ---------------------------------------------------------------------------

/// The pairs from `from` up to `to`, where `pairs` says what each of them comes to.
pub open spec fn pairs_between(pairs: spec_fn(int) -> Pair, from: int, to: int) -> Seq<Played> {
    Seq::new(
        (to - from) as nat,
        |k: int| Played { index: (from + k) as usize, pair: pairs(from + k) },
    )
}

/// How many pairs the first `k` batches hold.
pub open spec fn played_before(batches: Seq<Seq<Played>>, k: int) -> int
    decreases k,
{
    if k <= 0 {
        0
    } else {
        played_before(batches, k - 1) + batches[k - 1].len()
    }
}

/// What a run has added up after its first `k` batches, each taken in index order.
pub open spec fn run_after(batches: Seq<Seq<Played>>, k: int) -> RunModel
    decreases k,
{
    if k <= 0 {
        unplayed()
    } else {
        with_pairs(run_after(batches, k - 1), order::arranged(batches[k - 1]))
    }
}

/// Whether a batch is the one to play after `from` pairs: the limit is not reached
/// and the test has not spoken, it is as large as it should be, and it holds the
/// next pairs, in whatever order they finished. `pairs` says what each pair comes
/// to, and `said` what the test says after so many of them.
pub open spec fn is_next_batch(
    batch: Seq<Played>,
    from: int,
    pairs: spec_fn(int) -> Pair,
    said: spec_fn(int) -> Verdict,
    limit: int,
    jobs: int,
) -> bool {
    &&& from < limit
    &&& said(from) == Verdict::Undecided
    &&& batch.to_multiset() == pairs_between(
        pairs,
        from,
        from + batch_after(from, limit, jobs),
    ).to_multiset()
}

/// Whether these are the batches of a run: each is the one to play after those
/// before it, and after the last there is none to play.
pub open spec fn is_run(
    batches: Seq<Seq<Played>>,
    pairs: spec_fn(int) -> Pair,
    said: spec_fn(int) -> Verdict,
    limit: int,
    jobs: int,
) -> bool {
    &&& forall|k: int|
        0 <= k < batches.len() ==> is_next_batch(
            #[trigger] batches[k],
            played_before(batches, k),
            pairs,
            said,
            limit,
            jobs,
        )
    &&& ({
        let played = played_before(batches, batches.len() as int);
        played >= limit || said(played) != Verdict::Undecided
    })
}

proof fn lemma_next_pairs_in_order(
    batch: Seq<Played>,
    pairs: spec_fn(int) -> Pair,
    from: int,
    to: int,
)
    requires
        0 <= from <= to <= usize::MAX,
        batch.to_multiset() == pairs_between(pairs, from, to).to_multiset(),
    ensures
        batch.len() == to - from,
        order::arranged(batch) == pairs_between(pairs, from, to),
{
    let row = pairs_between(pairs, from, to);
    batch.to_multiset_ensures();
    row.to_multiset_ensures();
    assert(order::in_order(row));
    assert forall|i: int, j: int|
        0 <= i < row.len() && 0 <= j < row.len() && #[trigger] row[i].le(#[trigger] row[j])
            && row[j].le(row[i]) implies row[i] == row[j] by {
        assert(row[i].index == from + i && row[j].index == from + j);
    }
    order::arranging_keeps_everything(batch);
    order::arranging_puts_in_order(batch);
    order::order_is_settled(row, order::arranged(batch));
}

/// How far `k` batches get.
pub open spec fn reached(k: int, limit: int, jobs: int) -> int {
    if k * jobs < limit {
        k * jobs
    } else {
        limit
    }
}

proof fn lemma_one_batch_further(k: int, limit: int, jobs: int)
    requires
        0 <= k,
        1 <= jobs,
        0 <= limit,
    ensures
        reached(0, limit, jobs) == 0,
        0 <= reached(k, limit, jobs) <= limit,
        reached(k, limit, jobs) < limit ==> {
            &&& reached(k, limit, jobs) == k * jobs
            &&& reached(k + 1, limit, jobs) == reached(k, limit, jobs) + batch_after(
                reached(k, limit, jobs),
                limit,
                jobs,
            )
        },
{
    assert(0 * jobs == 0 && 0 <= k * jobs && (k + 1) * jobs == k * jobs + jobs)
        by (nonlinear_arith)
        requires
            0 <= k,
            1 <= jobs,
    ;
}

#[verifier::spinoff_prover]
proof fn lemma_one_batch_more(
    batch: Seq<Played>,
    from: int,
    pairs: spec_fn(int) -> Pair,
    said: spec_fn(int) -> Verdict,
    limit: int,
    jobs: int,
)
    requires
        is_next_batch(batch, from, pairs, said, limit, jobs),
        0 <= from,
        1 <= jobs,
        limit <= usize::MAX,
    ensures
        ({
            let to = from + batch_after(from, limit, jobs);
            &&& batch.len() == to - from
            &&& with_pairs(
                with_pairs(unplayed(), pairs_between(pairs, 0, from)),
                order::arranged(batch),
            ) == with_pairs(unplayed(), pairs_between(pairs, 0, to))
        }),
{
    let to = from + batch_after(from, limit, jobs);
    let before = pairs_between(pairs, 0, from);
    let next = pairs_between(pairs, from, to);
    lemma_next_pairs_in_order(batch, pairs, from, to);
    lemma_one_row_after_another(unplayed(), before, next);
    assert(before + next =~= pairs_between(pairs, 0, to));
}

#[verifier::spinoff_prover]
proof fn lemma_run_so_far(
    batches: Seq<Seq<Played>>,
    pairs: spec_fn(int) -> Pair,
    said: spec_fn(int) -> Verdict,
    limit: int,
    jobs: int,
    k: int,
)
    requires
        is_run(batches, pairs, said, limit, jobs),
        1 <= jobs,
        0 <= limit <= usize::MAX,
        0 <= k <= batches.len(),
    ensures
        played_before(batches, k) == reached(k, limit, jobs),
        run_after(batches, k) == with_pairs(
            unplayed(),
            pairs_between(pairs, 0, reached(k, limit, jobs)),
        ),
    decreases k,
{
    if k == 0 {
        lemma_one_batch_further(0, limit, jobs);
        assert(pairs_between(pairs, 0, 0) =~= Seq::empty());
    } else {
        lemma_run_so_far(batches, pairs, said, limit, jobs, k - 1);
        lemma_one_batch_further(k - 1, limit, jobs);
        let from = reached(k - 1, limit, jobs);
        assert(is_next_batch(batches[k - 1], from, pairs, said, limit, jobs));
        lemma_one_batch_more(batches[k - 1], from, pairs, said, limit, jobs);
    }
}

/// The margins of a row of pairs.
pub open spec fn margins_of(row: Seq<Played>) -> Seq<i32> {
    row.map_values(|p: Played| p.pair.margin)
}

proof fn lemma_every_pair_counts(run: RunModel, row: Seq<Played>)
    ensures
        with_pairs(run, row).played == run.played + row.len(),
        with_pairs(run, row).sprt == sprt::pushed_all(run.sprt, margins_of(row)),
    decreases row.len(),
{
    if row.len() > 0 {
        lemma_every_pair_counts(run, row.drop_last());
        assert(margins_of(row).drop_last() =~= margins_of(row.drop_last()));
    }
}

/// What the test has counted after a row of pairs is what it counts of their
/// margins, pushed one after the other.
pub proof fn the_test_counts_every_margin(row: Seq<Played>)
    ensures
        with_pairs(unplayed(), row).sprt == sprt::pushed_all(sprt::untried(), margins_of(row)),
        with_pairs(unplayed(), row).played == row.len(),
{
    lemma_every_pair_counts(unplayed(), row);
}

/// A run's tally is that of its pairs in index order, whatever order they finished
/// in and however many were played at once, and no pair that was played is left
/// out. It ends at the first whole number of batches, below the limit, at which the
/// test has spoken, and else at the limit.
pub proof fn a_run_takes_its_pairs_in_order(
    batches: Seq<Seq<Played>>,
    pairs: spec_fn(int) -> Pair,
    said: spec_fn(int) -> Verdict,
    limit: int,
    jobs: int,
)
    requires
        is_run(batches, pairs, said, limit, jobs),
        1 <= jobs,
        0 <= limit <= usize::MAX,
    ensures
        ({
            let n = batches.len() as int;
            let played = played_before(batches, n);
            &&& run_after(batches, n) == with_pairs(unplayed(), pairs_between(pairs, 0, played))
            &&& run_after(batches, n).played == played
            &&& run_after(batches, n).sprt == sprt::pushed_all(
                sprt::untried(),
                Seq::new(played as nat, |i: int| pairs(i).margin),
            )
            &&& played == reached(n, limit, jobs)
            &&& played < limit ==> said(played) != Verdict::Undecided
            &&& forall|k: int|
                0 <= k < n ==> #[trigger] (k * jobs) < limit && said(k * jobs)
                    == Verdict::Undecided
        }),
{
    let n = batches.len() as int;
    lemma_run_so_far(batches, pairs, said, limit, jobs, n);
    lemma_one_batch_further(n, limit, jobs);
    let row = pairs_between(pairs, 0, played_before(batches, n));
    lemma_every_pair_counts(unplayed(), row);
    assert(margins_of(row) =~= Seq::new(row.len(), |i: int| pairs(i).margin));
    assert forall|k: int| 0 <= k < n implies #[trigger] (k * jobs) < limit && said(k * jobs)
        == Verdict::Undecided by {
        lemma_run_so_far(batches, pairs, said, limit, jobs, k);
        lemma_one_batch_further(k, limit, jobs);
        assert(is_next_batch(batches[k], played_before(batches, k), pairs, said, limit, jobs));
    }
}

// ---------------------------------------------------------------------------
// What every text comes to.
// ---------------------------------------------------------------------------

/// A field that names a dial and whose value is a setting turns the dial of that very
/// name to that setting, and leaves the other four as they were.
pub proof fn a_key_turns_the_dial_of_its_name(
    profile: BotProfile,
    key: Seq<char>,
    raw: Seq<char>,
    v: i32,
)
    requires
        !key.contains('='),
    ensures
        ({
            let out = field_set(profile, key + seq!['='] + raw, Reading::Fixed(v));
            let name = text::trimmed(key);
            &&& name == "skill"@ ==> (out matches Ok(next) && next.skill == v && next.accuracy
                == profile.accuracy && next.reaction == profile.reaction && next.aggression
                == profile.aggression && next.caution == profile.caution)
            &&& name == "accuracy"@ ==> (out matches Ok(next) && next.accuracy == v && next.skill
                == profile.skill && next.reaction == profile.reaction && next.aggression
                == profile.aggression && next.caution == profile.caution)
            &&& name == "aggression"@ ==> (out matches Ok(next) && next.aggression == v
                && next.skill == profile.skill && next.accuracy == profile.accuracy
                && next.reaction == profile.reaction && next.caution == profile.caution)
            &&& name == "caution"@ ==> (out matches Ok(next) && next.caution == v && next.skill
                == profile.skill && next.accuracy == profile.accuracy && next.reaction
                == profile.reaction && next.aggression == profile.aggression)
        }),
{
    reveal_strlit("skill");
    reveal_strlit("accuracy");
    reveal_strlit("aggression");
    reveal_strlit("caution");
    reveal_strlit("reaction");
    assert(text::free_of(key, '='));
    text::lemma_cut_at(key, '=', raw);
    assert("skill"@.len() == 5 && "accuracy"@.len() == 8 && "aggression"@.len() == 10);
    assert("caution"@.len() == 7 && "reaction"@.len() == 8);
    assert("reaction"@[0] != "accuracy"@[0]);
}

/// A reaction is a whole number of ticks, below what a bot remembers, whatever else
/// the value reads as; it moves no other dial.
pub proof fn a_reaction_is_read_in_ticks(
    profile: BotProfile,
    key: Seq<char>,
    ticks: nat,
    reading: Reading,
)
    requires
        !key.contains('='),
        text::trimmed(key) == "reaction"@,
        ticks < 24,
    ensures
        field_set(profile, key + seq!['='] + text::decimal(ticks), reading) matches Ok(next)
            && next.reaction == ticks && next.skill == profile.skill && next.accuracy
            == profile.accuracy && next.aggression == profile.aggression && next.caution
            == profile.caution,
{
    assert(text::free_of(key, '='));
    text::lemma_cut_at(key, '=', text::decimal(ticks));
    lemma_number_is_trimmed(ticks);
    text::a_written_number_reads_back(ticks, u32::MAX as nat);
}

proof fn lemma_number_is_trimmed(n: nat)
    ensures
        text::trimmed(text::decimal(n)) == text::decimal(n),
{
    let s = text::decimal(n);
    text::lemma_decimal(n);
    assert(text::is_digit(s[0]));
    assert(text::is_digit(s[s.len() - 1]));
    let none = Seq::<char>::empty();
    text::blanks_around_a_text_do_not_matter(none, s, none);
    assert(none + s + none =~= s);
}

/// A reaction slower than a bot remembers is refused, by both numbers.
pub proof fn a_late_reaction_is_refused(
    profile: BotProfile,
    key: Seq<char>,
    ticks: nat,
    reading: Reading,
)
    requires
        !key.contains('='),
        text::trimmed(key) == "reaction"@,
        24 <= ticks <= u32::MAX,
    ensures
        field_set(profile, key + seq!['='] + text::decimal(ticks), reading) == Err::<
            BotProfile,
            Seq<char>,
        >(
            "reaction "@ + text::decimal(ticks)
                + " is past the 24-tick memory; the bot cannot remember that far back"@,
        ),
{
    reveal_strlit(" is past the ");
    reveal_strlit("-tick memory; the bot cannot remember that far back");
    reveal_strlit(" is past the 24-tick memory; the bot cannot remember that far back");
    reveal_strlit("0123456789");
    assert(text::free_of(key, '='));
    text::lemma_cut_at(key, '=', text::decimal(ticks));
    lemma_number_is_trimmed(ticks);
    text::a_written_number_reads_back(ticks, u32::MAX as nat);
    text::numbers_are_written_in_tens(2, 4);
    text::numbers_are_written_in_tens(0, 2);
    let tail = " is past the 24-tick memory; the bot cannot remember that far back"@;
    let limit = text::decimal(24);
    assert(limit =~= seq!['2', '4']);
    assert(" is past the "@ + limit + "-tick memory; the bot cannot remember that far back"@
        =~= tail);
    assert("reaction "@ + text::decimal(ticks) + " is past the "@ + limit
        + "-tick memory; the bot cannot remember that far back"@ =~= "reaction "@ + text::decimal(
        ticks,
    ) + (" is past the "@ + limit + "-tick memory; the bot cannot remember that far back"@));
}

/// What is wrong with a field is said in its own words, and nothing is turned: a field
/// without a value, a value that is no number or no setting, a dial that there is not.
pub proof fn a_wrong_field_is_named(
    profile: BotProfile,
    key: Seq<char>,
    raw: Seq<char>,
    shown: String,
    v: i32,
)
    requires
        !key.contains('='),
    ensures
        field_set(profile, key, Reading::Fixed(v)) == Err::<BotProfile, Seq<char>>(
            "`"@ + key + "` should be key=value"@,
        ),
        text::trimmed(key) != "reaction"@ ==> {
            let field = key + seq!['='] + raw;
            &&& field_set(profile, field, Reading::NotANumber) == Err::<BotProfile, Seq<char>>(
                "`"@ + text::trimmed(raw) + "` isn't a number"@,
            )
            &&& field_set(profile, field, Reading::OutOfRange(shown)) == Err::<
                BotProfile,
                Seq<char>,
            >(text::trimmed(key) + " is a 0..1 dial, got "@ + shown@)
        },
        text::trimmed(key) != "reaction"@ && text::trimmed(key) != "skill"@ && text::trimmed(key)
            != "accuracy"@ && text::trimmed(key) != "aggression"@ && text::trimmed(key)
            != "caution"@ ==> field_set(profile, key + seq!['='] + raw, Reading::Fixed(v)) == Err::<
            BotProfile,
            Seq<char>,
        >("no dial called `"@ + text::trimmed(key) + "`"@),
        text::trimmed(key) == "reaction"@ && text::read_unsigned(
            text::trimmed(raw),
            u32::MAX as nat,
        ) is None ==> field_set(profile, key + seq!['='] + raw, Reading::Fixed(v)) == Err::<
            BotProfile,
            Seq<char>,
        >("`"@ + text::trimmed(raw) + "` isn't a number"@),
{
    assert(text::free_of(key, '='));
    text::lemma_cut_at(key, '=', raw);
    text::lemma_cut_none(key, '=');
}

/// The fields of a profile's text are its pieces between commas, in order, without
/// those that are blank.
pub proof fn blank_fields_are_left_out(parts: Seq<Seq<char>>)
    ensures
        fields_of(parts) == parts.filter(|p: Seq<char>| !text::is_blank(p)),
    decreases parts.len(),
{
    order::lemma_filter_last(parts, |p: Seq<char>| !text::is_blank(p));
    if parts.len() > 0 {
        blank_fields_are_left_out(parts.drop_last());
    }
}

/// A profile's text is read field by field from the left, each on top of those before
/// it; the first that is wrong is what is said, and none behind it counts.
pub proof fn fields_are_read_from_the_left(
    base: BotProfile,
    fields: Seq<Seq<char>>,
    readings: Seq<Reading>,
    k: int,
)
    requires
        0 <= k < fields.len(),
        fields.len() == readings.len(),
    ensures
        fields_set(base, fields.take(0), readings) == Ok::<BotProfile, Seq<char>>(base),
        fields_set(base, fields.take(k), readings) matches Ok(profile) ==> fields_set(
            base,
            fields.take(k + 1),
            readings,
        ) == field_set(profile, fields[k], readings[k]),
        fields_set(base, fields.take(k), readings) matches Err(message) ==> fields_set(
            base,
            fields,
            readings,
        ) == Err::<BotProfile, Seq<char>>(message),
{
    assert(fields.take(k + 1).drop_last() =~= fields.take(k));
    if fields_set(base, fields.take(k), readings) is Err {
        lemma_error_stays(base, fields, readings, k);
    }
}

/// The value of a field is what stands behind its first equals sign, without the
/// blanks around it.
pub proof fn a_value_stands_behind_the_equals_sign(key: Seq<char>, raw: Seq<char>)
    requires
        !key.contains('='),
    ensures
        field_value(key + seq!['='] + raw) == text::trimmed(raw),
        field_value(key) == Seq::<char>::empty(),
{
    assert(text::free_of(key, '='));
    text::lemma_cut_at(key, '=', raw);
    text::lemma_cut_none(key, '=');
}

/// A whole number on the command line is read as it is written, in both widths, and
/// not past them.
pub proof fn a_count_is_read_as_written(n: nat)
    ensures
        n <= u32::MAX ==> <u32 as Number>::reading(text::decimal(n)) == Some(n as u32),
        n > u32::MAX ==> <u32 as Number>::reading(text::decimal(n)) is None,
        n <= usize::MAX ==> <usize as Number>::reading(text::decimal(n)) == Some(n as usize),
        n > usize::MAX ==> <usize as Number>::reading(text::decimal(n)) is None,
        no_number_text(text::decimal(n)) == "`"@ + text::decimal(n) + "` isn't a number"@,
{
    text::a_number_reads_up_to_the_limit(n, u32::MAX as nat);
    text::a_number_reads_up_to_the_limit(n, usize::MAX as nat);
}

/// Both spellings of the two profiles' options take the profile that their value
/// describes, each for the bot it names, or what is wrong with it.
pub proof fn each_bot_has_its_own_option(
    args: ArgsModel,
    flag: Seq<char>,
    value: Seq<char>,
    reading: ArgReading,
)
    ensures
        ({
            let out = option_set(args, flag, value, reading);
            &&& flag == "-c"@ || flag == "--candidate"@ ==> match reading.profile {
                Ok(p) => out matches Ok(next) && next.candidate == p && next == (ArgsModel {
                    candidate: next.candidate,
                    ..args
                }),
                Err(m) => out == Err::<ArgsModel, Seq<char>>(m@),
            }
            &&& flag == "-b"@ || flag == "--baseline"@ ==> match reading.profile {
                Ok(p) => out matches Ok(next) && next.baseline == p && next == (ArgsModel {
                    baseline: next.baseline,
                    ..args
                }),
                Err(m) => out == Err::<ArgsModel, Seq<char>>(m@),
            }
        }),
{
    lemma_options_differ();
}

/// The counts are taken as they are written, a match having at least one round and a
/// run at least one job, and nothing else moves with them.
pub proof fn each_count_has_its_own_option(args: ArgsModel, n: nat, reading: ArgReading)
    ensures
        ({
            let shown = text::decimal(n);
            let rounds = option_set(args, "--rounds"@, shown, reading);
            let pairs = option_set(args, "--pairs"@, shown, reading);
            let jobs = option_set(args, "--jobs"@, shown, reading);
            &&& n <= u32::MAX ==> (rounds matches Ok(next) && next.rounds == (if n == 0 {
                1
            } else {
                n as int
            }) && next == (ArgsModel { rounds: next.rounds, ..args }))
            &&& n > u32::MAX ==> rounds == Err::<ArgsModel, Seq<char>>(
                "`"@ + shown + "` isn't a number"@,
            )
            &&& n <= usize::MAX ==> (pairs matches Ok(next) && next.pairs == n && next == (
            ArgsModel { pairs: next.pairs, ..args }))
            &&& n <= usize::MAX ==> (jobs matches Ok(next) && next.jobs == (if n == 0 {
                1
            } else {
                n as int
            }) && next == (ArgsModel { jobs: next.jobs, ..args }))
        }),
{
    lemma_options_differ();
    a_count_is_read_as_written(n);
}

/// A count's value that is no whole number is refused as none.
pub proof fn a_count_that_is_none_is_refused(
    args: ArgsModel,
    flag: Seq<char>,
    value: Seq<char>,
    reading: ArgReading,
)
    requires
        flag == "--rounds"@ || flag == "--pairs"@ || flag == "--jobs"@,
        text::read_unsigned(value, u32::MAX as nat) is None,
        text::read_unsigned(value, usize::MAX as nat) is None,
    ensures
        option_set(args, flag, value, reading) == Err::<ArgsModel, Seq<char>>(
            "`"@ + value + "` isn't a number"@,
        ),
{
    lemma_options_differ();
}

/// The three rates are kept as they were written, each under its own option, where they
/// read as rates, and refused where they do not.
pub proof fn each_rate_has_its_own_option(
    args: ArgsModel,
    flag: Seq<char>,
    value: Seq<char>,
    reading: ArgReading,
)
    requires
        flag == "--p1"@ || flag == "--alpha"@ || flag == "--beta"@,
    ensures
        ({
            let out = option_set(args, flag, value, reading);
            &&& !reading.is_rate ==> out == Err::<ArgsModel, Seq<char>>(
                "`"@ + value + "` isn't a number"@,
            )
            &&& reading.is_rate && flag == "--p1"@ ==> (out matches Ok(next) && next.p1 == Some(
                value,
            ) && next == (ArgsModel { p1: next.p1, ..args }))
            &&& reading.is_rate && flag == "--alpha"@ ==> (out matches Ok(next) && next.alpha
                == Some(value) && next == (ArgsModel { alpha: next.alpha, ..args }))
            &&& reading.is_rate && flag == "--beta"@ ==> (out matches Ok(next) && next.beta == Some(
                value,
            ) && next == (ArgsModel { beta: next.beta, ..args }))
        }),
{
    lemma_options_differ();
}

proof fn lemma_options_differ()
    ensures
        "-c"@ != "-b"@,
        "-c"@.len() == 2,
        "-b"@.len() == 2,
        "-h"@.len() == 2,
        "-q"@.len() == 2,
        "-h"@ != "-c"@,
        "-h"@ != "-b"@,
        "-q"@ != "-c"@,
        "-q"@ != "-b"@,
        "-q"@ != "-h"@,
        "--candidate"@.len() == 11,
        "--baseline"@.len() == 10,
        "--rounds"@.len() == 8,
        "--pairs"@.len() == 7,
        "--jobs"@.len() == 6,
        "--p1"@.len() == 4,
        "--alpha"@.len() == 7,
        "--beta"@.len() == 6,
        "--help"@.len() == 6,
        "--quiet"@.len() == 7,
        "--pairs"@ != "--alpha"@,
        "--pairs"@ != "--quiet"@,
        "--alpha"@ != "--quiet"@,
        "--jobs"@ != "--beta"@,
        "--jobs"@ != "--help"@,
        "--beta"@ != "--help"@,
{
    reveal_strlit("-c");
    reveal_strlit("-b");
    reveal_strlit("-h");
    reveal_strlit("-q");
    reveal_strlit("--candidate");
    reveal_strlit("--baseline");
    reveal_strlit("--rounds");
    reveal_strlit("--pairs");
    reveal_strlit("--jobs");
    reveal_strlit("--p1");
    reveal_strlit("--alpha");
    reveal_strlit("--beta");
    reveal_strlit("--help");
    reveal_strlit("--quiet");
    assert("-c"@[1] == 'c' && "-b"@[1] == 'b' && "-h"@[1] == 'h' && "-q"@[1] == 'q');
    assert("--pairs"@[2] == 'p' && "--alpha"@[2] == 'a' && "--quiet"@[2] == 'q');
    assert("--jobs"@[2] == 'j' && "--beta"@[2] == 'b' && "--help"@[2] == 'h');
}

/// Help ends the reading, in both spellings; a run made quiet goes on with the next
/// argument and differs in nothing else.
pub proof fn help_ends_and_quiet_goes_on(
    argv: Seq<Seq<char>>,
    readings: Seq<ArgReading>,
    i: int,
    args: ArgsModel,
)
    requires
        0 <= i < argv.len(),
    ensures
        argv[i] == "-h"@ || argv[i] == "--help"@ ==> asked(argv, readings, i, args) == Ok::<
            CommandModel,
            Seq<char>,
        >(CommandModel::Help),
        argv[i] == "-q"@ || argv[i] == "--quiet"@ ==> asked(argv, readings, i, args) == asked(
            argv,
            readings,
            i + 1,
            ArgsModel {
                candidate: args.candidate,
                baseline: args.baseline,
                rounds: args.rounds,
                pairs: args.pairs,
                jobs: args.jobs,
                p1: args.p1,
                alpha: args.alpha,
                beta: args.beta,
                quiet: true,
            },
        ),
{
    lemma_options_differ();
}

/// Whether a text is one of the ten options that a value follows.
pub open spec fn is_valued(flag: Seq<char>) -> bool {
    seq![
        "-c"@,
        "--candidate"@,
        "-b"@,
        "--baseline"@,
        "--rounds"@,
        "--pairs"@,
        "--jobs"@,
        "--p1"@,
        "--alpha"@,
        "--beta"@,
    ].contains(flag)
}

proof fn lemma_valued(flag: Seq<char>)
    ensures
        is_valued(flag) <==> takes_value(flag),
{
    let row = seq![
        "-c"@,
        "--candidate"@,
        "-b"@,
        "--baseline"@,
        "--rounds"@,
        "--pairs"@,
        "--jobs"@,
        "--p1"@,
        "--alpha"@,
        "--beta"@,
    ];
    assert(row[0] == "-c"@ && row[1] == "--candidate"@ && row[2] == "-b"@ && row[3]
        == "--baseline"@ && row[4] == "--rounds"@);
    assert(row[5] == "--pairs"@ && row[6] == "--jobs"@ && row[7] == "--p1"@ && row[8]
        == "--alpha"@ && row[9] == "--beta"@);
}

/// An option takes the argument right behind it for its value, and the reading goes on
/// behind both; an option at the end lacks its value, and a value that is wrong ends
/// the reading.
pub proof fn an_option_takes_the_next_argument(
    argv: Seq<Seq<char>>,
    readings: Seq<ArgReading>,
    i: int,
    args: ArgsModel,
)
    requires
        0 <= i < argv.len(),
        is_valued(argv[i]),
    ensures
        i == argv.len() - 1 ==> asked(argv, readings, i, args) == Err::<CommandModel, Seq<char>>(
            argv[i] + " needs a value"@,
        ),
        i < argv.len() - 1 ==> match option_set(args, argv[i], argv[i + 1], readings[i + 1]) {
            Ok(next) => asked(argv, readings, i, args) == asked(argv, readings, i + 2, next),
            Err(message) => asked(argv, readings, i, args) == Err::<CommandModel, Seq<char>>(
                message,
            ),
        },
{
    lemma_options_differ();
    lemma_valued(argv[i]);
}

/// Whatever is none of the options is named as unknown.
pub proof fn an_unknown_option_is_named(
    argv: Seq<Seq<char>>,
    readings: Seq<ArgReading>,
    i: int,
    args: ArgsModel,
)
    requires
        0 <= i < argv.len(),
        !is_valued(argv[i]),
        argv[i] != "-h"@,
        argv[i] != "--help"@,
        argv[i] != "-q"@,
        argv[i] != "--quiet"@,
    ensures
        asked(argv, readings, i, args) == Err::<CommandModel, Seq<char>>(
            "unknown option "@ + argv[i],
        ),
{
    lemma_valued(argv[i]);
}

/// With nothing left to read the run is as it was asked for so far: by no arguments,
/// as it is by default.
pub proof fn without_arguments_the_defaults_run(
    argv: Seq<Seq<char>>,
    readings: Seq<ArgReading>,
    args: ArgsModel,
)
    ensures
        asked(argv, readings, argv.len() as int, args) == Ok::<CommandModel, Seq<char>>(
            CommandModel::Run(args),
        ),
{
}

/// The candidate plays on its own side and the baseline on every other.
pub proof fn each_side_has_one_bot(
    candidate: BotProfile,
    baseline: BotProfile,
    team: u8,
    side: u8,
)
    ensures
        profile_on(candidate, baseline, team, team) == candidate,
        side != team ==> profile_on(candidate, baseline, team, side) == baseline,
{
}

/// A pair's margin is the rounds that the candidate won, as the first side of the one
/// match and the second of the other, less those that it lost; everything else is the
/// two matches' together.
pub proof fn a_pair_adds_up_its_matches(west: Outcome, east: Outcome)
    ensures
        paired(west, east).margin == (west.wins@[0] + east.wins@[1]) - (west.wins@[1]
            + east.wins@[0]),
        paired(west, east).kills == game::total(west.kills@) + game::total(east.kills@),
        paired(west, east).ticks == west.ticks + east.ticks,
        paired(west, east).draws == west.draws + east.draws,
{
}

/// Each pair that a run takes is one more in its number and in the test's, and adds its
/// own kills, ticks and draws.
pub proof fn a_run_adds_up_its_pairs(run: RunModel, pair: Pair)
    ensures
        ({
            let next = with_pair(run, pair);
            &&& next.played == run.played + 1
            &&& next.kills == run.kills + pair.kills
            &&& next.ticks == run.ticks + pair.ticks
            &&& next.drawn == run.drawn + pair.draws
            &&& pair.margin > 0 ==> next.sprt == (TallyModel {
                wins: run.sprt.wins + 1,
                losses: run.sprt.losses,
                ties: run.sprt.ties,
            })
            &&& pair.margin < 0 ==> next.sprt == (TallyModel {
                wins: run.sprt.wins,
                losses: run.sprt.losses + 1,
                ties: run.sprt.ties,
            })
            &&& pair.margin == 0 ==> next.sprt == (TallyModel {
                wins: run.sprt.wins,
                losses: run.sprt.losses,
                ties: run.sprt.ties + 1,
            })
        }),
        unplayed().played == 0,
        unplayed().kills == 0,
        unplayed().ticks == 0,
        unplayed().drawn == 0,
{
}

/// A batch is as many pairs as are played at once, or what is left to the limit where
/// that is fewer: it never passes the limit, and never holds back.
pub proof fn a_batch_is_as_large_as_it_can_be(played: int, limit: int, jobs: int)
    requires
        0 <= played < limit,
        1 <= jobs,
    ensures
        1 <= batch_after(played, limit, jobs) <= jobs,
        played + batch_after(played, limit, jobs) <= limit,
        batch_after(played, limit, jobs) < jobs ==> played + batch_after(played, limit, jobs)
            == limit,
{
}

/// A batch is taken by index from the lowest up.
pub proof fn a_batch_goes_by_index(batch: Seq<Played>, i: int, j: int)
    requires
        0 <= i < j < batch.len(),
    ensures
        order::arranged(batch)[i].index <= order::arranged(batch)[j].index,
{
    order::arranging_puts_in_order(batch);
    assert(order::arranged(batch)[i].le(order::arranged(batch)[j]));
}

/// Contracts speak of what is to be measured by what it holds.
pub proof fn arguments_are_seen_as_they_are(args: Args, argv: Seq<String>, i: int)
    ensures
        args@.candidate == args.candidate,
        args@.baseline == args.baseline,
        args@.rounds == args.rounds,
        args@.pairs == args.pairs,
        args@.jobs == args.jobs,
        args.p1 matches Some(t) ==> args@.p1 == Some(t@),
        args.p1 is None ==> args@.p1 is None,
        args.alpha matches Some(t) ==> args@.alpha == Some(t@),
        args.alpha is None ==> args@.alpha is None,
        args.beta matches Some(t) ==> args@.beta == Some(t@),
        args.beta is None ==> args@.beta is None,
        args@.quiet == args.quiet,
        command_view(Command::Help) == CommandModel::Help,
        command_view(Command::Run(args)) == CommandModel::Run(args@),
        argv_view(argv).len() == argv.len(),
        0 <= i < argv.len() ==> argv_view(argv)[i] == argv[i]@,
{
}

/// Contracts speak of a pair and of a run by their numbers.
pub proof fn a_run_is_seen_as_it_is(pair: Pair, run: Run)
    ensures
        pair@.margin == pair.margin,
        pair@.kills == pair.kills,
        pair@.ticks == pair.ticks,
        pair@.draws == pair.draws,
        run@.sprt == run.sprt@,
        run@.played == run.played,
        run@.kills == run.kills,
        run@.ticks == run.ticks,
        run@.drawn == run.drawn,
        run.sprt.recorded() == run.sprt.wins + run.sprt.losses + run.sprt.ties,
{
}

} // verus!
