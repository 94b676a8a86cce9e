//! Game options: merging the command line with a config file, and the rules
//! on which options go together.

use vstd::prelude::*;

verus! {

/// What the command line gave.
pub struct CliArgs {
    /// `-w/--word`: the answer.
    pub word: Option<String>,
    /// `-r/--random`.
    pub random: bool,
    /// `-D/--difficult`: hard mode.
    pub difficult: bool,
    /// `-t/--stats`.
    pub stats: bool,
    /// `-d/--day`.
    pub day: Option<i32>,
    /// `-s/--seed`.
    pub seed: Option<u64>,
    /// `-f/--final-set`: file of answer words.
    pub final_set: Option<String>,
    /// `-a/--acceptable-set`: file of acceptable words.
    pub acceptable_set: Option<String>,
    /// `-S/--state`: state file.
    pub state: Option<String>,
    /// `--screen`: list the words that still fit after each guess.
    pub screen: bool,
}

/// What a config file gave; a field of the wrong JSON type counts as absent.
pub struct ConfigFile {
    /// `"random"`.
    pub random: Option<bool>,
    /// `"difficult"`.
    pub difficult: Option<bool>,
    /// `"stats"`.
    pub stats: Option<bool>,
    /// `"day"`.
    pub day: Option<i32>,
    /// `"seed"`.
    pub seed: Option<u64>,
    /// `"final_set"`.
    pub final_set: Option<String>,
    /// `"acceptable_set"`.
    pub acceptable_set: Option<String>,
    /// `"state"`.
    pub state: Option<String>,
    /// `"screen"`.
    pub screen: Option<bool>,
}

/// The options a game runs with.
pub struct Options {
    /// The answer given on the command line.
    pub word: Option<String>,
    /// Random mode.
    pub random: bool,
    /// Hard mode.
    pub difficult: bool,
    /// Print statistics after each round.
    pub stats: bool,
    /// The day (first round) in random mode.
    pub day: Option<i32>,
    /// The seed of random mode.
    pub seed: Option<u64>,
    /// File of answer words.
    pub final_set: Option<String>,
    /// File of acceptable words.
    pub acceptable_set: Option<String>,
    /// State file.
    pub state: Option<String>,
    /// Screening output.
    pub screen: bool,
}

/// A flag set on the command line, or else `true` in the config file.
pub open spec fn flag(cli: bool, cfg: Option<bool>) -> bool {
    cli || cfg == Some(true)
}

fn pick_flag(cli: bool, cfg: Option<bool>) -> (b: bool)
    ensures
        b == flag(cli, cfg),
{
    if cli {
        true
    } else {
        match cfg {
            Some(b) => b,
            None => false,
        }
    }
}

fn pick<T>(cli: Option<T>, cfg: Option<T>) -> (r: Option<T>)
    ensures
        r == if cli is Some {
            cli
        } else {
            cfg
        },
{
    match cli {
        Some(v) => Some(v),
        None => cfg,
    }
}

/// Merges the command line with the config file, if any: each option comes
/// from the command line when given there, else from the config file. The
/// answer word comes from the command line only. With a config file, a
/// state flag on the command line names the empty path.
pub fn resolve_options(cli: CliArgs, config: Option<ConfigFile>) -> (o: Options)
    ensures
        o.word == cli.word,
        config is None ==> {
            &&& o.random == cli.random
            &&& o.difficult == cli.difficult
            &&& o.stats == cli.stats
            &&& o.day == cli.day
            &&& o.seed == cli.seed
            &&& o.final_set == cli.final_set
            &&& o.acceptable_set == cli.acceptable_set
            &&& o.state == cli.state
            &&& o.screen == cli.screen
        },
        config matches Some(c) ==> {
            &&& o.random == flag(cli.random, c.random)
            &&& o.difficult == flag(cli.difficult, c.difficult)
            &&& o.stats == flag(cli.stats, c.stats)
            &&& o.screen == flag(cli.screen, c.screen)
            &&& o.day == if cli.day is Some {
                cli.day
            } else {
                c.day
            }
            &&& o.seed == if cli.seed is Some {
                cli.seed
            } else {
                c.seed
            }
            &&& o.final_set == if cli.final_set is Some {
                cli.final_set
            } else {
                c.final_set
            }
            &&& o.acceptable_set == if cli.acceptable_set is Some {
                cli.acceptable_set
            } else {
                c.acceptable_set
            }
            &&& cli.state is None ==> o.state == c.state
            &&& cli.state is Some ==> (o.state matches Some(p) && p@ == Seq::<char>::empty())
        },
{
    match config {
        None => Options {
            word: cli.word,
            random: cli.random,
            difficult: cli.difficult,
            stats: cli.stats,
            day: cli.day,
            seed: cli.seed,
            final_set: cli.final_set,
            acceptable_set: cli.acceptable_set,
            state: cli.state,
            screen: cli.screen,
        },
        Some(c) => {
            let state = if cli.state.is_some() {
                Some(String::new())
            } else {
                c.state
            };
            Options {
                word: cli.word,
                random: pick_flag(cli.random, c.random),
                difficult: pick_flag(cli.difficult, c.difficult),
                stats: pick_flag(cli.stats, c.stats),
                day: pick(cli.day, c.day),
                seed: pick(cli.seed, c.seed),
                final_set: pick(cli.final_set, c.final_set),
                acceptable_set: pick(cli.acceptable_set, c.acceptable_set),
                state,
                screen: pick_flag(cli.screen, c.screen),
            }
        },
    }
}

/// Options that do not go together.
#[derive(Clone, Copy, Debug, PartialEq, Eq, Structural)]
pub enum OptionError {
    /// An answer word in random mode.
    WordInRandomMode,
    /// A day or a seed outside random mode.
    DaySeedWithoutRandom,
    /// A state file outside random mode.
    StateWithoutRandom,
}

impl OptionError {
    /// The message the game prints for this error.
    pub fn message(&self) -> (m: &'static str)
        ensures
            m@ == match self {
                OptionError::WordInRandomMode => "The - w / - word parameter is not allowed in random mode"@,
                OptionError::DaySeedWithoutRandom =>
                    "The - d / - day and - s / - seed parameters are not allowed in the specified answer mode"@,
                OptionError::StateWithoutRandom =>
                    "The -- state parameter cannot be used in the specified answer mode"@,
            },
    {
        match self {
            OptionError::WordInRandomMode => "The - w / - word parameter is not allowed in random mode",
            OptionError::DaySeedWithoutRandom =>
                "The - d / - day and - s / - seed parameters are not allowed in the specified answer mode",
            OptionError::StateWithoutRandom =>
                "The -- state parameter cannot be used in the specified answer mode",
        }
    }
}

/// The first rule that `o` breaks, in the order the game checks them.
pub open spec fn option_error(o: Options) -> Option<OptionError> {
    if o.word is Some && o.random {
        Some(OptionError::WordInRandomMode)
    } else if !o.random && (o.day is Some || o.seed is Some) {
        Some(OptionError::DaySeedWithoutRandom)
    } else if !o.random && o.state is Some {
        Some(OptionError::StateWithoutRandom)
    } else {
        None
    }
}

/// Checks the rules on options: no answer word in random mode, and no day,
/// seed or state file outside it.
pub fn check_options(o: &Options) -> (r: Result<(), OptionError>)
    ensures
        r is Ok <==> option_error(*o) is None,
        r matches Err(e) ==> option_error(*o) == Some(e),
{
    if o.word.is_some() && o.random {
        return Err(OptionError::WordInRandomMode);
    }
    if !o.random && (o.day.is_some() || o.seed.is_some()) {
        return Err(OptionError::DaySeedWithoutRandom);
    }
    if !o.random && o.state.is_some() {
        return Err(OptionError::StateWithoutRandom);
    }
    Ok(())
}

/// A flag is on when the command line sets it; otherwise it is exactly the
/// config file's boolean (off when the config file has none).
pub proof fn lemma_flag_law(cli: bool, cfg: Option<bool>)
    ensures
        cli ==> flag(cli, cfg),
        !cli ==> (flag(cli, cfg) <==> (cfg matches Some(b) && b)),
        forall|b: bool| #[trigger] flag(false, Some(b)) == b,
        !flag(false, None),
{
}

} // verus!
