//! Render settings and the command line that sets them.

use crate::decimal::{parse_unsigned, parse_unsigned_spec};
use vstd::prelude::*;

verus! {

/// The settings of one render.
#[derive(Debug)]
pub struct Config {
    pub width: u32,
    pub height: u32,
    pub samples: u16,
    pub max_depth: u16,
    pub output: String,
    pub help: bool,
}

/// A [`Config`] with its output path as a sequence of characters.
pub ghost struct ConfigView {
    pub width: u32,
    pub height: u32,
    pub samples: u16,
    pub max_depth: u16,
    pub output: Seq<char>,
    pub help: bool,
}

impl ConfigView {
    /// Whether a frame can be had with these settings: it has a column and a
    /// row, each pixel has a sample, and the output has a path.
    pub open spec fn renderable(self) -> bool {
        &&& !self.help
        &&& self.width > 0
        &&& self.height > 0
        &&& self.samples > 0
        &&& self.output.len() > 0
    }
}

impl View for Config {
    type V = ConfigView;

    open spec fn view(&self) -> ConfigView {
        ConfigView {
            width: self.width,
            height: self.height,
            samples: self.samples,
            max_depth: self.max_depth,
            output: self.output@,
            help: self.help,
        }
    }
}

/// An option of the command line that takes a number.
#[derive(Clone, Copy, Debug, PartialEq, Eq, Structural)]
pub enum Flag {
    Width,
    Height,
    Samples,
    MaxDepth,
}

impl Flag {
    /// The option that `arg` spells, if it spells one.
    pub open spec fn of(arg: Seq<char>) -> Option<Flag> {
        if arg == "-w"@ {
            Some(Flag::Width)
        } else if arg == "-h"@ {
            Some(Flag::Height)
        } else if arg == "-s"@ {
            Some(Flag::Samples)
        } else if arg == "-d"@ {
            Some(Flag::MaxDepth)
        } else {
            None
        }
    }

    /// The largest number that the option takes.
    pub open spec fn limit(self) -> nat {
        match self {
            Flag::Width | Flag::Height => u32::MAX as nat,
            Flag::Samples | Flag::MaxDepth => u16::MAX as nat,
        }
    }

    /// The smallest number that the option takes: a frame has at least one
    /// column and one row, and a pixel at least one sample; a ray may have
    /// no bounce at all.
    pub open spec fn least(self) -> nat {
        match self {
            Flag::Width | Flag::Height | Flag::Samples => 1,
            Flag::MaxDepth => 0,
        }
    }

    /// The number that the option takes from `arg`, if `arg` is a numeral of
    /// a number that it takes.
    pub open spec fn value(self, arg: Seq<char>) -> Option<nat> {
        match parse_unsigned_spec(arg, self.limit()) {
            Some(value) => if self.least() <= value {
                Some(value)
            } else {
                None
            },
            None => None,
        }
    }

    /// The complaint when the command line ends after the option.
    pub open spec fn missing(self) -> Seq<char> {
        match self {
            Flag::Width => "no width provided"@,
            Flag::Height => "no height provided"@,
            Flag::Samples => "no number of samples provided"@,
            Flag::MaxDepth => "no maximum depth provided"@,
        }
    }

    /// The complaint when what follows the option is no number that it takes.
    pub open spec fn invalid(self) -> Seq<char> {
        match self {
            Flag::Width => "invalid width"@,
            Flag::Height => "invalid height"@,
            Flag::Samples => "invalid number of samples"@,
            Flag::MaxDepth => "invalid maximum depth"@,
        }
    }

    /// The settings `cfg` with this option set to `value`.
    pub open spec fn apply(self, cfg: ConfigView, value: nat) -> ConfigView {
        match self {
            Flag::Width => ConfigView { width: value as u32, ..cfg },
            Flag::Height => ConfigView { height: value as u32, ..cfg },
            Flag::Samples => ConfigView { samples: value as u16, ..cfg },
            Flag::MaxDepth => ConfigView { max_depth: value as u16, ..cfg },
        }
    }
}

/// Whether `arg` is spelled exactly as `word`.
fn spells(arg: &String, word: &str) -> (r: bool)
    ensures
        r == (arg@ == word@),
{
    let w = word.to_owned();
    arg.eq(&w)
}

/// The option that `arg` spells, if it spells one.
fn flag_of(arg: &String) -> (r: Option<Flag>)
    ensures
        r == Flag::of(arg@),
{
    if spells(arg, "-w") {
        Some(Flag::Width)
    } else if spells(arg, "-h") {
        Some(Flag::Height)
    } else if spells(arg, "-s") {
        Some(Flag::Samples)
    } else if spells(arg, "-d") {
        Some(Flag::MaxDepth)
    } else {
        None
    }
}

/// The settings before any argument is read.
pub open spec fn default_view() -> ConfigView {
    ConfigView {
        width: 1920,
        height: 1080,
        samples: 64,
        max_depth: 32,
        output: Seq::empty(),
        help: false,
    }
}

/// The settings that ask for the usage text and nothing else.
pub open spec fn need_help_view() -> ConfigView {
    ConfigView {
        width: 0,
        height: 0,
        samples: 0,
        max_depth: 0,
        output: Seq::empty(),
        help: true,
    }
}

/// What reading the arguments from position `i` on makes of the settings
/// `cfg`. An option takes the argument after it, whatever that looks like,
/// and complains unless it is a number that the option takes, so that no
/// width, height or number of samples is 0; `--help` ends the reading at
/// once; any other argument is the output path, and the last one stands. At
/// the end a path must have been given.
pub open spec fn parse_from(args: Seq<Seq<char>>, i: int, cfg: ConfigView) -> Result<
    ConfigView,
    Seq<char>,
>
    decreases args.len() - i,
{
    if i < 0 || i >= args.len() {
        if cfg.output.len() == 0 {
            Err("no output file specified"@)
        } else {
            Ok(cfg)
        }
    } else {
        match Flag::of(args[i]) {
            Some(flag) => {
                if i + 1 >= args.len() {
                    Err(flag.missing())
                } else {
                    match flag.value(args[i + 1]) {
                        Some(value) => parse_from(args, i + 2, flag.apply(cfg, value)),
                        None => Err(flag.invalid()),
                    }
                }
            },
            None => {
                if args[i] == "--help"@ {
                    Ok(need_help_view())
                } else {
                    parse_from(args, i + 1, ConfigView { output: args[i], ..cfg })
                }
            },
        }
    }
}

/// What a command line means: the program's name comes first and is skipped.
pub open spec fn parse_args_spec(args: Seq<Seq<char>>) -> Result<ConfigView, Seq<char>> {
    parse_from(args, 1, default_view())
}

/// Settings that were read without complaint either ask for help and hold
/// nothing else, or a frame can be had with them: no width, height or number
/// of samples is 0, and the output has a path.
pub proof fn lemma_parse_from_ok(args: Seq<Seq<char>>, i: int, cfg: ConfigView)
    requires
        !cfg.help,
        cfg.width > 0,
        cfg.height > 0,
        cfg.samples > 0,
    ensures
        match parse_from(args, i, cfg) {
            Ok(c) => c == need_help_view() || c.renderable(),
            Err(_) => true,
        },
    decreases args.len() - i,
{
    if 0 <= i < args.len() {
        match Flag::of(args[i]) {
            Some(flag) => {
                if i + 1 < args.len() {
                    match flag.value(args[i + 1]) {
                        Some(value) => {
                            lemma_parse_from_ok(args, i + 2, flag.apply(cfg, value));
                        },
                        None => {},
                    }
                }
            },
            None => {
                if args[i] != "--help"@ {
                    lemma_parse_from_ok(args, i + 1, ConfigView { output: args[i], ..cfg });
                }
            },
        }
    }
}

impl Flag {
    /// The complaint when the command line ends after the option.
    fn missing_message(self) -> (r: &'static str)
        ensures
            r@ == self.missing(),
    {
        match self {
            Flag::Width => "no width provided",
            Flag::Height => "no height provided",
            Flag::Samples => "no number of samples provided",
            Flag::MaxDepth => "no maximum depth provided",
        }
    }

    /// The complaint when what follows the option is no number that it takes.
    fn invalid_message(self) -> (r: &'static str)
        ensures
            r@ == self.invalid(),
    {
        match self {
            Flag::Width => "invalid width",
            Flag::Height => "invalid height",
            Flag::Samples => "invalid number of samples",
            Flag::MaxDepth => "invalid maximum depth",
        }
    }

    /// The largest number that the option takes.
    fn max_value(self) -> (r: u32)
        ensures
            r == self.limit(),
    {
        match self {
            Flag::Width | Flag::Height => u32::MAX,
            Flag::Samples | Flag::MaxDepth => 0xffff,
        }
    }

    /// Whether the option takes the number `value`.
    fn takes(self, value: u32) -> (r: bool)
        ensures
            r == (self.least() <= value),
    {
        match self {
            Flag::Width | Flag::Height | Flag::Samples => value > 0,
            Flag::MaxDepth => true,
        }
    }

    /// Sets this option in `cfg` to `value`.
    fn store(self, cfg: &mut Config, value: u32)
        requires
            value <= self.limit(),
        ensures
            final(cfg)@ == self.apply(old(cfg)@, value as nat),
    {
        match self {
            Flag::Width => cfg.width = value,
            Flag::Height => cfg.height = value,
            Flag::Samples => cfg.samples = value as u16,
            Flag::MaxDepth => cfg.max_depth = value as u16,
        }
    }
}

impl Config {
    /// Settings for a render of `w` by `h` pixels with `s` samples for each
    /// pixel and at most `md` bounces for each ray, written to `out`.
    pub fn new(w: u32, h: u32, s: u16, md: u16, out: String) -> (r: Config)
        ensures
            r@ == (ConfigView {
                width: w,
                height: h,
                samples: s,
                max_depth: md,
                output: out@,
                help: false,
            }),
    {
        Config { width: w, height: h, samples: s, max_depth: md, output: out, help: false }
    }

    /// Settings that ask for the usage text and nothing else.
    pub fn need_help() -> (r: Config)
        ensures
            r@ == need_help_view(),
    {
        Config { width: 0, height: 0, samples: 0, max_depth: 0, output: String::new(), help: true }
    }

    /// Whether a frame can be had with these settings: no width, height or
    /// number of samples is 0, the output has a path, and no help is asked
    /// for.
    pub fn is_renderable(&self) -> (r: bool)
        ensures
            r == self@.renderable(),
    {
        !self.help && self.width > 0 && self.height > 0 && self.samples > 0
            && !self.output.as_str().is_empty()
    }

    /// Reads the settings from a command line, whose first argument is the
    /// program's name. The complaint, where there is one, is that of the
    /// first argument at fault. A width, a height or a number of samples of
    /// 0 is at fault as a word that is no number is.
    pub fn parse_args(args: &Vec<String>) -> (r: Result<Config, &str>)
        ensures
            match r {
                Ok(c) => parse_args_spec(args.deep_view()) == Ok::<ConfigView, Seq<char>>(c@),
                Err(e) => parse_args_spec(args.deep_view()) == Err::<ConfigView, Seq<char>>(e@),
            },
            r matches Ok(c) ==> c@ == need_help_view() || (!c.help && c.output@.len() > 0
                && c.width > 0 && c.height > 0 && c.samples > 0),
    {
        let ghost argv = args.deep_view();
        let n: usize = args.len();
        let mut cfg = Config::default();
        let mut i: usize = 1;
        proof {
            lemma_parse_from_ok(argv, 1, default_view());
        }
        while i < n
            invariant
                n == args.len(),
                argv == args.deep_view(),
                1 <= i <= n + 1,
                parse_from(argv, i as int, cfg@) == parse_args_spec(argv),
            decreases n + 1 - i,
        {
            let arg = &args[i];
            assert(argv[i as int] == arg@);
            match flag_of(arg) {
                Some(flag) => {
                    if i + 1 >= n {
                        return Err(flag.missing_message());
                    }
                    assert(argv[i + 1] == args[i + 1]@);
                    match parse_unsigned(args[i + 1].as_str(), flag.max_value()) {
                        Some(value) => {
                            if !flag.takes(value) {
                                return Err(flag.invalid_message());
                            }
                            flag.store(&mut cfg, value);
                            i = i + 2;
                        },
                        None => {
                            return Err(flag.invalid_message());
                        },
                    }
                },
                None => {
                    if spells(arg, "--help") {
                        return Ok(Config::need_help());
                    }
                    cfg.output = arg.clone();
                    i = i + 1;
                },
            }
        }
        if cfg.output.as_str().is_empty() {
            return Err("no output file specified");
        }
        Ok(cfg)
    }
}

impl Default for Config {
    /// 1920 by 1080 pixels, 64 samples, 32 bounces, and no output path yet.
    fn default() -> (r: Config)
        ensures
            r@ == default_view(),
    {
        Config::new(1920, 1080, 64, 32, String::new())
    }
}

} // verus!
