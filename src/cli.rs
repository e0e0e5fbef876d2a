//! Command-line arguments: the file to read, the report mode and how much to print.
use vstd::prelude::*;

verus! {

/// What a run reports.
#[derive(Clone, Copy, Debug, PartialEq, Eq, Structural)]
pub enum Mode {
    /// The features used, in id order.
    Detect,
    /// The features used, by count, with their shares.
    Stats,
    /// The features with their mnemonics, then the registers, by count.
    Details,
}

/// How much a run prints besides its report.
#[derive(Clone, Copy, Debug, PartialEq, Eq, Structural)]
pub enum Output {
    Quiet,
    Normal,
    Verbose,
}

/// The place of a verbosity level, from quiet to verbose.
pub open spec fn rank(o: Output) -> int {
    match o {
        Output::Quiet => 0,
        Output::Normal => 1,
        Output::Verbose => 2,
    }
}

impl Output {
    /// Whether text meant for `level` and above is printed at this level.
    pub fn shows(self, level: Output) -> (r: bool)
        ensures
            r == (rank(self) >= rank(level)),
    {
        let a: u8 = match self {
            Output::Quiet => 0,
            Output::Normal => 1,
            Output::Verbose => 2,
        };
        let b: u8 = match level {
            Output::Quiet => 0,
            Output::Normal => 1,
            Output::Verbose => 2,
        };
        a >= b
    }
}

/// The settings that the arguments give; each is unset where no argument names it.
#[derive(Debug, PartialEq, Eq)]
pub struct Config {
    pub file_path: Option<String>,
    pub mode: Option<Mode>,
    pub output: Option<Output>,
}

/// The model of a [`Config`].
pub struct ConfigView {
    pub file_path: Option<Seq<char>>,
    pub mode: Option<Mode>,
    pub output: Option<Output>,
}

impl View for Config {
    type V = ConfigView;

    open spec fn view(&self) -> ConfigView {
        ConfigView {
            file_path: match self.file_path {
                Some(s) => Some(s@),
                None => None,
            },
            mode: self.mode,
            output: self.output,
        }
    }
}

impl Default for Config {
    fn default() -> (r: Config)
        ensures
            r.file_path is None,
            r.mode is None,
            r.output is None,
    {
        Config { file_path: None, mode: None, output: None }
    }
}

impl Config {
    pub fn file_path(&self) -> (r: Option<&str>)
        ensures
            r is None <==> self.file_path is None,
            r is Some ==> r->0@ == self.file_path->0@,
    {
        match &self.file_path {
            Some(s) => Some(s.as_str()),
            None => None,
        }
    }

    pub fn mode(&self) -> (r: Option<Mode>)
        ensures
            r == self.mode,
    {
        self.mode
    }

    pub fn output(&self) -> (r: Option<Output>)
        ensures
            r == self.output,
    {
        self.output
    }
}

/// An argument that cannot be read.
#[derive(Debug, PartialEq, Eq)]
pub enum Error {
    /// The option, which needs a value, is the last argument.
    NoValue(String),
    /// The option and the value it does not accept.
    InvalidValue(String, String),
    /// An option that does not exist.
    Unknown(String),
}

/// The model of an [`Error`].
pub enum ErrorView {
    NoValue(Seq<char>),
    InvalidValue(Seq<char>, Seq<char>),
    Unknown(Seq<char>),
}

impl View for Error {
    type V = ErrorView;

    open spec fn view(&self) -> ErrorView {
        match self {
            Error::NoValue(a) => ErrorView::NoValue(a@),
            Error::InvalidValue(a, v) => ErrorView::InvalidValue(a@, v@),
            Error::Unknown(a) => ErrorView::Unknown(a@),
        }
    }
}

/// The model of what [`read_args`] returns.
pub open spec fn outcome_view(r: Result<Option<Config>, Error>) -> Result<Option<ConfigView>, ErrorView> {
    match r {
        Ok(Some(c)) => Ok(Some(c@)),
        Ok(None) => Ok(None),
        Err(e) => Err(e@),
    }
}

/// The mode that the value `s` of `--mode` names.
pub open spec fn mode_named(s: Seq<char>) -> Option<Mode> {
    if s == "detect"@ {
        Some(Mode::Detect)
    } else if s == "stats"@ {
        Some(Mode::Stats)
    } else if s == "details"@ {
        Some(Mode::Details)
    } else {
        None
    }
}

/// The level that the value `s` of `--output` names.
pub open spec fn output_named(s: Seq<char>) -> Option<Output> {
    if s == "quiet"@ {
        Some(Output::Quiet)
    } else if s == "normal"@ {
        Some(Output::Normal)
    } else if s == "verbose"@ {
        Some(Output::Verbose)
    } else {
        None
    }
}

pub open spec fn with_path(c: ConfigView, p: Seq<char>) -> ConfigView {
    ConfigView { file_path: Some(p), mode: c.mode, output: c.output }
}

pub open spec fn with_mode(c: ConfigView, m: Mode) -> ConfigView {
    ConfigView { file_path: c.file_path, mode: Some(m), output: c.output }
}

pub open spec fn with_output(c: ConfigView, o: Output) -> ConfigView {
    ConfigView { file_path: c.file_path, mode: c.mode, output: Some(o) }
}

/// Reads the arguments from index `i` on, into the settings `c` so far.
/// Arguments are read in order, a later one overriding an earlier one:
/// an empty argument is skipped; one that does not start with `-` is the
/// file path; `--` makes the next argument, whatever it is, the file path and
/// ends the reading; `-h` or `--help` asks for help, with no settings.
pub open spec fn parse_from(args: Seq<Seq<char>>, i: int, c: ConfigView) -> Result<
    Option<ConfigView>,
    ErrorView,
>
    decreases args.len() - i,
{
    if i < 0 || i >= args.len() {
        Ok(Some(c))
    } else {
        let a = args[i];
        let has_value = i + 1 < args.len();
        if a == "--"@ {
            if has_value {
                Ok(Some(with_path(c, args[i + 1])))
            } else {
                Ok(Some(c))
            }
        } else if a.len() == 0 {
            parse_from(args, i + 1, c)
        } else if a[0] != '-' {
            parse_from(args, i + 1, with_path(c, a))
        } else if a == "--mode"@ {
            if !has_value {
                Err(ErrorView::NoValue(a))
            } else if mode_named(args[i + 1]) is Some {
                parse_from(args, i + 2, with_mode(c, mode_named(args[i + 1])->0))
            } else {
                Err(ErrorView::InvalidValue(a, args[i + 1]))
            }
        } else if a == "-s"@ || a == "--stats"@ {
            parse_from(args, i + 1, with_mode(c, Mode::Stats))
        } else if a == "-d"@ || a == "--details"@ {
            parse_from(args, i + 1, with_mode(c, Mode::Details))
        } else if a == "--output"@ {
            if !has_value {
                Err(ErrorView::NoValue(a))
            } else if output_named(args[i + 1]) is Some {
                parse_from(args, i + 2, with_output(c, output_named(args[i + 1])->0))
            } else {
                Err(ErrorView::InvalidValue(a, args[i + 1]))
            }
        } else if a == "-v"@ || a == "--verbose"@ {
            parse_from(args, i + 1, with_output(c, Output::Verbose))
        } else if a == "-q"@ || a == "--quiet"@ {
            parse_from(args, i + 1, with_output(c, Output::Quiet))
        } else if a == "-h"@ || a == "--help"@ {
            Ok(None)
        } else {
            Err(ErrorView::Unknown(a))
        }
    }
}

/// What the arguments `args` give: settings, a request for help (`None`),
/// or the first argument that cannot be read.
pub open spec fn parse_args(args: Seq<Seq<char>>) -> Result<Option<ConfigView>, ErrorView> {
    parse_from(args, 0, ConfigView { file_path: None, mode: None, output: None })
}

/// Whether `a` and `b` hold the same characters.
fn same(a: &str, b: &str) -> (r: bool)
    ensures
        r == (a@ == b@),
{
    let n = a.unicode_len();
    if n != b.unicode_len() {
        return false;
    }
    let mut i: usize = 0;
    while i < n
        invariant
            i <= n,
            n == a@.len(),
            n == b@.len(),
            forall|k: int| 0 <= k < i ==> a@[k] == b@[k],
        decreases n - i,
    {
        if a.get_char(i) != b.get_char(i) {
            return false;
        }
        i += 1;
    }
    assert(a@ =~= b@);
    true
}

fn mode_of(s: &str) -> (r: Option<Mode>)
    ensures
        r == mode_named(s@),
{
    if same(s, "detect") {
        Some(Mode::Detect)
    } else if same(s, "stats") {
        Some(Mode::Stats)
    } else if same(s, "details") {
        Some(Mode::Details)
    } else {
        None
    }
}

fn output_of(s: &str) -> (r: Option<Output>)
    ensures
        r == output_named(s@),
{
    if same(s, "quiet") {
        Some(Output::Quiet)
    } else if same(s, "normal") {
        Some(Output::Normal)
    } else if same(s, "verbose") {
        Some(Output::Verbose)
    } else {
        None
    }
}

/// The characters of each argument.
pub open spec fn texts(args: Seq<&str>) -> Seq<Seq<char>> {
    args.map_values(|a: &str| a@)
}

/// Reads the command-line arguments, the program name left out.
pub fn read_args(args: &[&str]) -> (r: Result<Option<Config>, Error>)
    ensures
        outcome_view(r) == parse_args(texts(args@)),
{
    let ghost v = texts(args@);
    let mut config = Config { file_path: None, mode: None, output: None };
    let mut i: usize = 0;
    while i < args.len()
        invariant
            i <= args.len(),
            v == texts(args@),
            parse_from(v, i as int, config@) == parse_args(v),
        decreases args.len() - i,
    {
        let arg = args[i];
        assert(v[i as int] == arg@);
        let has_value = i + 1 < args.len();
        if has_value {
            assert(v[i + 1] == args@[i + 1]@);
        }
        if same(arg, "--") {
            if has_value {
                config.file_path = Some(args[i + 1].to_owned());
            }
            return Ok(Some(config));
        }
        if arg.unicode_len() == 0 {
            i += 1;
        } else if arg.get_char(0) != '-' {
            config.file_path = Some(arg.to_owned());
            i += 1;
        } else if same(arg, "--mode") {
            if !has_value {
                return Err(Error::NoValue(arg.to_owned()));
            }
            match mode_of(args[i + 1]) {
                Some(m) => {
                    config.mode = Some(m);
                    i += 2;
                },
                None => {
                    return Err(Error::InvalidValue(arg.to_owned(), args[i + 1].to_owned()));
                },
            }
        } else if same(arg, "-s") || same(arg, "--stats") {
            config.mode = Some(Mode::Stats);
            i += 1;
        } else if same(arg, "-d") || same(arg, "--details") {
            config.mode = Some(Mode::Details);
            i += 1;
        } else if same(arg, "--output") {
            if !has_value {
                return Err(Error::NoValue(arg.to_owned()));
            }
            match output_of(args[i + 1]) {
                Some(o) => {
                    config.output = Some(o);
                    i += 2;
                },
                None => {
                    return Err(Error::InvalidValue(arg.to_owned(), args[i + 1].to_owned()));
                },
            }
        } else if same(arg, "-v") || same(arg, "--verbose") {
            config.output = Some(Output::Verbose);
            i += 1;
        } else if same(arg, "-q") || same(arg, "--quiet") {
            config.output = Some(Output::Quiet);
            i += 1;
        } else if same(arg, "-h") || same(arg, "--help") {
            return Ok(None);
        } else {
            return Err(Error::Unknown(arg.to_owned()));
        }
    }
    Ok(Some(config))
}

} // verus!
