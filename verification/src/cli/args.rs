//! Argument parsing.
//!
//! Global options may stand anywhere; the first other argument is the command
//! and the rest belong to it. Errors name the flag that was typed.

use crate::number::binary64::{of_int, Binary64};
use crate::text::{copy_text, same_text, views};
use vstd::prelude::*;

verus! {

/// What the user asked for.
#[derive(Debug, Clone, PartialEq)]
pub enum Command {
    /// Analyse a file and print the result without storing anything.
    Analyze { path: String, json: bool },
    /// Analyse a file and record it in the library.
    Add { path: String, force: bool },
    /// List the tracks in the library.
    List { order_by: String },
    /// Write a Rekordbox XML for one track.
    Export { path: String, out: Option<String> },
    /// Bring the library schema up to date.
    Migrate { dry_run: bool },
    /// Find tracks that move between two tempos.
    Transitions { from_bpm: Binary64, to_bpm: Binary64, tolerance: Binary64 },
    Help,
    Version,
}

/// Everything needed to run one command.
#[derive(Debug, Clone, PartialEq)]
pub struct Args {
    pub command: Command,
    /// Config file to read. Defaults to `config.json` in the working directory.
    pub config: String,
    /// Overrides the library path from the config file.
    pub library: Option<String>,
}

/// Why the command line could not be understood.
#[derive(Debug, Clone, PartialEq)]
pub enum ArgError {
    /// There is no such command.
    UnknownCommand(String),
    /// The command has no such option.
    UnknownOption(String, &'static str),
    /// A flag or a command needs something that is not there.
    MissingValue(&'static str, &'static str),
    /// The text is not a number.
    NotANumber(String),
}

/// The contents of a command.
pub enum Asked {
    Analyze { path: Seq<char>, json: bool },
    Add { path: Seq<char>, force: bool },
    List { order_by: Seq<char> },
    Export { path: Seq<char>, out: Option<Seq<char>> },
    Migrate { dry_run: bool },
    Transitions { from_bpm: Binary64, to_bpm: Binary64, tolerance: Binary64 },
    Help,
    Version,
}

impl View for Command {
    type V = Asked;

    open spec fn view(&self) -> Asked {
        match self {
            Command::Analyze { path, json } => Asked::Analyze { path: path@, json: *json },
            Command::Add { path, force } => Asked::Add { path: path@, force: *force },
            Command::List { order_by } => Asked::List { order_by: order_by@ },
            Command::Export { path, out } => Asked::Export {
                path: path@,
                out: match out {
                    Some(o) => Some(o@),
                    None => None,
                },
            },
            Command::Migrate { dry_run } => Asked::Migrate { dry_run: *dry_run },
            Command::Transitions { from_bpm, to_bpm, tolerance } => Asked::Transitions {
                from_bpm: *from_bpm,
                to_bpm: *to_bpm,
                tolerance: *tolerance,
            },
            Command::Help => Asked::Help,
            Command::Version => Asked::Version,
        }
    }
}

/// The contents of an error.
pub enum Misuse {
    UnknownCommand(Seq<char>),
    UnknownOption(Seq<char>, Seq<char>),
    MissingValue(Seq<char>, Seq<char>),
    NotANumber(Seq<char>),
}

impl View for ArgError {
    type V = Misuse;

    open spec fn view(&self) -> Misuse {
        match self {
            ArgError::UnknownCommand(c) => Misuse::UnknownCommand(c@),
            ArgError::UnknownOption(o, c) => Misuse::UnknownOption(o@, c@),
            ArgError::MissingValue(f, w) => Misuse::MissingValue(f@, w@),
            ArgError::NotANumber(t) => Misuse::NotANumber(t@),
        }
    }
}

/// The usage text.
pub const USAGE: &'static str = "\
mixlyzer - analyse DJ tracks: beatgrid, tempo, key

USAGE:
    mixlyzer <command> [options]

COMMANDS:
    analyze <file> [--json]        Analyse a file and print the result
    add <file> [--force]           Analyse a file and store it in the library
    list [--order-by <column>]     List the tracks in the library
    export <file> [--out <path>]   Write a Rekordbox XML for one track
    migrate [--dry-run]            Bring the library schema up to date
    transitions --from <bpm> --to <bpm> [--tolerance <percent>]
                                   Find tracks that move between two tempos
    help, version

GLOBAL OPTIONS:
    --config <path>                Config file (default: ./config.json)
    --library <path>               Library directory, overriding the config
";

/// The usage text, for `help` and for errors.
pub fn usage() -> (r: &'static str)
    ensures
        r@ == USAGE@,
{
    USAGE
}

/// The global options, and the places of the other arguments.
pub struct Globals {
    pub config: Seq<char>,
    pub library: Option<Seq<char>>,
    pub rest: Seq<usize>,
}

/// The global options from place `i` on, put on top of what was found before.
pub open spec fn globals_from(words: Seq<Seq<char>>, i: int, found: Globals) -> Result<Globals, Misuse>
    decreases words.len() - i,
{
    if i >= words.len() {
        Ok(found)
    } else if words[i] == "--config"@ {
        if i + 1 >= words.len() {
            Err(Misuse::MissingValue("--config"@, "a path"@))
        } else {
            globals_from(words, i + 2, Globals { config: words[i + 1], ..found })
        }
    } else if words[i] == "--library"@ {
        if i + 1 >= words.len() {
            Err(Misuse::MissingValue("--library"@, "a path"@))
        } else {
            globals_from(words, i + 2, Globals { library: Some(words[i + 1]), ..found })
        }
    } else {
        globals_from(words, i + 1, Globals { rest: found.rest.push(i as usize), ..found })
    }
}

/// Whether an argument looks like an option.
pub open spec fn is_option(word: Seq<char>) -> bool {
    word.len() >= 2 && word[0] == '-' && word[1] == '-'
}

/// The first place from `k` on in a list of arguments that is neither an option
/// nor the value behind the option that takes one.
pub open spec fn first_plain(words: Seq<Seq<char>>, options: Seq<usize>, valued: Option<Seq<char>>, k: int) -> Option<int>
    decreases options.len() - k,
{
    if k >= options.len() {
        None
    } else if valued == Some(words[options[k] as int]) {
        if k + 2 >= options.len() {
            None
        } else {
            first_plain(words, options, valued, k + 2)
        }
    } else if !is_option(words[options[k] as int]) {
        Some(k)
    } else {
        first_plain(words, options, valued, k + 1)
    }
}

/// Whether a command's options are all the flag it knows; tells whether the
/// flag was given.
pub open spec fn only_flag(
    words: Seq<Seq<char>>,
    options: Seq<usize>,
    k: int,
    flag: Seq<char>,
    command: Seq<char>,
) -> Result<bool, Misuse>
    decreases options.len() - k,
{
    if k >= options.len() {
        Ok(options.len() > 0)
    } else if words[options[k] as int] == flag {
        only_flag(words, options, k + 1, flag, command)
    } else {
        Err(Misuse::UnknownOption(words[options[k] as int], command))
    }
}

/// The last value given with the one flag that a command knows.
pub open spec fn last_value(
    words: Seq<Seq<char>>,
    options: Seq<usize>,
    k: int,
    flag: Seq<char>,
    what: Seq<char>,
    command: Seq<char>,
    held: Option<Seq<char>>,
) -> Result<Option<Seq<char>>, Misuse>
    decreases options.len() - k,
{
    if k >= options.len() {
        Ok(held)
    } else if words[options[k] as int] != flag {
        Err(Misuse::UnknownOption(words[options[k] as int], command))
    } else if k + 1 >= options.len() {
        Err(Misuse::MissingValue(flag, what))
    } else {
        last_value(words, options, k + 2, flag, what, command, Some(words[options[k + 1] as int]))
    }
}

/// The tempos and the tolerance that `transitions` takes.
pub struct Tempos {
    pub from_bpm: Option<Binary64>,
    pub to_bpm: Option<Binary64>,
    pub tolerance: Binary64,
}

/// The tempos from place `k` of the options on, put on top of what was found.
pub open spec fn tempos_from(
    words: Seq<Seq<char>>,
    numbers: Seq<Option<Binary64>>,
    options: Seq<usize>,
    k: int,
    found: Tempos,
) -> Result<Tempos, Misuse>
    decreases options.len() - k,
{
    if k >= options.len() {
        Ok(found)
    } else {
        let flag = words[options[k] as int];
        if flag != "--from"@ && flag != "--to"@ && flag != "--tolerance"@ {
            Err(Misuse::UnknownOption(flag, "transitions"@))
        } else if k + 1 >= options.len() {
            Err(Misuse::MissingValue(flag, "a number"@))
        } else {
            match numbers[options[k + 1] as int] {
                None => Err(Misuse::NotANumber(words[options[k + 1] as int])),
                Some(v) => tempos_from(
                    words,
                    numbers,
                    options,
                    k + 2,
                    if flag == "--from"@ {
                        Tempos { from_bpm: Some(v), ..found }
                    } else if flag == "--to"@ {
                        Tempos { to_bpm: Some(v), ..found }
                    } else {
                        Tempos { tolerance: v, ..found }
                    },
                ),
            }
        }
    }
}

/// What the command with the options at the given places asks for.
pub open spec fn asked(words: Seq<Seq<char>>, numbers: Seq<Option<Binary64>>, rest: Seq<usize>) -> Result<Asked, Misuse> {
    if rest.len() == 0 {
        Ok(Asked::Help)
    } else {
        let name = words[rest[0] as int];
        let options = rest.drop_first();
        if name == "help"@ || name == "--help"@ || name == "-h"@ {
            Ok(Asked::Help)
        } else if name == "version"@ || name == "--version"@ || name == "-V"@ {
            Ok(Asked::Version)
        } else if name == "analyze"@ || name == "analyse"@ {
            match first_plain(words, options, None, 0) {
                None => Err(Misuse::MissingValue("analyze"@, "a file path"@)),
                Some(p) => match only_flag(words, options.remove(p), 0, "--json"@, "analyze"@) {
                    Ok(json) => Ok(Asked::Analyze { path: words[options[p] as int], json }),
                    Err(e) => Err(e),
                },
            }
        } else if name == "add"@ {
            match first_plain(words, options, None, 0) {
                None => Err(Misuse::MissingValue("add"@, "a file path"@)),
                Some(p) => match only_flag(words, options.remove(p), 0, "--force"@, "add"@) {
                    Ok(force) => Ok(Asked::Add { path: words[options[p] as int], force }),
                    Err(e) => Err(e),
                },
            }
        } else if name == "list"@ {
            match last_value(words, options, 0, "--order-by"@, "a column"@, "list"@, None) {
                Ok(Some(order_by)) => Ok(Asked::List { order_by }),
                Ok(None) => Ok(Asked::List { order_by: "added_ts DESC"@ }),
                Err(e) => Err(e),
            }
        } else if name == "export"@ {
            match first_plain(words, options, Some("--out"@), 0) {
                None => Err(Misuse::MissingValue("export"@, "a file path"@)),
                Some(p) => match last_value(words, options.remove(p), 0, "--out"@, "a path"@, "export"@, None) {
                    Ok(out) => Ok(Asked::Export { path: words[options[p] as int], out }),
                    Err(e) => Err(e),
                },
            }
        } else if name == "migrate"@ {
            match only_flag(words, options, 0, "--dry-run"@, "migrate"@) {
                Ok(dry_run) => Ok(Asked::Migrate { dry_run }),
                Err(e) => Err(e),
            }
        } else if name == "transitions"@ {
            match tempos_from(
                words,
                numbers,
                options,
                0,
                Tempos { from_bpm: None, to_bpm: None, tolerance: of_int(3) },
            ) {
                Ok(t) => match (t.from_bpm, t.to_bpm) {
                    (None, _) => Err(Misuse::MissingValue("transitions"@, "--from <bpm>"@)),
                    (Some(_), None) => Err(Misuse::MissingValue("transitions"@, "--to <bpm>"@)),
                    (Some(from_bpm), Some(to_bpm)) => Ok(
                        Asked::Transitions { from_bpm, to_bpm, tolerance: t.tolerance },
                    ),
                },
                Err(e) => Err(e),
            }
        } else {
            Err(Misuse::UnknownCommand(name))
        }
    }
}

/// The global options of a command line.
pub open spec fn globals(words: Seq<Seq<char>>) -> Result<Globals, Misuse> {
    globals_from(words, 0, Globals { config: "config.json"@, library: None, rest: seq![] })
}

/// An optional text as characters.
pub open spec fn optional_view(text: Option<String>) -> Option<Seq<char>> {
    match text {
        Some(t) => Some(t@),
        None => None,
    }
}

/// The places of the arguments that are no global options.
struct Split {
    config: String,
    library: Option<String>,
    rest: Vec<usize>,
}

/// Pulls the global options out.
fn split_globals(argv: &Vec<String>) -> (r: Result<Split, ArgError>)
    ensures
        r is Ok <==> globals(views(argv@)) is Ok,
        r is Ok ==> {
            let g = globals(views(argv@))->Ok_0;
            &&& r->Ok_0.config@ == g.config
            &&& optional_view(r->Ok_0.library) == g.library
            &&& r->Ok_0.rest@ == g.rest
            &&& forall|i: int| 0 <= i < r->Ok_0.rest@.len() ==> #[trigger] r->Ok_0.rest@[i] < argv@.len()
        },
        r is Err ==> r->Err_0@ == globals(views(argv@))->Err_0,
{
    let mut config: String = copy_text("config.json");
    let mut library: Option<String> = None;
    let mut rest: Vec<usize> = Vec::new();
    let mut i: usize = 0;
    let total: usize = argv.len();
    while i < total
        invariant
            i <= total == argv@.len(),
            globals(views(argv@)) == globals_from(
                views(argv@),
                i as int,
                Globals { config: config@, library: optional_view(library), rest: rest@ },
            ),
            forall|k: int| 0 <= k < rest@.len() ==> #[trigger] rest@[k] < argv@.len(),
        decreases total - i,
    {
        let word: &str = argv[i].as_str();
        assert(views(argv@)[i as int] == word@);
        if same_text(word, "--config") {
            if i + 1 >= total {
                return Err(ArgError::MissingValue("--config", "a path"));
            }
            config = copy_text(argv[i + 1].as_str());
            i = i + 2;
        } else if same_text(word, "--library") {
            if i + 1 >= total {
                return Err(ArgError::MissingValue("--library", "a path"));
            }
            library = Some(copy_text(argv[i + 1].as_str()));
            i = i + 2;
        } else {
            rest.push(i);
            i = i + 1;
        }
    }
    Ok(Split { config, library, rest })
}

/// Whether every place is one of the arguments.
spec fn in_argv(options: Seq<usize>, argv: Seq<String>) -> bool {
    forall|i: int| 0 <= i < options.len() ==> #[trigger] options[i] < argv.len()
}

/// Takes the first argument that is neither an option nor a value of one as a
/// path; gives the path and the places of the other arguments.
fn take_path(
    argv: &Vec<String>,
    options: &Vec<usize>,
    valued: Option<&'static str>,
    command: &'static str,
) -> (r: Result<(String, Vec<usize>), ArgError>)
    requires
        in_argv(options@, argv@),
    ensures
        r is Ok <==> first_plain(views(argv@), options@, flag_view(valued), 0) is Some,
        r is Ok ==> {
            let p = first_plain(views(argv@), options@, flag_view(valued), 0)->0;
            &&& 0 <= p < options@.len()
            &&& r->Ok_0.0@ == views(argv@)[options@[p] as int]
            &&& r->Ok_0.1@ == options@.remove(p)
            &&& in_argv(r->Ok_0.1@, argv@)
        },
        r is Err ==> r->Err_0@ == Misuse::MissingValue(command@, "a file path"@),
{
    let total: usize = options.len();
    let mut k: usize = 0;
    while k < total
        invariant
            total == options@.len(),
            in_argv(options@, argv@),
            first_plain(views(argv@), options@, flag_view(valued), 0) == first_plain(
                views(argv@),
                options@,
                flag_view(valued),
                k as int,
            ),
        decreases total - k,
    {
        assert(options@[k as int] < argv@.len());
        let word: &str = argv[options[k]].as_str();
        let takes_value: bool = match valued {
            Some(flag) => same_text(word, flag),
            None => false,
        };
        if takes_value {
            if total - k <= 2 {
                return Err(ArgError::MissingValue(command, "a file path"));
            }
            k = k + 2;
        } else if !starts_like_option(word) {
            let path: String = copy_text(word);
            let mut flags: Vec<usize> = vstd::slice::slice_to_vec(options.as_slice());
            flags.remove(k);
            assert(in_argv(flags@, argv@)) by {
                assert forall|i: int| 0 <= i < flags@.len() implies #[trigger] flags@[i] < argv@.len() by {
                    if i < k {
                        assert(flags@[i] == options@[i]);
                    } else {
                        assert(flags@[i] == options@[i + 1]);
                    }
                }
            }
            return Ok((path, flags));
        } else {
            k = k + 1;
        }
    }
    Err(ArgError::MissingValue(command, "a file path"))
}

/// A flag as characters.
pub open spec fn flag_view(flag: Option<&'static str>) -> Option<Seq<char>> {
    match flag {
        Some(f) => Some(f@),
        None => None,
    }
}

/// Whether an argument looks like an option.
fn starts_like_option(word: &str) -> (r: bool)
    ensures
        r == is_option(word@),
{
    let chars: Vec<char> = crate::text::chars_of(word);
    chars.len() >= 2 && chars[0] == '-' && chars[1] == '-'
}

/// Whether a command's options are all the flag it knows.
fn take_flag(argv: &Vec<String>, options: &Vec<usize>, flag: &'static str, command: &'static str) -> (r: Result<bool, ArgError>)
    requires
        in_argv(options@, argv@),
    ensures
        r is Ok <==> only_flag(views(argv@), options@, 0, flag@, command@) is Ok,
        r is Ok ==> r->Ok_0 == only_flag(views(argv@), options@, 0, flag@, command@)->Ok_0,
        r is Err ==> r->Err_0@ == only_flag(views(argv@), options@, 0, flag@, command@)->Err_0,
{
    let mut k: usize = 0;
    while k < options.len()
        invariant
            k <= options@.len(),
            in_argv(options@, argv@),
            only_flag(views(argv@), options@, 0, flag@, command@) == only_flag(
                views(argv@),
                options@,
                k as int,
                flag@,
                command@,
            ),
        decreases options@.len() - k,
    {
        assert(options@[k as int] < argv@.len());
        let word: &str = argv[options[k]].as_str();
        if !same_text(word, flag) {
            return Err(ArgError::UnknownOption(copy_text(word), command));
        }
        k = k + 1;
    }
    Ok(options.len() > 0)
}

/// The last value given with the one flag that a command knows.
fn take_value(
    argv: &Vec<String>,
    options: &Vec<usize>,
    flag: &'static str,
    what: &'static str,
    command: &'static str,
) -> (r: Result<Option<String>, ArgError>)
    requires
        in_argv(options@, argv@),
    ensures
        r is Ok <==> last_value(views(argv@), options@, 0, flag@, what@, command@, None) is Ok,
        r is Ok ==> optional_view(r->Ok_0) == last_value(views(argv@), options@, 0, flag@, what@, command@, None)->Ok_0,
        r is Err ==> r->Err_0@ == last_value(views(argv@), options@, 0, flag@, what@, command@, None)->Err_0,
{
    let mut held: Option<String> = None;
    let mut k: usize = 0;
    let total: usize = options.len();
    while k < total
        invariant
            k <= total == options@.len(),
            in_argv(options@, argv@),
            last_value(views(argv@), options@, 0, flag@, what@, command@, None) == last_value(
                views(argv@),
                options@,
                k as int,
                flag@,
                what@,
                command@,
                optional_view(held),
            ),
        decreases total - k,
    {
        assert(options@[k as int] < argv@.len());
        let word: &str = argv[options[k]].as_str();
        if !same_text(word, flag) {
            return Err(ArgError::UnknownOption(copy_text(word), command));
        }
        if k + 1 >= total {
            return Err(ArgError::MissingValue(flag, what));
        }
        assert(options@[k + 1] < argv@.len());
        held = Some(copy_text(argv[options[k + 1]].as_str()));
        k = k + 2;
    }
    Ok(held)
}

/// The tempos and the tolerance that `transitions` takes.
fn take_tempos(argv: &Vec<String>, numbers: &Vec<Option<Binary64>>, options: &Vec<usize>) -> (r: Result<
    (Option<Binary64>, Option<Binary64>, Binary64),
    ArgError,
>)
    requires
        in_argv(options@, argv@),
        numbers@.len() == argv@.len(),
    ensures
        ({
            let want = tempos_from(
                views(argv@),
                numbers@,
                options@,
                0,
                Tempos { from_bpm: None, to_bpm: None, tolerance: of_int(3) },
            );
            &&& r is Ok <==> want is Ok
            &&& r is Ok ==> (Tempos { from_bpm: r->Ok_0.0, to_bpm: r->Ok_0.1, tolerance: r->Ok_0.2 }) == want->Ok_0
            &&& r is Err ==> r->Err_0@ == want->Err_0
        }),
{
    let mut from_bpm: Option<Binary64> = None;
    let mut to_bpm: Option<Binary64> = None;
    let mut tolerance: Binary64 = Binary64::from_u64(3);
    let mut k: usize = 0;
    let total: usize = options.len();
    while k < total
        invariant
            k <= total == options@.len(),
            in_argv(options@, argv@),
            numbers@.len() == argv@.len(),
            tempos_from(
                views(argv@),
                numbers@,
                options@,
                0,
                Tempos { from_bpm: None, to_bpm: None, tolerance: of_int(3) },
            ) == tempos_from(views(argv@), numbers@, options@, k as int, Tempos { from_bpm, to_bpm, tolerance }),
        decreases total - k,
    {
        assert(options@[k as int] < argv@.len());
        let word: &str = argv[options[k]].as_str();
        let which: u8 = if same_text(word, "--from") {
            0
        } else if same_text(word, "--to") {
            1
        } else if same_text(word, "--tolerance") {
            2
        } else {
            return Err(ArgError::UnknownOption(copy_text(word), "transitions"));
        };
        if k + 1 >= total {
            return Err(
                ArgError::MissingValue(
                    if which == 0 {
                        "--from"
                    } else if which == 1 {
                        "--to"
                    } else {
                        "--tolerance"
                    },
                    "a number",
                ),
            );
        }
        assert(options@[k + 1] < argv@.len());
        proof {
            reveal_strlit("--from");
            reveal_strlit("--to");
            reveal_strlit("--tolerance");
            assert("--from"@[2] != "--to"@[2]);
            assert("--from"@[2] != "--tolerance"@[2]);
            assert("--to"@.len() != "--tolerance"@.len());
        }
        match numbers[options[k + 1]] {
            None => {
                return Err(ArgError::NotANumber(copy_text(argv[options[k + 1]].as_str())));
            },
            Some(v) => {
                if which == 0 {
                    from_bpm = Some(v);
                } else if which == 1 {
                    to_bpm = Some(v);
                } else {
                    tolerance = v;
                }
            },
        }
        k = k + 2;
    }
    Ok((from_bpm, to_bpm, tolerance))
}

/// What the command at the given places asks for.
fn read_command(argv: &Vec<String>, numbers: &Vec<Option<Binary64>>, rest: &Vec<usize>) -> (r: Result<Command, ArgError>)
    requires
        in_argv(rest@, argv@),
        numbers@.len() == argv@.len(),
    ensures
        r is Ok <==> asked(views(argv@), numbers@, rest@) is Ok,
        r is Ok ==> r->Ok_0@ == asked(views(argv@), numbers@, rest@)->Ok_0,
        r is Err ==> r->Err_0@ == asked(views(argv@), numbers@, rest@)->Err_0,
{
    if rest.len() == 0 {
        return Ok(Command::Help);
    }
    assert(rest@[0] < argv@.len());
    let name: &str = argv[rest[0]].as_str();
    let options: Vec<usize> = vstd::slice::slice_to_vec(
        vstd::slice::slice_subrange(rest.as_slice(), 1, rest.len()),
    );
    assert(options@ =~= rest@.drop_first());
    assert(in_argv(options@, argv@)) by {
        assert forall|i: int| 0 <= i < options@.len() implies #[trigger] options@[i] < argv@.len() by {
            assert(options@[i] == rest@[i + 1]);
        }
    }
    if same_text(name, "help") || same_text(name, "--help") || same_text(name, "-h") {
        Ok(Command::Help)
    } else if same_text(name, "version") || same_text(name, "--version") || same_text(name, "-V") {
        Ok(Command::Version)
    } else if same_text(name, "analyze") || same_text(name, "analyse") {
        let (path, flags) = take_path(argv, &options, None, "analyze")?;
        let json: bool = take_flag(argv, &flags, "--json", "analyze")?;
        Ok(Command::Analyze { path, json })
    } else if same_text(name, "add") {
        let (path, flags) = take_path(argv, &options, None, "add")?;
        let force: bool = take_flag(argv, &flags, "--force", "add")?;
        Ok(Command::Add { path, force })
    } else if same_text(name, "list") {
        match take_value(argv, &options, "--order-by", "a column", "list")? {
            Some(order_by) => Ok(Command::List { order_by }),
            None => Ok(Command::List { order_by: copy_text("added_ts DESC") }),
        }
    } else if same_text(name, "export") {
        let (path, flags) = take_path(argv, &options, Some("--out"), "export")?;
        let out: Option<String> = take_value(argv, &flags, "--out", "a path", "export")?;
        Ok(Command::Export { path, out })
    } else if same_text(name, "migrate") {
        let dry_run: bool = take_flag(argv, &options, "--dry-run", "migrate")?;
        Ok(Command::Migrate { dry_run })
    } else if same_text(name, "transitions") {
        let (from, to, tolerance) = take_tempos(argv, numbers, &options)?;
        match from {
            None => Err(ArgError::MissingValue("transitions", "--from <bpm>")),
            Some(from_bpm) => match to {
                None => Err(ArgError::MissingValue("transitions", "--to <bpm>")),
                Some(to_bpm) => Ok(Command::Transitions { from_bpm, to_bpm, tolerance }),
            },
        }
    } else {
        Err(ArgError::UnknownCommand(copy_text(name)))
    }
}

/// Reads the arguments behind the program name. `numbers` holds, for each
/// argument, the number that it spells, if it spells one.
pub fn parse(argv: &Vec<String>, numbers: &Vec<Option<Binary64>>) -> (r: Result<Args, ArgError>)
    requires
        numbers@.len() == argv@.len(),
    ensures
        globals(views(argv@)) is Err ==> r is Err && r->Err_0@ == globals(views(argv@))->Err_0,
        globals(views(argv@)) is Ok ==> {
            let g = globals(views(argv@))->Ok_0;
            let want = asked(views(argv@), numbers@, g.rest);
            &&& r is Ok <==> want is Ok
            &&& r is Ok ==> r->Ok_0.command@ == want->Ok_0 && r->Ok_0.config@ == g.config && optional_view(
                r->Ok_0.library,
            ) == g.library
            &&& r is Err ==> r->Err_0@ == want->Err_0
        },
{
    let split: Split = split_globals(argv)?;
    let command: Command = read_command(argv, numbers, &split.rest)?;
    Ok(Args { command, config: split.config, library: split.library })
}

/// Whether two lists of places name the same arguments in the same order.
spec fn same_arguments(
    w1: Seq<Seq<char>>,
    n1: Seq<Option<Binary64>>,
    r1: Seq<usize>,
    w2: Seq<Seq<char>>,
    n2: Seq<Option<Binary64>>,
    r2: Seq<usize>,
) -> bool {
    &&& r1.len() == r2.len()
    &&& forall|i: int|
        #![trigger r1[i]]
        #![trigger r2[i]]
        0 <= i < r1.len() ==> w1[r1[i] as int] == w2[r2[i] as int] && n1[r1[i] as int] == n2[r2[i] as int]
}

proof fn lemma_first_plain_same(
    w1: Seq<Seq<char>>,
    n1: Seq<Option<Binary64>>,
    r1: Seq<usize>,
    w2: Seq<Seq<char>>,
    n2: Seq<Option<Binary64>>,
    r2: Seq<usize>,
    valued: Option<Seq<char>>,
    k: int,
)
    requires
        same_arguments(w1, n1, r1, w2, n2, r2),
        0 <= k,
    ensures
        first_plain(w1, r1, valued, k) == first_plain(w2, r2, valued, k),
        first_plain(w1, r1, valued, k) is Some ==> k <= first_plain(w1, r1, valued, k)->0 < r1.len(),
    decreases r1.len() - k,
{
    if k < r1.len() {
        lemma_first_plain_same(w1, n1, r1, w2, n2, r2, valued, k + 1);
        if k + 2 < r1.len() {
            lemma_first_plain_same(w1, n1, r1, w2, n2, r2, valued, k + 2);
        }
        assert(w1[r1[k] as int] == w2[r2[k] as int]);
    }
}

proof fn lemma_only_flag_same(
    w1: Seq<Seq<char>>,
    n1: Seq<Option<Binary64>>,
    r1: Seq<usize>,
    w2: Seq<Seq<char>>,
    n2: Seq<Option<Binary64>>,
    r2: Seq<usize>,
    k: int,
    flag: Seq<char>,
    command: Seq<char>,
)
    requires
        same_arguments(w1, n1, r1, w2, n2, r2),
        0 <= k,
    ensures
        only_flag(w1, r1, k, flag, command) == only_flag(w2, r2, k, flag, command),
    decreases r1.len() - k,
{
    if k < r1.len() {
        lemma_only_flag_same(w1, n1, r1, w2, n2, r2, k + 1, flag, command);
        assert(w1[r1[k] as int] == w2[r2[k] as int]);
    }
}

proof fn lemma_last_value_same(
    w1: Seq<Seq<char>>,
    n1: Seq<Option<Binary64>>,
    r1: Seq<usize>,
    w2: Seq<Seq<char>>,
    n2: Seq<Option<Binary64>>,
    r2: Seq<usize>,
    k: int,
    flag: Seq<char>,
    what: Seq<char>,
    command: Seq<char>,
    held: Option<Seq<char>>,
)
    requires
        same_arguments(w1, n1, r1, w2, n2, r2),
        0 <= k,
    ensures
        last_value(w1, r1, k, flag, what, command, held) == last_value(w2, r2, k, flag, what, command, held),
    decreases r1.len() - k,
{
    if k < r1.len() {
        assert(w1[r1[k] as int] == w2[r2[k] as int]);
        if k + 1 < r1.len() {
            assert(w1[r1[k + 1] as int] == w2[r2[k + 1] as int]);
            lemma_last_value_same(
                w1,
                n1,
                r1,
                w2,
                n2,
                r2,
                k + 2,
                flag,
                what,
                command,
                Some(w1[r1[k + 1] as int]),
            );
        }
    }
}

proof fn lemma_tempos_same(
    w1: Seq<Seq<char>>,
    n1: Seq<Option<Binary64>>,
    r1: Seq<usize>,
    w2: Seq<Seq<char>>,
    n2: Seq<Option<Binary64>>,
    r2: Seq<usize>,
    k: int,
    found: Tempos,
)
    requires
        same_arguments(w1, n1, r1, w2, n2, r2),
        0 <= k,
    ensures
        tempos_from(w1, n1, r1, k, found) == tempos_from(w2, n2, r2, k, found),
    decreases r1.len() - k,
{
    if k < r1.len() {
        assert(w1[r1[k] as int] == w2[r2[k] as int]);
        if k + 1 < r1.len() {
            assert(w1[r1[k + 1] as int] == w2[r2[k + 1] as int] && n1[r1[k + 1] as int] == n2[r2[k + 1] as int]);
            if n1[r1[k + 1] as int] is Some {
                let v = n1[r1[k + 1] as int]->0;
                lemma_tempos_same(w1, n1, r1, w2, n2, r2, k + 2, Tempos { from_bpm: Some(v), ..found });
                lemma_tempos_same(w1, n1, r1, w2, n2, r2, k + 2, Tempos { to_bpm: Some(v), ..found });
                lemma_tempos_same(w1, n1, r1, w2, n2, r2, k + 2, Tempos { tolerance: v, ..found });
            }
        }
    }
}

proof fn lemma_removed_same(
    w1: Seq<Seq<char>>,
    n1: Seq<Option<Binary64>>,
    o1: Seq<usize>,
    w2: Seq<Seq<char>>,
    n2: Seq<Option<Binary64>>,
    o2: Seq<usize>,
    p: int,
)
    requires
        same_arguments(w1, n1, o1, w2, n2, o2),
        0 <= p < o1.len(),
    ensures
        w1[o1[p] as int] == w2[o2[p] as int],
        same_arguments(w1, n1, o1.remove(p), w2, n2, o2.remove(p)),
{
    let f1 = o1.remove(p);
    let f2 = o2.remove(p);
    assert forall|i: int|
        #![trigger f1[i]]
        #![trigger f2[i]]
        0 <= i < f1.len() implies w1[f1[i] as int] == w2[f2[i] as int] && n1[f1[i] as int] == n2[f2[i] as int] by {
        let j = if i < p {
            i
        } else {
            i + 1
        };
        assert(f1[i] == o1[j] && f2[i] == o2[j]);
    }
}

/// What is asked depends only on the arguments that are no global options.
proof fn lemma_asked_same(
    w1: Seq<Seq<char>>,
    n1: Seq<Option<Binary64>>,
    r1: Seq<usize>,
    w2: Seq<Seq<char>>,
    n2: Seq<Option<Binary64>>,
    r2: Seq<usize>,
)
    requires
        same_arguments(w1, n1, r1, w2, n2, r2),
    ensures
        asked(w1, n1, r1) == asked(w2, n2, r2),
{
    if r1.len() > 0 {
        let o1 = r1.drop_first();
        let o2 = r2.drop_first();
        assert(w1[r1[0] as int] == w2[r2[0] as int]);
        assert(same_arguments(w1, n1, o1, w2, n2, o2)) by {
            assert forall|i: int|
                #![trigger o1[i]]
                #![trigger o2[i]]
                0 <= i < o1.len() implies w1[o1[i] as int] == w2[o2[i] as int] && n1[o1[i] as int] == n2[o2[i] as int] by {
                assert(o1[i] == r1[i + 1] && o2[i] == r2[i + 1]);
            }
        }
        lemma_first_plain_same(w1, n1, o1, w2, n2, o2, None, 0);
        lemma_first_plain_same(w1, n1, o1, w2, n2, o2, Some("--out"@), 0);
        lemma_only_flag_same(w1, n1, o1, w2, n2, o2, 0, "--dry-run"@, "migrate"@);
        lemma_last_value_same(w1, n1, o1, w2, n2, o2, 0, "--order-by"@, "a column"@, "list"@, None);
        lemma_tempos_same(
            w1,
            n1,
            o1,
            w2,
            n2,
            o2,
            0,
            Tempos { from_bpm: None, to_bpm: None, tolerance: of_int(3) },
        );
        if first_plain(w1, o1, None, 0) is Some {
            let p = first_plain(w1, o1, None, 0)->0;
            lemma_removed_same(w1, n1, o1, w2, n2, o2, p);
            lemma_only_flag_same(w1, n1, o1.remove(p), w2, n2, o2.remove(p), 0, "--json"@, "analyze"@);
            lemma_only_flag_same(w1, n1, o1.remove(p), w2, n2, o2.remove(p), 0, "--force"@, "add"@);
        }
        if first_plain(w1, o1, Some("--out"@), 0) is Some {
            let p = first_plain(w1, o1, Some("--out"@), 0)->0;
            lemma_removed_same(w1, n1, o1, w2, n2, o2, p);
            lemma_last_value_same(w1, n1, o1.remove(p), w2, n2, o2.remove(p), 0, "--out"@, "a path"@, "export"@, None);
        }
    }
}

/// Places from `from` on moved by two.
spec fn moved(rest: Seq<usize>, from: nat) -> Seq<usize> {
    Seq::new(
        rest.len(),
        |i: int|
            if rest[i] < from {
                rest[i]
            } else {
                (rest[i] + 2) as usize
            },
    )
}

/// Whether every place found is one of the arguments before `limit`.
spec fn in_range(found: Globals, limit: int) -> bool {
    forall|k: int| 0 <= k < found.rest.len() ==> #[trigger] found.rest[k] < limit
}

proof fn lemma_globals_in_range(words: Seq<Seq<char>>, i: int, found: Globals)
    requires
        0 <= i <= words.len(),
        words.len() <= usize::MAX,
        in_range(found, words.len() as int),
        globals_from(words, i, found) is Ok,
    ensures
        in_range(globals_from(words, i, found)->Ok_0, words.len() as int),
    decreases words.len() - i,
{
    if i < words.len() {
        if words[i] == "--config"@ {
            lemma_globals_in_range(words, i + 2, Globals { config: words[i + 1], ..found });
        } else if words[i] == "--library"@ {
            lemma_globals_in_range(words, i + 2, Globals { library: Some(words[i + 1]), ..found });
        } else {
            lemma_globals_in_range(words, i + 1, Globals { rest: found.rest.push(i as usize), ..found });
        }
    }
}

/// What comes first is read first.
proof fn lemma_front_is_read(front: Seq<Seq<char>>, back: Seq<Seq<char>>, i: int, found: Globals)
    requires
        0 <= i <= front.len(),
        globals_from(front, i, found) is Ok,
    ensures
        globals_from(front + back, i, found) == globals_from(
            front + back,
            front.len() as int,
            globals_from(front, i, found)->Ok_0,
        ),
    decreases front.len() - i,
{
    let words = front + back;
    if i < front.len() {
        assert(words[i] == front[i]);
        if front[i] == "--config"@ {
            assert(words[i + 1] == front[i + 1]);
            lemma_front_is_read(front, back, i + 2, Globals { config: front[i + 1], ..found });
        } else if front[i] == "--library"@ {
            assert(words[i + 1] == front[i + 1]);
            lemma_front_is_read(front, back, i + 2, Globals { library: Some(front[i + 1]), ..found });
        } else {
            lemma_front_is_read(front, back, i + 1, Globals { rest: found.rest.push(i as usize), ..found });
        }
    }
}

/// What is read with a library option put in: the same, with that library and
/// the places behind it moved.
spec fn with_library(read: Result<Globals, Misuse>, value: Seq<char>, from: nat) -> Result<Globals, Misuse> {
    match read {
        Ok(g) => Ok(Globals { library: Some(value), rest: moved(g.rest, from), ..g }),
        Err(e) => Err(e),
    }
}

/// Behind a library option the rest is read as it is without it.
proof fn lemma_back_is_read(front: Seq<Seq<char>>, back: Seq<Seq<char>>, value: Seq<char>, i: int, found: Globals)
    requires
        front.len() <= i <= front.len() + back.len(),
        front.len() + back.len() + 2 <= usize::MAX,
        !back.contains("--library"@),
        in_range(found, (front.len() + back.len()) as int),
    ensures
        ({
            let words = front + back;
            let longer = front + seq!["--library"@, value] + back;
            let held = Globals { library: Some(value), rest: moved(found.rest, front.len()), ..found };
            globals_from(longer, i + 2, held) == with_library(globals_from(words, i, found), value, front.len())
        }),
    decreases front.len() + back.len() - i,
{
    let words = front + back;
    let longer = front + seq!["--library"@, value] + back;
    if i < words.len() {
        assert(longer[i + 2] == words[i] && words[i] == back[i - front.len()]);
        assert(words[i] != "--library"@);
        if words[i] == "--config"@ {
            if i + 1 < words.len() {
                assert(longer[i + 3] == words[i + 1]);
                lemma_back_is_read(front, back, value, i + 2, Globals { config: words[i + 1], ..found });
            }
        } else {
            let next = Globals { rest: found.rest.push(i as usize), ..found };
            lemma_back_is_read(front, back, value, i + 1, next);
            assert(moved(next.rest, front.len()) =~= moved(found.rest, front.len()).push((i + 2) as usize));
        }
    }
}

/// The place of a library option never matters: wherever it is put between the
/// arguments, the command line is read as without it, with that library. What
/// is an error without it is the same error with it.
pub proof fn law_library_option_anywhere(
    front: Seq<Seq<char>>,
    back: Seq<Seq<char>>,
    front_numbers: Seq<Option<Binary64>>,
    back_numbers: Seq<Option<Binary64>>,
    value: Seq<char>,
    own: Option<Binary64>,
)
    requires
        front.len() + back.len() + 2 <= usize::MAX,
        front_numbers.len() == front.len(),
        back_numbers.len() == back.len(),
        globals(front) is Ok,
        !back.contains("--library"@),
    ensures
        ({
            let words = front + back;
            let numbers = front_numbers + back_numbers;
            let longer = front + seq!["--library"@, value] + back;
            let more = front_numbers + seq![None, own] + back_numbers;
            &&& globals(words) is Err ==> globals(longer) == globals(words)
            &&& globals(words) is Ok ==> {
                &&& globals(longer) is Ok
                &&& globals(longer)->Ok_0.library == Some(value)
                &&& globals(longer)->Ok_0.config == globals(words)->Ok_0.config
                &&& asked(longer, more, globals(longer)->Ok_0.rest) == asked(words, numbers, globals(words)->Ok_0.rest)
            }
        }),
{
    let words = front + back;
    let numbers = front_numbers + back_numbers;
    let option = seq!["--library"@, value];
    let longer = front + option + back;
    let more = front_numbers + seq![None, own] + back_numbers;
    let start = Globals { config: "config.json"@, library: None, rest: seq![] };
    let n = front.len();
    let read = globals(front)->Ok_0;
    lemma_globals_in_range(front, 0, start);
    lemma_front_is_read(front, back, 0, start);
    lemma_front_is_read(front, option + back, 0, start);
    assert(longer =~= front + (option + back));
    assert(longer[n as int] == "--library"@ && longer[n as int + 1] == value);
    reveal_strlit("--library");
    reveal_strlit("--config");
    assert("--library"@.len() != "--config"@.len());
    assert(moved(read.rest, n) =~= read.rest);
    assert(globals(longer) == globals_from(longer, n as int + 2, Globals { library: Some(value), ..read }));
    lemma_back_is_read(front, back, value, n as int, read);
    if globals(words) is Ok {
        let plain = globals(words)->Ok_0;
        let with = globals(longer)->Ok_0;
        lemma_globals_in_range(words, 0, start);
        assert(same_arguments(longer, more, with.rest, words, numbers, plain.rest)) by {
            assert forall|i: int|
                #![trigger with.rest[i]]
                #![trigger plain.rest[i]]
                0 <= i < with.rest.len() implies longer[with.rest[i] as int] == words[plain.rest[i] as int]
                && more[with.rest[i] as int] == numbers[plain.rest[i] as int] by {
                assert(plain.rest[i] < words.len());
                assert(with.rest[i] == moved(plain.rest, n)[i]);
            }
        }
        lemma_asked_same(longer, more, with.rest, words, numbers, plain.rest);
    }
}

/// Arguments that hold no global option are read without an error, with the
/// usual config and no library of their own.
pub proof fn law_plain_arguments_set_nothing(words: Seq<Seq<char>>)
    requires
        !words.contains("--config"@),
        !words.contains("--library"@),
    ensures
        globals(words) is Ok,
        globals(words)->Ok_0.config == "config.json"@,
        globals(words)->Ok_0.library is None,
{
    lemma_plain_from(words, 0, Globals { config: "config.json"@, library: None, rest: seq![] });
}

proof fn lemma_plain_from(words: Seq<Seq<char>>, i: int, found: Globals)
    requires
        0 <= i <= words.len(),
        !words.contains("--config"@),
        !words.contains("--library"@),
    ensures
        globals_from(words, i, found) is Ok,
        globals_from(words, i, found)->Ok_0.config == found.config,
        globals_from(words, i, found)->Ok_0.library == found.library,
    decreases words.len() - i,
{
    if i < words.len() {
        assert(words.contains(words[i]));
        lemma_plain_from(words, i + 1, Globals { rest: found.rest.push(i as usize), ..found });
    }
}

} // verus!
