//! Reading a command line into the settings of a run.
use vstd::prelude::*;
use crate::cli::Cli;
use crate::text::{chars_of, joined, same_text, string_of, strings_view};

verus! {

/// The settings of a run, as text.
pub struct Settings {
    pub colored_output: bool,
    pub command: Seq<char>,
    pub add_to: Seq<char>,
    pub task_ids: Seq<char>,
    pub move_id: Seq<char>,
    pub contents: Seq<char>,
}

pub open spec fn settings_of(c: Cli) -> Settings {
    Settings {
        colored_output: c.colored_output,
        command: c.command@,
        add_to: c.add_to@,
        task_ids: c.task_ids@,
        move_id: c.move_id@,
        contents: c.contents@,
    }
}

/// The settings of a run given no arguments.
pub open spec fn default_settings() -> Settings {
    Settings {
        colored_output: true,
        command: "print"@,
        add_to: "top"@,
        task_ids: Seq::empty(),
        move_id: Seq::empty(),
        contents: Seq::empty(),
    }
}

/// What a command line asks for.
#[derive(Debug)]
pub enum Request {
    /// Run a command with these settings.
    Run(Cli),
    /// Print the help text.
    Help,
    /// Print the version.
    Version,
    /// Complete a shell prompt; the words after the option.
    Completions(Vec<String>),
}

/// How the options of a command line come out.
pub enum OptionsOutcome {
    Settings(Settings),
    Help,
    Version,
    Completions(Seq<Seq<char>>),
    Failed(Seq<char>),
}

/// An option is an argument that starts with `-`.
pub open spec fn is_option(a: Seq<char>) -> bool {
    a.len() > 0 && a[0] == '-'
}

/// Where `s` first has a `=`, looking from `k` on; -1 if nowhere.
pub open spec fn eq_pos(s: Seq<char>, k: int) -> int
    decreases s.len() - k,
{
    if k < 0 || k >= s.len() {
        -1
    } else if s[k] == '=' {
        k
    } else {
        eq_pos(s, k + 1)
    }
}

/// The options among `args[k..]`, read in order, applied to `st`. `-h`,
/// `-v` and `--generate-shell-completions` stop the reading; so does the
/// first option that is not understood. `-t=` and `-s=` take the text after
/// the first `=`.
pub open spec fn options_from(args: Seq<Seq<char>>, k: int, st: Settings) -> OptionsOutcome
    decreases args.len() - k,
{
    if k < 0 || k >= args.len() {
        OptionsOutcome::Settings(st)
    } else {
        let o = args[k];
        if !is_option(o) {
            options_from(args, k + 1, st)
        } else if o == "-h"@ || o == "--help"@ {
            OptionsOutcome::Help
        } else if o == "-v"@ || o == "--version"@ {
            OptionsOutcome::Version
        } else if o == "--generate-shell-completions"@ {
            OptionsOutcome::Completions(args.skip(k + 1))
        } else if o == "-c"@ || o == "--no-color"@ {
            options_from(args, k + 1, Settings { colored_output: false, ..st })
        } else if o == "-a"@ || o == "--all"@ {
            options_from(args, k + 1, Settings { task_ids: "all"@, ..st })
        } else {
            let e = eq_pos(o, 0);
            if e < 0 {
                OptionsOutcome::Failed("Unknown option `"@ + o + "`"@)
            } else {
                let key = o.take(e);
                let value = o.skip(e + 1);
                if key == "-t"@ || key == "--add-to"@ {
                    if value == "top"@ || value == "bot"@ || value == "bottom"@ {
                        options_from(args, k + 1, Settings { add_to: value, ..st })
                    } else {
                        OptionsOutcome::Failed("Invalid option value `"@ + value + "`"@)
                    }
                } else if key == "-s"@ || key == "--subtask"@ {
                    if value.len() == 0 {
                        OptionsOutcome::Failed("Please provide an id"@)
                    } else {
                        options_from(args, k + 1, Settings { task_ids: value, ..st })
                    }
                } else {
                    OptionsOutcome::Failed("Unknown option `"@ + key + "`"@)
                }
            }
        }
    }
}

/// The arguments that are not options, in order.
pub open spec fn non_options(args: Seq<Seq<char>>) -> Seq<Seq<char>>
    decreases args.len(),
{
    if args.len() == 0 {
        Seq::empty()
    } else {
        let rest = non_options(args.drop_last());
        if is_option(args.last()) { rest } else { rest.push(args.last()) }
    }
}

/// The command and its arguments: the non-options after the program's path.
pub open spec fn words_of(args: Seq<Seq<char>>) -> Seq<Seq<char>> {
    let n = non_options(args);
    if n.len() == 0 { n } else { n.drop_first() }
}

/// The word at `k`, or the empty text.
pub open spec fn word(words: Seq<Seq<char>>, k: int) -> Seq<char> {
    if k < words.len() { words[k] } else { Seq::empty() }
}

pub open spec fn single_id_message() -> Seq<char> {
    "Flag `--all` not allowed for single task commands"@
}

/// The command and its arguments applied to the settings `st` that the
/// options gave, or the message that says why they do not fit.
pub open spec fn command_from(words: Seq<Seq<char>>, st: Settings) -> Result<Settings, Seq<char>> {
    let c = word(words, 0);
    let arg = word(words, 1);
    let arg2 = word(words, 2);
    let all = st.task_ids == "all"@;
    if words.len() == 0 || c == "print"@ {
        Ok(st)
    } else if c == "clear"@ {
        Ok(Settings { command: c, ..st })
    } else if !(c == "add"@ || c == "do"@ || c == "undo"@ || c == "move"@ || c == "swap"@
        || c == "edit"@ || c == "append"@ || c == "delete"@) {
        Err("Unknown command `"@ + c + "`"@)
    } else if arg.len() == 0 && !all {
        Err("Missing arguments for `"@ + c + "`"@)
    } else if c == "add"@ {
        Ok(Settings { command: c, contents: arg, ..st })
    } else if c == "do"@ || c == "undo"@ {
        Ok(Settings { command: c, task_ids: if all { st.task_ids } else { arg }, ..st })
    } else if all {
        Err(single_id_message())
    } else if c == "delete"@ {
        Ok(Settings { command: c, task_ids: arg, ..st })
    } else if arg2.len() == 0 {
        Err("Missing second argument for `"@ + c + "`"@)
    } else if c == "move"@ || c == "swap"@ {
        if arg == arg2 {
            Err("Please provide different ids"@)
        } else {
            Ok(Settings { command: c, task_ids: arg, move_id: arg2, ..st })
        }
    } else {
        Ok(Settings { command: c, task_ids: arg, contents: arg2, ..st })
    }
}

/// The text of `cs[lo..hi]`.
fn piece(cs: &Vec<char>, lo: usize, hi: usize) -> (r: String)
    requires
        lo <= hi <= cs.len(),
    ensures
        r@ == cs@.subrange(lo as int, hi as int),
{
    let mut out: Vec<char> = Vec::new();
    let mut k: usize = lo;
    while k < hi
        invariant
            lo <= k <= hi <= cs.len(),
            out@ == cs@.subrange(lo as int, k as int),
        decreases hi - k,
    {
        out.push(cs[k]);
        proof { assert(cs@.subrange(lo as int, k + 1) =~= cs@.subrange(lo as int, k as int).push(cs@[k as int])); }
        k = k + 1;
    }
    string_of(&out)
}

/// Whether `a` is an option.
fn starts_with_dash(a: &str) -> (r: bool)
    ensures
        r == is_option(a@),
{
    let cs = chars_of(a);
    cs.len() > 0 && cs[0] == '-'
}

/// Copies of `args[lo..]`.
fn rest_of(args: &Vec<String>, lo: usize) -> (r: Vec<String>)
    requires
        lo <= args.len(),
    ensures
        strings_view(r@) == strings_view(args@).skip(lo as int),
{
    let mut out: Vec<String> = Vec::new();
    let mut k: usize = lo;
    while k < args.len()
        invariant
            lo <= k <= args.len(),
            strings_view(out@) == strings_view(args@).subrange(lo as int, k as int),
        decreases args.len() - k,
    {
        let a = args[k].clone();
        let ghost before = strings_view(out@);
        out.push(a);
        proof {
            assert(strings_view(out@) =~= before.push(args@[k as int]@));
            assert(strings_view(args@).subrange(lo as int, k + 1) =~= strings_view(args@).subrange(lo as int, k as int).push(args@[k as int]@));
        }
        k = k + 1;
    }
    out
}

/// Copies of the arguments that are not options.
pub(crate) fn non_option_copies(args: &Vec<String>) -> (r: Vec<String>)
    ensures
        strings_view(r@) == non_options(strings_view(args@)),
{
    let ghost av = strings_view(args@);
    let mut out: Vec<String> = Vec::new();
    let mut k: usize = 0;
    while k < args.len()
        invariant
            k <= args.len(),
            av == strings_view(args@),
            strings_view(out@) == non_options(av.take(k as int)),
        decreases args.len() - k,
    {
        proof {
            assert(av.take(k + 1).drop_last() =~= av.take(k as int));
            assert(av.take(k + 1).last() == args@[k as int]@);
        }
        if !starts_with_dash(args[k].as_str()) {
            let a = args[k].clone();
            let ghost before = strings_view(out@);
            out.push(a);
            proof { assert(strings_view(out@) =~= before.push(args@[k as int]@)); }
        }
        k = k + 1;
    }
    proof { assert(av.take(args.len() as int) =~= av); }
    out
}

/// The command and its arguments: copies of the non-options after the first.
fn words(args: &Vec<String>) -> (r: Vec<String>)
    ensures
        strings_view(r@) == words_of(strings_view(args@)),
{
    let mut out = non_option_copies(args);
    if out.len() > 0 {
        let ghost before = strings_view(out@);
        out.remove(0);
        proof { assert(strings_view(out@) =~= before.drop_first()); }
    }
    out
}

/// The word at `k`, or an empty string.
fn word_at(w: &Vec<String>, k: usize) -> (r: String)
    ensures
        r@ == word(strings_view(w@), k as int),
{
    if k < w.len() {
        w[k].clone()
    } else {
        String::new()
    }
}

/// Applies the command and its arguments `w` to the settings in `cli`.
fn apply_command(cli: Cli, w: &Vec<String>) -> (r: Result<Cli, String>)
    ensures
        match command_from(strings_view(w@), settings_of(cli)) {
            Ok(st) => r is Ok && settings_of(r->Ok_0) == st,
            Err(m) => r is Err && r->Err_0@ == m,
        },
{
    let mut cli = cli;
    let c = word_at(w, 0);
    let arg = word_at(w, 1);
    let arg2 = word_at(w, 2);
    let all = same_text(cli.task_ids.as_str(), "all");
    let c_str = c.as_str();
    if w.len() == 0 || same_text(c_str, "print") {
        return Ok(cli);
    }
    if same_text(c_str, "clear") {
        cli.command = c;
        return Ok(cli);
    }
    if !(same_text(c_str, "add") || same_text(c_str, "do") || same_text(c_str, "undo")
        || same_text(c_str, "move") || same_text(c_str, "swap") || same_text(c_str, "edit")
        || same_text(c_str, "append") || same_text(c_str, "delete")) {
        return Err(joined("Unknown command `", c_str, "`"));
    }
    if arg.as_str().is_empty() && !all {
        return Err(joined("Missing arguments for `", c_str, "`"));
    }
    if same_text(c_str, "add") {
        cli.command = c;
        cli.contents = arg;
        return Ok(cli);
    }
    if same_text(c_str, "do") || same_text(c_str, "undo") {
        cli.command = c;
        if !all {
            cli.task_ids = arg;
        }
        return Ok(cli);
    }
    if all {
        return Err("Flag `--all` not allowed for single task commands".to_owned());
    }
    if same_text(c_str, "delete") {
        cli.command = c;
        cli.task_ids = arg;
        return Ok(cli);
    }
    if arg2.as_str().is_empty() {
        return Err(joined("Missing second argument for `", c_str, "`"));
    }
    if same_text(c_str, "move") || same_text(c_str, "swap") {
        if same_text(arg.as_str(), arg2.as_str()) {
            return Err("Please provide different ids".to_owned());
        }
        cli.command = c;
        cli.task_ids = arg;
        cli.move_id = arg2;
        return Ok(cli);
    }
    cli.command = c;
    cli.task_ids = arg;
    cli.contents = arg2;
    Ok(cli)
}

impl Cli {
    /// Reads a command line; `args` starts with the program's path. The
    /// options come first, in order (see `options_from`), then the command and
    /// its arguments (see `command_from`).
    pub fn parse_args(args: Vec<String>) -> (r: Result<Request, String>)
        ensures
            match options_from(strings_view(args@), 0, default_settings()) {
                OptionsOutcome::Help => r matches Ok(Request::Help),
                OptionsOutcome::Version => r matches Ok(Request::Version),
                OptionsOutcome::Completions(rest) => r matches Ok(Request::Completions(v)) && strings_view(v@) == rest,
                OptionsOutcome::Failed(m) => r is Err && r->Err_0@ == m,
                OptionsOutcome::Settings(st) => match command_from(words_of(strings_view(args@)), st) {
                    Ok(done) => r matches Ok(Request::Run(c)) && settings_of(c) == done,
                    Err(m) => r is Err && r->Err_0@ == m,
                },
            },
    {
        let ghost av = strings_view(args@);
        let mut cli = Cli::new();
        proof {
            assert(cli.task_ids@ =~= Seq::<char>::empty());
            assert(cli.move_id@ =~= Seq::<char>::empty());
            assert(cli.contents@ =~= Seq::<char>::empty());
        }
        let mut k: usize = 0;
        while k < args.len()
            invariant
                k <= args.len(),
                av == strings_view(args@),
                options_from(av, 0, default_settings()) == options_from(av, k as int, settings_of(cli)),
            decreases args.len() - k,
        {
            let o = args[k].as_str();
            proof { assert(o@ == av[k as int]); }
            if !starts_with_dash(o) {
                k = k + 1;
                continue;
            }
            if same_text(o, "-h") || same_text(o, "--help") {
                return Ok(Request::Help);
            }
            if same_text(o, "-v") || same_text(o, "--version") {
                return Ok(Request::Version);
            }
            if same_text(o, "--generate-shell-completions") {
                return Ok(Request::Completions(rest_of(&args, k + 1)));
            }
            if same_text(o, "-c") || same_text(o, "--no-color") {
                cli.colored_output = false;
            } else if same_text(o, "-a") || same_text(o, "--all") {
                cli.task_ids = "all".to_owned();
            } else {
                let cs = chars_of(o);
                let mut e: usize = 0;
                while e < cs.len() && cs[e] != '='
                    invariant
                        e <= cs.len(),
                        cs@ == o@,
                        eq_pos(o@, 0) == eq_pos(o@, e as int),
                    decreases cs.len() - e,
                {
                    e = e + 1;
                }
                if e == cs.len() {
                    return Err(joined("Unknown option `", o, "`"));
                }
                let key = piece(&cs, 0, e);
                let value = piece(&cs, e + 1, cs.len());
                proof {
                    assert(key@ == o@.take(e as int));
                    assert(value@ =~= o@.skip(e + 1));
                }
                let (key_str, value_str) = (key.as_str(), value.as_str());
                if same_text(key_str, "-t") || same_text(key_str, "--add-to") {
                    if same_text(value_str, "top") || same_text(value_str, "bot") || same_text(value_str, "bottom") {
                        cli.add_to = value;
                    } else {
                        return Err(joined("Invalid option value `", value_str, "`"));
                    }
                } else if same_text(key_str, "-s") || same_text(key_str, "--subtask") {
                    if value_str.is_empty() {
                        return Err("Please provide an id".to_owned());
                    }
                    cli.task_ids = value;
                } else {
                    return Err(joined("Unknown option `", key_str, "`"));
                }
            }
            k = k + 1;
        }
        let w = words(&args);
        match apply_command(cli, &w) {
            Ok(c) => Ok(Request::Run(c)),
            Err(m) => Err(m),
        }
    }
}

} // verus!
