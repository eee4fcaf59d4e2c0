//! The command line: global options, the choice of a command, and the options
//! of each command.

use vstd::prelude::*;

use crate::cli::{text2, text3, usage, usage_fail, Fail, FailView};
use crate::decimal::{parse_u64, u64_value};
use crate::text::{owned_texts, same, strip_prefix};
use crate::VERSION;

verus! {

/// What follows the name and version in the main help text.
pub const MAIN_HELP: &'static str = "\nShadow snapshots of your working tree per agent turn: blame lines to turns, restore any state.\n\nUSAGE:\n    snapref [-C DIR] <COMMAND> [OPTIONS]\n\nCOMMANDS:\n    init                    Create the shadow store (.snapref/) for this working tree\n    snap                    Record the current working tree as the next turn\n    log                     List recorded turns, newest first\n    status                  Compare the working tree against the latest turn\n    blame <PATH>            Attribute each line of a file to the turn that wrote it\n    diff [FROM] [TO]        Unified diff between two turns (or the working tree, 'wt')\n    show <TURN[:PATH]>      Show snapshot metadata, or a file's exact bytes at a turn\n    restore <TURN>          Restore the working tree (or --path files) to a turn\n    verify                  Check object-store integrity (rehash everything)\n\nOPTIONS:\n    -C <DIR>                Run as if snapref was started in DIR\n    -h, --help              Print this help\n    -V, --version           Print version\n\nENVIRONMENT:\n    SNAPREF_AGENT           Default value for 'snap --agent'\n    SNAPREF_TIME            Fixed unix timestamp, for reproducible snapshots\n\nRun 'snapref <COMMAND> --help' for command options.\n";

/// The help text of `init`.
pub const INIT_HELP: &'static str = "USAGE:\n    snapref init\n\nCreates .snapref/ in the current directory (idempotent).\n";

/// The help text of `snap`.
pub const SNAP_HELP: &'static str = "USAGE:\n    snapref snap [--label TEXT] [--agent NAME] [--turn N] [--json]\n\nRecords the working tree as the next turn. --turn pins an explicit\nturn number (must be greater than the latest); --agent defaults to\nthe SNAPREF_AGENT environment variable.\n";

/// The help text of `log`.
pub const LOG_HELP: &'static str = "USAGE:\n    snapref log [--limit N] [--json]\n\nLists recorded turns, newest first.\n";

/// The help text of `status`.
pub const STATUS_HELP: &'static str = "USAGE:\n    snapref status [--json]\n\nCompares the working tree against the latest turn.\n";

/// The help text of `blame`.
pub const BLAME_HELP: &'static str = "USAGE:\n    snapref blame <PATH> [--at TURN] [--json]\n\nAttributes each line of PATH (working-tree version by default) to\nthe turn that wrote it. --at blames the file as of a past turn.\n";

/// The help text of `diff`.
pub const DIFF_HELP: &'static str = "USAGE:\n    snapref diff [FROM] [TO] [--path PATH ...] [--json]\n\nFROM/TO are turn numbers or 'wt' (the working tree). With no\narguments, diffs the latest turn against the working tree; with one\nargument, diffs that turn against the working tree.\n";

/// The help text of `show`.
pub const SHOW_HELP: &'static str = "USAGE:\n    snapref show <TURN> [--json]      snapshot metadata + file list\n    snapref show <TURN>:<PATH>        a file's exact bytes at that turn\n";

/// The help text of `restore`.
pub const RESTORE_HELP: &'static str = "USAGE:\n    snapref restore <TURN> [--path PATH ...] [--no-backup] [--force]\n\nRestores the working tree to TURN. A dirty tree is snapped as an\nautomatic backup turn first; --no-backup skips that and then\nrequires --force to discard changes. --path limits the restore to\nfiles (or directory prefixes) and never deletes anything.\n";

/// The help text of `verify`.
pub const VERIFY_HELP: &'static str = "USAGE:\n    snapref verify\n\nRehashes every object and checks ref/tree/parent reachability.\n";

/// The main help text.
pub open spec fn main_help_text() -> Seq<char> {
    "snapref "@ + VERSION@ + MAIN_HELP@
}

/// The main help text.
pub fn main_help() -> (r: String)
    ensures
        r@ == main_help_text(),
{
    text3("snapref ", VERSION, MAIN_HELP)
}

/// What the global options ask for.
pub enum StartView {
    /// Print to standard output and succeed.
    Print(Seq<char>),
    /// Print to standard error and exit with code 2.
    Complain(Seq<char>),
    /// Run the command at a place of the arguments, from a directory.
    Command { dir: Option<Seq<char>>, at: int },
}

/// What the global options ask for.
#[derive(Debug)]
pub enum Start {
    /// Print to standard output and succeed.
    Print(String),
    /// Print to standard error and exit with code 2.
    Complain(String),
    /// Run the command at a place of the arguments, from a directory.
    Command { dir: Option<String>, at: usize },
}

impl View for Start {
    type V = StartView;

    open spec fn view(&self) -> StartView {
        match *self {
            Start::Print(s) => StartView::Print(s@),
            Start::Complain(s) => StartView::Complain(s@),
            Start::Command { dir, at } => StartView::Command {
                dir: crate::object::option_text(dir),
                at: at as int,
            },
        }
    }
}

/// What the global options from place `i` on ask for.
pub open spec fn started(args: Seq<Seq<char>>, i: int, dir: Option<Seq<char>>) -> Result<
    StartView,
    FailView,
>
    decreases args.len() - i,
{
    if i < 0 || i >= args.len() {
        Ok(StartView::Complain(main_help_text()))
    } else if args[i] == "-C"@ {
        if i + 1 < args.len() {
            started(args, i + 2, Some(args[i + 1]))
        } else {
            Err(usage_fail("-C requires a directory argument"@))
        }
    } else if args[i] == "-V"@ || args[i] == "--version"@ {
        Ok(StartView::Print("snapref "@ + VERSION@ + "\n"@))
    } else if args[i] == "-h"@ || args[i] == "--help"@ || args[i] == "help"@ {
        Ok(StartView::Print(main_help_text()))
    } else {
        Ok(StartView::Command { dir, at: i })
    }
}

/// Read the global options. The last `-C` counts.
pub fn dispatch(args: &[String]) -> (r: Result<Start, Fail>)
    ensures
        match r {
            Ok(s) => started(owned_texts(args@), 0, None) == Ok::<StartView, FailView>(s@),
            Err(f) => started(owned_texts(args@), 0, None) == Err::<StartView, FailView>(f@),
        },
{
    let ghost v = owned_texts(args@);
    let mut i: usize = 0;
    let mut dir: Option<String> = None;
    let n: usize = args.len();
    while i < n
        invariant
            i <= n,
            n == args@.len(),
            v == owned_texts(args@),
            started(v, 0, None) == started(v, i as int, crate::object::option_text(dir)),
        decreases n - i,
    {
        let arg = args[i].as_str();
        assert(v[i as int] == args@[i as int]@);
        if same(arg, "-C") {
            if i == n - 1 {
                return Err(usage("-C requires a directory argument".to_string()));
            }
            assert(v[i + 1] == args@[i + 1]@);
            dir = Some(args[i + 1].clone());
            i = i + 2;
        } else if same(arg, "-V") || same(arg, "--version") {
            return Ok(Start::Print(text3("snapref ", VERSION, "\n")));
        } else if same(arg, "-h") || same(arg, "--help") || same(arg, "help") {
            return Ok(Start::Print(main_help()));
        } else {
            return Ok(Start::Command { dir, at: i });
        }
    }
    Ok(Start::Complain(main_help()))
}

/// The options of `snap`.
pub struct SnapOptionsView {
    pub label: Seq<char>,
    pub agent: Option<Seq<char>>,
    pub turn: Option<u64>,
    pub json: bool,
}

/// The options of `snap`.
#[derive(Debug)]
pub struct SnapOptions {
    pub label: String,
    pub agent: Option<String>,
    pub turn: Option<u64>,
    pub json: bool,
}

impl View for SnapOptions {
    type V = SnapOptionsView;

    open spec fn view(&self) -> SnapOptionsView {
        SnapOptionsView {
            label: self.label@,
            agent: crate::object::option_text(self.agent),
            turn: self.turn,
            json: self.json,
        }
    }
}

/// The options of `log`.
#[derive(Debug, Clone, Copy, PartialEq, Eq)]
pub struct LogOptions {
    pub limit: Option<u64>,
    pub json: bool,
}

/// The options of `blame`.
pub struct BlameOptionsView {
    pub path: Option<Seq<char>>,
    pub at: Option<u64>,
    pub json: bool,
}

/// The options of `blame`.
#[derive(Debug)]
pub struct BlameOptions {
    pub path: String,
    pub at: Option<u64>,
    pub json: bool,
}

/// The options of `diff`.
pub struct DiffOptionsView {
    pub sides: Seq<Seq<char>>,
    pub paths: Seq<Seq<char>>,
    pub json: bool,
}

/// The options of `diff`.
#[derive(Debug)]
pub struct DiffOptions {
    pub sides: Vec<String>,
    pub paths: Vec<String>,
    pub json: bool,
}

impl View for DiffOptions {
    type V = DiffOptionsView;

    open spec fn view(&self) -> DiffOptionsView {
        DiffOptionsView {
            sides: owned_texts(self.sides@),
            paths: owned_texts(self.paths@),
            json: self.json,
        }
    }
}

/// The options of `show`.
pub struct ShowOptionsView {
    pub target: Option<Seq<char>>,
    pub json: bool,
}

/// The options of `show`.
#[derive(Debug)]
pub struct ShowOptions {
    pub target: String,
    pub json: bool,
}

/// The options of `restore`.
pub struct RestoreOptionsView {
    pub turn: Option<u64>,
    pub paths: Seq<Seq<char>>,
    pub force: bool,
    pub no_backup: bool,
}

/// The options of `restore`.
#[derive(Debug)]
pub struct RestoreOptions {
    pub turn: u64,
    pub paths: Vec<String>,
    pub force: bool,
    pub no_backup: bool,
}

/// The value of the flag at place `i`.
pub open spec fn flag_value(args: Seq<Seq<char>>, i: int, flag: Seq<char>) -> Result<
    Seq<char>,
    FailView,
> {
    if i + 1 < args.len() {
        Ok(args[i + 1])
    } else {
        Err(usage_fail(flag + " requires a value"@))
    }
}

/// The number that is the value of the flag at place `i`.
pub open spec fn flag_number(args: Seq<Seq<char>>, i: int, flag: Seq<char>) -> Result<
    u64,
    FailView,
> {
    match flag_value(args, i, flag) {
        Err(f) => Err(f),
        Ok(raw) => match u64_value(raw) {
            Some(n) => Ok(n),
            None => Err(usage_fail(flag + " requires a number (got '"@ + raw + "')"@)),
        },
    }
}

fn take_value(args: &[String], i: usize, flag: &str) -> (r: Result<String, Fail>)
    requires
        i < args@.len(),
    ensures
        match r {
            Ok(v) => i + 1 < args@.len() && flag_value(owned_texts(args@), i as int, flag@) == Ok::<
                Seq<char>,
                FailView,
            >(v@),
            Err(f) => flag_value(owned_texts(args@), i as int, flag@) == Err::<
                Seq<char>,
                FailView,
            >(f@),
        },
{
    let n: usize = args.len();
    if i < n - 1 {
        assert(owned_texts(args@)[i + 1] == args@[i + 1]@);
        Ok(args[i + 1].clone())
    } else {
        Err(usage(text2(flag, " requires a value")))
    }
}

fn take_number(args: &[String], i: usize, flag: &str) -> (r: Result<u64, Fail>)
    requires
        i < args@.len(),
    ensures
        match r {
            Ok(v) => i + 1 < args@.len() && flag_number(owned_texts(args@), i as int, flag@)
                == Ok::<u64, FailView>(v),
            Err(f) => flag_number(owned_texts(args@), i as int, flag@) == Err::<u64, FailView>(f@),
        },
{
    let raw = take_value(args, i, flag)?;
    match parse_u64(raw.as_str()) {
        Some(n) => Ok(n),
        None => {
            let mut msg = text2(flag, " requires a number (got '");
            msg.append(raw.as_str());
            msg.append("')");
            Err(usage(msg))
        },
    }
}

/// Some argument asks for help.
pub open spec fn wants_help(args: Seq<Seq<char>>) -> bool {
    exists|i: int|
        0 <= i < args.len() && (#[trigger] args[i] == "-h"@ || args[i] == "--help"@)
}

/// Whether some argument asks for help.
pub fn asks_help(args: &[String]) -> (r: bool)
    ensures
        r == wants_help(owned_texts(args@)),
{
    let ghost v = owned_texts(args@);
    let mut i: usize = 0;
    while i < args.len()
        invariant
            i <= args@.len(),
            v == owned_texts(args@),
            forall|j: int| 0 <= j < i ==> #[trigger] v[j] != "-h"@ && v[j] != "--help"@,
        decreases args@.len() - i,
    {
        assert(v[i as int] == args@[i as int]@);
        if same(args[i].as_str(), "-h") || same(args[i].as_str(), "--help") {
            return true;
        }
        i = i + 1;
    }
    false
}

/// The text starts with the prefix.
pub fn starts_with(s: &str, prefix: &str) -> (r: bool)
    ensures
        r == prefix@.is_prefix_of(s@),
{
    match strip_prefix(s, prefix) {
        Some(rest) => {
            assert(prefix@ =~= s@.subrange(0, prefix@.len() as int));
            true
        },
        None => false,
    }
}

/// The message for an option that a command does not know.
pub open spec fn unknown_option(command: Seq<char>, option: Seq<char>) -> FailView {
    usage_fail("unknown "@ + command + " option '"@ + option + "'"@)
}

fn unknown(command: &str, option: &str) -> (r: Fail)
    ensures
        r@ == unknown_option(command@, option@),
{
    let mut msg = text3("unknown ", command, " option '");
    msg.append(option);
    msg.append("'");
    usage(msg)
}

/// The arguments of a command that takes none.
pub open spec fn no_arguments(command: Seq<char>, args: Seq<Seq<char>>) -> Option<FailView> {
    if args.len() == 0 {
        None
    } else {
        Some(usage_fail(command + " takes no arguments (got '"@ + args[0] + "')"@))
    }
}

/// Refuse any argument.
pub fn parse_none(command: &str, args: &[String]) -> (r: Result<(), Fail>)
    ensures
        match r {
            Ok(_) => no_arguments(command@, owned_texts(args@)) is None,
            Err(f) => no_arguments(command@, owned_texts(args@)) == Some(f@),
        },
{
    if args.len() == 0 {
        return Ok(());
    }
    assert(owned_texts(args@)[0] == args@[0]@);
    let mut msg = text2(command, " takes no arguments (got '");
    msg.append(args[0].as_str());
    msg.append("')");
    Err(usage(msg))
}

/// The options of `snap` from place `i` on, added to `o`.
pub open spec fn snap_options(args: Seq<Seq<char>>, i: int, o: SnapOptionsView) -> Result<
    SnapOptionsView,
    FailView,
>
    decreases args.len() - i,
{
    if i < 0 || i >= args.len() {
        Ok(o)
    } else if args[i] == "--label"@ {
        match flag_value(args, i, "--label"@) {
            Ok(label) => snap_options(args, i + 2, SnapOptionsView { label, ..o }),
            Err(f) => Err(f),
        }
    } else if args[i] == "--agent"@ {
        match flag_value(args, i, "--agent"@) {
            Ok(agent) => snap_options(args, i + 2, SnapOptionsView { agent: Some(agent), ..o }),
            Err(f) => Err(f),
        }
    } else if args[i] == "--turn"@ {
        match flag_number(args, i, "--turn"@) {
            Ok(turn) => snap_options(args, i + 2, SnapOptionsView { turn: Some(turn), ..o }),
            Err(f) => Err(f),
        }
    } else if args[i] == "--json"@ {
        snap_options(args, i + 1, SnapOptionsView { json: true, ..o })
    } else {
        Err(unknown_option("snap"@, args[i]))
    }
}

/// No options of `snap`.
pub open spec fn no_snap_options() -> SnapOptionsView {
    SnapOptionsView { label: Seq::empty(), agent: None, turn: None, json: false }
}

/// Read the options of `snap`.
pub fn parse_snap(args: &[String]) -> (r: Result<SnapOptions, Fail>)
    ensures
        match r {
            Ok(o) => snap_options(owned_texts(args@), 0, no_snap_options()) == Ok::<
                SnapOptionsView,
                FailView,
            >(o@),
            Err(f) => snap_options(owned_texts(args@), 0, no_snap_options()) == Err::<
                SnapOptionsView,
                FailView,
            >(f@),
        },
{
    let ghost v = owned_texts(args@);
    let mut o = SnapOptions { label: String::new(), agent: None, turn: None, json: false };
    assert(o@ == no_snap_options());
    let n: usize = args.len();
    let mut i: usize = 0;
    while i < n
        invariant
            i <= n,
            n == args@.len(),
            v == owned_texts(args@),
            snap_options(v, 0, no_snap_options()) == snap_options(v, i as int, o@),
        decreases n - i,
    {
        let arg = args[i].as_str();
        assert(v[i as int] == args@[i as int]@);
        if same(arg, "--label") {
            o.label = take_value(args, i, "--label")?;
            i = i + 2;
        } else if same(arg, "--agent") {
            o.agent = Some(take_value(args, i, "--agent")?);
            i = i + 2;
        } else if same(arg, "--turn") {
            o.turn = Some(take_number(args, i, "--turn")?);
            i = i + 2;
        } else if same(arg, "--json") {
            o.json = true;
            i = i + 1;
        } else {
            return Err(unknown("snap", arg));
        }
    }
    Ok(o)
}

/// The options of `log` from place `i` on, added to `o`.
pub open spec fn log_options(args: Seq<Seq<char>>, i: int, o: LogOptions) -> Result<
    LogOptions,
    FailView,
>
    decreases args.len() - i,
{
    if i < 0 || i >= args.len() {
        Ok(o)
    } else if args[i] == "--limit"@ {
        match flag_number(args, i, "--limit"@) {
            Ok(limit) => log_options(args, i + 2, LogOptions { limit: Some(limit), ..o }),
            Err(f) => Err(f),
        }
    } else if args[i] == "--json"@ {
        log_options(args, i + 1, LogOptions { json: true, ..o })
    } else {
        Err(unknown_option("log"@, args[i]))
    }
}

/// No options of `log`.
pub open spec fn no_log_options() -> LogOptions {
    LogOptions { limit: None, json: false }
}

/// Read the options of `log`.
pub fn parse_log(args: &[String]) -> (r: Result<LogOptions, Fail>)
    ensures
        match r {
            Ok(o) => log_options(owned_texts(args@), 0, no_log_options()) == Ok::<
                LogOptions,
                FailView,
            >(o),
            Err(f) => log_options(owned_texts(args@), 0, no_log_options()) == Err::<
                LogOptions,
                FailView,
            >(f@),
        },
{
    let ghost v = owned_texts(args@);
    let mut o = LogOptions { limit: None, json: false };
    let n: usize = args.len();
    let mut i: usize = 0;
    while i < n
        invariant
            i <= n,
            n == args@.len(),
            v == owned_texts(args@),
            log_options(v, 0, no_log_options()) == log_options(v, i as int, o),
        decreases n - i,
    {
        let arg = args[i].as_str();
        assert(v[i as int] == args@[i as int]@);
        if same(arg, "--limit") {
            o.limit = Some(take_number(args, i, "--limit")?);
            i = i + 2;
        } else if same(arg, "--json") {
            o.json = true;
            i = i + 1;
        } else {
            return Err(unknown("log", arg));
        }
    }
    Ok(o)
}

/// The only option of `status`: whether the arguments from place `i` on ask for
/// JSON, where `json` says it of those before.
pub open spec fn status_options(args: Seq<Seq<char>>, i: int, json: bool) -> Result<bool, FailView>
    decreases args.len() - i,
{
    if i < 0 || i >= args.len() {
        Ok(json)
    } else if args[i] == "--json"@ {
        status_options(args, i + 1, true)
    } else {
        Err(unknown_option("status"@, args[i]))
    }
}

/// Read the options of `status`.
pub fn parse_status(args: &[String]) -> (r: Result<bool, Fail>)
    ensures
        match r {
            Ok(json) => status_options(owned_texts(args@), 0, false) == Ok::<bool, FailView>(json),
            Err(f) => status_options(owned_texts(args@), 0, false) == Err::<bool, FailView>(f@),
        },
{
    let ghost v = owned_texts(args@);
    let mut json: bool = false;
    let mut i: usize = 0;
    while i < args.len()
        invariant
            i <= args@.len(),
            v == owned_texts(args@),
            status_options(v, 0, false) == status_options(v, i as int, json),
        decreases args@.len() - i,
    {
        assert(v[i as int] == args@[i as int]@);
        if same(args[i].as_str(), "--json") {
            json = true;
        } else {
            return Err(unknown("status", args[i].as_str()));
        }
        i = i + 1;
    }
    Ok(json)
}

impl View for BlameOptions {
    type V = BlameOptionsView;

    open spec fn view(&self) -> BlameOptionsView {
        BlameOptionsView { path: Some(self.path@), at: self.at, json: self.json }
    }
}

/// The options of `blame` from place `i` on, added to `o`.
pub open spec fn blame_options(args: Seq<Seq<char>>, i: int, o: BlameOptionsView) -> Result<
    BlameOptionsView,
    FailView,
>
    decreases args.len() - i,
{
    if i < 0 || i >= args.len() {
        if o.path is None {
            Err(usage_fail("blame requires a PATH (see 'snapref blame --help')"@))
        } else {
            Ok(o)
        }
    } else if args[i] == "--at"@ {
        match flag_number(args, i, "--at"@) {
            Ok(at) => blame_options(args, i + 2, BlameOptionsView { at: Some(at), ..o }),
            Err(f) => Err(f),
        }
    } else if args[i] == "--json"@ {
        blame_options(args, i + 1, BlameOptionsView { json: true, ..o })
    } else if "-"@.is_prefix_of(args[i]) {
        Err(unknown_option("blame"@, args[i]))
    } else if o.path is Some {
        Err(usage_fail("blame takes exactly one PATH"@))
    } else {
        blame_options(args, i + 1, BlameOptionsView { path: Some(args[i]), ..o })
    }
}

/// No options of `blame`.
pub open spec fn no_blame_options() -> BlameOptionsView {
    BlameOptionsView { path: None, at: None, json: false }
}

/// Read the options of `blame`.
pub fn parse_blame(args: &[String]) -> (r: Result<BlameOptions, Fail>)
    ensures
        match r {
            Ok(o) => blame_options(owned_texts(args@), 0, no_blame_options()) == Ok::<
                BlameOptionsView,
                FailView,
            >(o@),
            Err(f) => blame_options(owned_texts(args@), 0, no_blame_options()) == Err::<
                BlameOptionsView,
                FailView,
            >(f@),
        },
{
    let ghost v = owned_texts(args@);
    let mut path: Option<String> = None;
    let mut at: Option<u64> = None;
    let mut json: bool = false;
    let n: usize = args.len();
    let mut i: usize = 0;
    while i < n
        invariant
            i <= n,
            n == args@.len(),
            v == owned_texts(args@),
            blame_options(v, 0, no_blame_options()) == blame_options(
                v,
                i as int,
                BlameOptionsView { path: crate::object::option_text(path), at, json },
            ),
        decreases n - i,
    {
        let arg = args[i].as_str();
        assert(v[i as int] == args@[i as int]@);
        if same(arg, "--at") {
            at = Some(take_number(args, i, "--at")?);
            i = i + 2;
        } else if same(arg, "--json") {
            json = true;
            i = i + 1;
        } else if starts_with(arg, "-") {
            return Err(unknown("blame", arg));
        } else if path.is_some() {
            return Err(usage("blame takes exactly one PATH".to_string()));
        } else {
            path = Some(arg.to_owned());
            i = i + 1;
        }
    }
    match path {
        Some(path) => Ok(BlameOptions { path, at, json }),
        None => Err(usage("blame requires a PATH (see 'snapref blame --help')".to_string())),
    }
}

/// The options of `diff` from place `i` on, added to `o`.
pub open spec fn diff_options(args: Seq<Seq<char>>, i: int, o: DiffOptionsView) -> Result<
    DiffOptionsView,
    FailView,
>
    decreases args.len() - i,
{
    if i < 0 || i >= args.len() {
        if o.sides.len() > 2 {
            Err(usage_fail("diff takes at most two revision arguments"@))
        } else {
            Ok(o)
        }
    } else if args[i] == "--path"@ {
        match flag_value(args, i, "--path"@) {
            Ok(p) => diff_options(args, i + 2, DiffOptionsView { paths: o.paths.push(p), ..o }),
            Err(f) => Err(f),
        }
    } else if args[i] == "--json"@ {
        diff_options(args, i + 1, DiffOptionsView { json: true, ..o })
    } else if "--"@.is_prefix_of(args[i]) {
        Err(unknown_option("diff"@, args[i]))
    } else {
        diff_options(args, i + 1, DiffOptionsView { sides: o.sides.push(args[i]), ..o })
    }
}

/// No options of `diff`.
pub open spec fn no_diff_options() -> DiffOptionsView {
    DiffOptionsView { sides: Seq::empty(), paths: Seq::empty(), json: false }
}

fn push_text(list: &mut Vec<String>, text: String)
    ensures
        owned_texts(final(list)@) == owned_texts(old(list)@).push(text@),
{
    list.push(text);
    assert(owned_texts(list@) =~= owned_texts(old(list)@).push(text@));
}

/// Read the options of `diff`.
pub fn parse_diff(args: &[String]) -> (r: Result<DiffOptions, Fail>)
    ensures
        match r {
            Ok(o) => diff_options(owned_texts(args@), 0, no_diff_options()) == Ok::<
                DiffOptionsView,
                FailView,
            >(o@) && o.sides@.len() <= 2,
            Err(f) => diff_options(owned_texts(args@), 0, no_diff_options()) == Err::<
                DiffOptionsView,
                FailView,
            >(f@),
        },
{
    let ghost v = owned_texts(args@);
    let mut o = DiffOptions { sides: Vec::new(), paths: Vec::new(), json: false };
    proof {
        assert(owned_texts(o.sides@) =~= Seq::<Seq<char>>::empty());
        assert(owned_texts(o.paths@) =~= Seq::<Seq<char>>::empty());
    }
    let n: usize = args.len();
    let mut i: usize = 0;
    while i < n
        invariant
            i <= n,
            n == args@.len(),
            v == owned_texts(args@),
            diff_options(v, 0, no_diff_options()) == diff_options(v, i as int, o@),
        decreases n - i,
    {
        let arg = args[i].as_str();
        assert(v[i as int] == args@[i as int]@);
        if same(arg, "--path") {
            let p = take_value(args, i, "--path")?;
            push_text(&mut o.paths, p);
            i = i + 2;
        } else if same(arg, "--json") {
            o.json = true;
            i = i + 1;
        } else if starts_with(arg, "--") {
            return Err(unknown("diff", arg));
        } else {
            push_text(&mut o.sides, arg.to_owned());
            i = i + 1;
        }
    }
    assert(owned_texts(o.sides@).len() == o.sides@.len());
    if o.sides.len() > 2 {
        return Err(usage("diff takes at most two revision arguments".to_string()));
    }
    Ok(o)
}

impl View for ShowOptions {
    type V = ShowOptionsView;

    open spec fn view(&self) -> ShowOptionsView {
        ShowOptionsView { target: Some(self.target@), json: self.json }
    }
}

/// The options of `show` from place `i` on, added to `o`.
pub open spec fn show_options(args: Seq<Seq<char>>, i: int, o: ShowOptionsView) -> Result<
    ShowOptionsView,
    FailView,
>
    decreases args.len() - i,
{
    if i < 0 || i >= args.len() {
        if o.target is None {
            Err(usage_fail("show requires TURN or TURN:PATH (see 'snapref show --help')"@))
        } else {
            Ok(o)
        }
    } else if args[i] == "--json"@ {
        show_options(args, i + 1, ShowOptionsView { json: true, ..o })
    } else if "-"@.is_prefix_of(args[i]) {
        Err(unknown_option("show"@, args[i]))
    } else if o.target is Some {
        Err(usage_fail("show takes exactly one TURN[:PATH] argument"@))
    } else {
        show_options(args, i + 1, ShowOptionsView { target: Some(args[i]), ..o })
    }
}

/// No options of `show`.
pub open spec fn no_show_options() -> ShowOptionsView {
    ShowOptionsView { target: None, json: false }
}

/// Read the options of `show`.
pub fn parse_show(args: &[String]) -> (r: Result<ShowOptions, Fail>)
    ensures
        match r {
            Ok(o) => show_options(owned_texts(args@), 0, no_show_options()) == Ok::<
                ShowOptionsView,
                FailView,
            >(o@),
            Err(f) => show_options(owned_texts(args@), 0, no_show_options()) == Err::<
                ShowOptionsView,
                FailView,
            >(f@),
        },
{
    let ghost v = owned_texts(args@);
    let mut target: Option<String> = None;
    let mut json: bool = false;
    let mut i: usize = 0;
    while i < args.len()
        invariant
            i <= args@.len(),
            v == owned_texts(args@),
            show_options(v, 0, no_show_options()) == show_options(
                v,
                i as int,
                ShowOptionsView { target: crate::object::option_text(target), json },
            ),
        decreases args@.len() - i,
    {
        let arg = args[i].as_str();
        assert(v[i as int] == args@[i as int]@);
        if same(arg, "--json") {
            json = true;
        } else if starts_with(arg, "-") {
            return Err(unknown("show", arg));
        } else if target.is_some() {
            return Err(usage("show takes exactly one TURN[:PATH] argument".to_string()));
        } else {
            target = Some(arg.to_owned());
        }
        i = i + 1;
    }
    match target {
        Some(target) => Ok(ShowOptions { target, json }),
        None => Err(
            usage("show requires TURN or TURN:PATH (see 'snapref show --help')".to_string()),
        ),
    }
}

impl View for RestoreOptions {
    type V = RestoreOptionsView;

    open spec fn view(&self) -> RestoreOptionsView {
        RestoreOptionsView {
            turn: Some(self.turn),
            paths: owned_texts(self.paths@),
            force: self.force,
            no_backup: self.no_backup,
        }
    }
}

/// The options of `restore` from place `i` on, added to `o`.
pub open spec fn restore_options(args: Seq<Seq<char>>, i: int, o: RestoreOptionsView) -> Result<
    RestoreOptionsView,
    FailView,
>
    decreases args.len() - i,
{
    if i < 0 || i >= args.len() {
        if o.turn is None {
            Err(usage_fail("restore requires a TURN (see 'snapref restore --help')"@))
        } else {
            Ok(o)
        }
    } else if args[i] == "--path"@ {
        match flag_value(args, i, "--path"@) {
            Ok(p) => restore_options(
                args,
                i + 2,
                RestoreOptionsView { paths: o.paths.push(p), ..o },
            ),
            Err(f) => Err(f),
        }
    } else if args[i] == "--force"@ {
        restore_options(args, i + 1, RestoreOptionsView { force: true, ..o })
    } else if args[i] == "--no-backup"@ {
        restore_options(args, i + 1, RestoreOptionsView { no_backup: true, ..o })
    } else if "-"@.is_prefix_of(args[i]) {
        Err(unknown_option("restore"@, args[i]))
    } else if o.turn is Some {
        Err(usage_fail("restore takes exactly one TURN"@))
    } else {
        match u64_value(args[i]) {
            Some(n) => restore_options(args, i + 1, RestoreOptionsView { turn: Some(n), ..o }),
            None => Err(usage_fail("'"@ + args[i] + "' is not a turn number"@)),
        }
    }
}

/// No options of `restore`.
pub open spec fn no_restore_options() -> RestoreOptionsView {
    RestoreOptionsView { turn: None, paths: Seq::empty(), force: false, no_backup: false }
}

/// Read the options of `restore`.
pub fn parse_restore(args: &[String]) -> (r: Result<RestoreOptions, Fail>)
    ensures
        match r {
            Ok(o) => restore_options(owned_texts(args@), 0, no_restore_options()) == Ok::<
                RestoreOptionsView,
                FailView,
            >(o@),
            Err(f) => restore_options(owned_texts(args@), 0, no_restore_options()) == Err::<
                RestoreOptionsView,
                FailView,
            >(f@),
        },
{
    let ghost v = owned_texts(args@);
    let mut turn: Option<u64> = None;
    let mut paths: Vec<String> = Vec::new();
    let mut force: bool = false;
    let mut no_backup: bool = false;
    assert(owned_texts(paths@) =~= Seq::<Seq<char>>::empty());
    let n: usize = args.len();
    let mut i: usize = 0;
    while i < n
        invariant
            i <= n,
            n == args@.len(),
            v == owned_texts(args@),
            restore_options(v, 0, no_restore_options()) == restore_options(
                v,
                i as int,
                RestoreOptionsView { turn, paths: owned_texts(paths@), force, no_backup },
            ),
        decreases n - i,
    {
        let arg = args[i].as_str();
        assert(v[i as int] == args@[i as int]@);
        if same(arg, "--path") {
            let p = take_value(args, i, "--path")?;
            push_text(&mut paths, p);
            i = i + 2;
        } else if same(arg, "--force") {
            force = true;
            i = i + 1;
        } else if same(arg, "--no-backup") {
            no_backup = true;
            i = i + 1;
        } else if starts_with(arg, "-") {
            return Err(unknown("restore", arg));
        } else if turn.is_some() {
            return Err(usage("restore takes exactly one TURN".to_string()));
        } else {
            match parse_u64(arg) {
                Some(n) => {
                    turn = Some(n);
                },
                None => {
                    return Err(usage(text3("'", arg, "' is not a turn number")));
                },
            }
            i = i + 1;
        }
    }
    match turn {
        Some(turn) => Ok(RestoreOptions { turn, paths, force, no_backup }),
        None => Err(
            usage("restore requires a TURN (see 'snapref restore --help')".to_string()),
        ),
    }
}

/// What a command line asks for.
pub enum RequestView {
    Print(Seq<char>),
    Init,
    Snap(SnapOptionsView),
    Log(LogOptions),
    Status(bool),
    Blame(BlameOptionsView),
    Diff(DiffOptionsView),
    Show(ShowOptionsView),
    Restore(RestoreOptionsView),
    Verify,
}

/// What a command line asks for: a help text, or a command with its options.
#[derive(Debug)]
pub enum Request {
    Print(String),
    Init,
    Snap(SnapOptions),
    Log(LogOptions),
    Status(bool),
    Blame(BlameOptions),
    Diff(DiffOptions),
    Show(ShowOptions),
    Restore(RestoreOptions),
    Verify,
}

impl View for Request {
    type V = RequestView;

    open spec fn view(&self) -> RequestView {
        match *self {
            Request::Print(s) => RequestView::Print(s@),
            Request::Init => RequestView::Init,
            Request::Snap(o) => RequestView::Snap(o@),
            Request::Log(o) => RequestView::Log(o),
            Request::Status(json) => RequestView::Status(json),
            Request::Blame(o) => RequestView::Blame(o@),
            Request::Diff(o) => RequestView::Diff(o@),
            Request::Show(o) => RequestView::Show(o@),
            Request::Restore(o) => RequestView::Restore(o@),
            Request::Verify => RequestView::Verify,
        }
    }
}

/// The help text where one is asked for, `request` otherwise.
pub open spec fn help_or(
    args: Seq<Seq<char>>,
    help: Seq<char>,
    request: Result<RequestView, FailView>,
) -> Result<RequestView, FailView> {
    if wants_help(args) {
        Ok(RequestView::Print(help))
    } else {
        request
    }
}

/// What the command `name` with its arguments asks for.
pub open spec fn requested(name: Seq<char>, args: Seq<Seq<char>>) -> Result<RequestView, FailView> {
    if name == "init"@ {
        help_or(
            args,
            INIT_HELP@,
            match no_arguments("init"@, args) {
                Some(f) => Err(f),
                None => Ok(RequestView::Init),
            },
        )
    } else if name == "snap"@ {
        help_or(
            args,
            SNAP_HELP@,
            match snap_options(args, 0, no_snap_options()) {
                Ok(o) => Ok(RequestView::Snap(o)),
                Err(f) => Err(f),
            },
        )
    } else if name == "log"@ {
        help_or(
            args,
            LOG_HELP@,
            match log_options(args, 0, no_log_options()) {
                Ok(o) => Ok(RequestView::Log(o)),
                Err(f) => Err(f),
            },
        )
    } else if name == "status"@ {
        help_or(
            args,
            STATUS_HELP@,
            match status_options(args, 0, false) {
                Ok(json) => Ok(RequestView::Status(json)),
                Err(f) => Err(f),
            },
        )
    } else if name == "blame"@ {
        help_or(
            args,
            BLAME_HELP@,
            match blame_options(args, 0, no_blame_options()) {
                Ok(o) => Ok(RequestView::Blame(o)),
                Err(f) => Err(f),
            },
        )
    } else if name == "diff"@ {
        help_or(
            args,
            DIFF_HELP@,
            match diff_options(args, 0, no_diff_options()) {
                Ok(o) => Ok(RequestView::Diff(o)),
                Err(f) => Err(f),
            },
        )
    } else if name == "show"@ {
        help_or(
            args,
            SHOW_HELP@,
            match show_options(args, 0, no_show_options()) {
                Ok(o) => Ok(RequestView::Show(o)),
                Err(f) => Err(f),
            },
        )
    } else if name == "restore"@ {
        help_or(
            args,
            RESTORE_HELP@,
            match restore_options(args, 0, no_restore_options()) {
                Ok(o) => Ok(RequestView::Restore(o)),
                Err(f) => Err(f),
            },
        )
    } else if name == "verify"@ {
        help_or(
            args,
            VERIFY_HELP@,
            match no_arguments("verify"@, args) {
                Some(f) => Err(f),
                None => Ok(RequestView::Verify),
            },
        )
    } else {
        Err(usage_fail("unknown command '"@ + name + "' (see 'snapref --help')"@))
    }
}

fn help(text: &str) -> (r: Result<Request, Fail>)
    ensures
        r matches Ok(q) && q@ == RequestView::Print(text@),
{
    Ok(Request::Print(text.to_owned()))
}

/// Read the command `name` and its arguments.
pub fn parse_command(name: &str, args: &[String]) -> (r: Result<Request, Fail>)
    ensures
        match r {
            Ok(q) => requested(name@, owned_texts(args@)) == Ok::<RequestView, FailView>(q@),
            Err(f) => requested(name@, owned_texts(args@)) == Err::<RequestView, FailView>(f@),
        },
{
    let wants: bool = asks_help(args);
    if same(name, "init") {
        if wants {
            return help(INIT_HELP);
        }
        parse_none("init", args)?;
        Ok(Request::Init)
    } else if same(name, "snap") {
        if wants {
            return help(SNAP_HELP);
        }
        Ok(Request::Snap(parse_snap(args)?))
    } else if same(name, "log") {
        if wants {
            return help(LOG_HELP);
        }
        Ok(Request::Log(parse_log(args)?))
    } else if same(name, "status") {
        if wants {
            return help(STATUS_HELP);
        }
        Ok(Request::Status(parse_status(args)?))
    } else if same(name, "blame") {
        if wants {
            return help(BLAME_HELP);
        }
        Ok(Request::Blame(parse_blame(args)?))
    } else if same(name, "diff") {
        if wants {
            return help(DIFF_HELP);
        }
        Ok(Request::Diff(parse_diff(args)?))
    } else if same(name, "show") {
        if wants {
            return help(SHOW_HELP);
        }
        Ok(Request::Show(parse_show(args)?))
    } else if same(name, "restore") {
        if wants {
            return help(RESTORE_HELP);
        }
        Ok(Request::Restore(parse_restore(args)?))
    } else if same(name, "verify") {
        if wants {
            return help(VERIFY_HELP);
        }
        parse_none("verify", args)?;
        Ok(Request::Verify)
    } else {
        Err(usage(text3("unknown command '", name, "' (see 'snapref --help')")))
    }
}

} // verus!
