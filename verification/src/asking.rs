//! What the options of a command line ask for: each option sets its own part of
//! the request and leaves the rest, wherever it stands, and the last one counts
//! where one is given twice.

use vstd::prelude::*;

use crate::args::{
    blame_options, diff_options, log_options, no_blame_options, no_diff_options, no_log_options,
    no_restore_options, no_show_options, no_snap_options, requested, restore_options, show_options,
    snap_options, status_options, wants_help, BlameOptionsView, DiffOptionsView, LogOptions,
    RequestView, RestoreOptionsView, ShowOptionsView, SnapOptionsView, StartView, started,
};
use crate::cli::{named_side, FailView, Side};
use crate::decimal::{law_numeral_reads_back, numeral, u64_value};

verus! {

/// No argument asks for help.
pub open spec fn no_help(args: Seq<Seq<char>>) -> bool {
    forall|i: int| 0 <= i < args.len() ==> #[trigger] args[i] != "-h"@ && args[i] != "--help"@
}

proof fn lemma_no_help(args: Seq<Seq<char>>)
    requires
        no_help(args),
    ensures
        !wants_help(args),
{
    if wants_help(args) {
        let i = choose|i: int|
            0 <= i < args.len() && (#[trigger] args[i] == "-h"@ || args[i] == "--help"@);
        assert(args[i] != "-h"@);
    }
}

/// The flags are different texts, and all of them start with a dash.
proof fn lemma_flags()
    ensures
        "--label"@.len() == 7 && "--label"@[2] == 'l' && "--label"@[3] == 'a',
        "--limit"@.len() == 7 && "--limit"@[2] == 'l' && "--limit"@[3] == 'i',
        "--agent"@.len() == 7 && "--agent"@[2] == 'a',
        "--at"@.len() == 4 && "--at"@[2] == 'a',
        "--turn"@.len() == 6 && "--turn"@[2] == 't',
        "--json"@.len() == 6 && "--json"@[2] == 'j',
        "--path"@.len() == 6 && "--path"@[2] == 'p',
        "--help"@.len() == 6 && "--help"@[2] == 'h',
        "--force"@.len() == 7 && "--force"@[2] == 'f',
        "--no-backup"@.len() == 11,
        "-h"@.len() == 2,
        "-"@ =~= seq!['-'],
        "--"@ =~= seq!['-', '-'],
{
    reveal_strlit("--label");
    reveal_strlit("--limit");
    reveal_strlit("--agent");
    reveal_strlit("--at");
    reveal_strlit("--turn");
    reveal_strlit("--json");
    reveal_strlit("--path");
    reveal_strlit("--help");
    reveal_strlit("--force");
    reveal_strlit("--no-backup");
    reveal_strlit("-h");
    reveal_strlit("-");
    reveal_strlit("--");
}

proof fn lemma_prefix(args: Seq<Seq<char>>, more: Seq<Seq<char>>, i: int)
    requires
        0 <= i < args.len(),
    ensures
        (args + more)[i] == args[i],
        i + 1 < args.len() ==> (args + more)[i + 1] == args[i + 1],
{
}

/// What options say goes on into the options behind them.
proof fn lemma_snap_goes_on(
    args: Seq<Seq<char>>,
    more: Seq<Seq<char>>,
    i: int,
    o: SnapOptionsView,
)
    requires
        0 <= i <= args.len(),
        snap_options(args, i, o) is Ok,
    ensures
        snap_options(args + more, i, o) == snap_options(
            args + more,
            args.len() as int,
            snap_options(args, i, o)->Ok_0,
        ),
        snap_options(args, args.len() as int, snap_options(args, i, o)->Ok_0) is Ok,
    decreases args.len() - i,
{
    let all = args + more;
    if i < args.len() {
        lemma_prefix(args, more, i);
        if args[i] == "--label"@ {
            lemma_snap_goes_on(args, more, i + 2, SnapOptionsView { label: args[i + 1], ..o });
        } else if args[i] == "--agent"@ {
            lemma_snap_goes_on(
                args,
                more,
                i + 2,
                SnapOptionsView { agent: Some(args[i + 1]), ..o },
            );
        } else if args[i] == "--turn"@ {
            lemma_snap_goes_on(
                args,
                more,
                i + 2,
                SnapOptionsView { turn: u64_value(args[i + 1]), ..o },
            );
        } else {
            lemma_snap_goes_on(args, more, i + 1, SnapOptionsView { json: true, ..o });
        }
    }
}

/// What options say goes on into the options behind them.
proof fn lemma_log_goes_on(
    args: Seq<Seq<char>>,
    more: Seq<Seq<char>>,
    i: int,
    o: LogOptions,
)
    requires
        0 <= i <= args.len(),
        log_options(args, i, o) is Ok,
    ensures
        log_options(args + more, i, o) == log_options(
            args + more,
            args.len() as int,
            log_options(args, i, o)->Ok_0,
        ),
        log_options(args, args.len() as int, log_options(args, i, o)->Ok_0) is Ok,
    decreases args.len() - i,
{
    let all = args + more;
    if i < args.len() {
        lemma_prefix(args, more, i);
        if args[i] == "--limit"@ {
            lemma_log_goes_on(
                args,
                more,
                i + 2,
                LogOptions { limit: u64_value(args[i + 1]), ..o },
            );
        } else {
            lemma_log_goes_on(args, more, i + 1, LogOptions { json: true, ..o });
        }
    }
}

/// What options say goes on into the options behind them.
proof fn lemma_blame_goes_on(
    args: Seq<Seq<char>>,
    more: Seq<Seq<char>>,
    i: int,
    o: BlameOptionsView,
)
    requires
        0 <= i <= args.len(),
        blame_options(args, i, o) is Ok,
    ensures
        blame_options(args + more, i, o) == blame_options(
            args + more,
            args.len() as int,
            blame_options(args, i, o)->Ok_0,
        ),
        blame_options(args, args.len() as int, blame_options(args, i, o)->Ok_0) is Ok,
    decreases args.len() - i,
{
    let all = args + more;
    if i < args.len() {
        lemma_prefix(args, more, i);
        if args[i] == "--at"@ {
            lemma_blame_goes_on(
                args,
                more,
                i + 2,
                BlameOptionsView { at: u64_value(args[i + 1]), ..o },
            );
        } else if args[i] == "--json"@ {
            lemma_blame_goes_on(args, more, i + 1, BlameOptionsView { json: true, ..o });
        } else {
            lemma_blame_goes_on(args, more, i + 1, BlameOptionsView { path: Some(args[i]), ..o });
        }
    }
}

/// What options say goes on into the options behind them.
proof fn lemma_diff_goes_on(
    args: Seq<Seq<char>>,
    more: Seq<Seq<char>>,
    i: int,
    o: DiffOptionsView,
)
    requires
        0 <= i <= args.len(),
        diff_options(args, i, o) is Ok,
    ensures
        diff_options(args + more, i, o) == diff_options(
            args + more,
            args.len() as int,
            diff_options(args, i, o)->Ok_0,
        ),
        diff_options(args, args.len() as int, diff_options(args, i, o)->Ok_0) is Ok,
    decreases args.len() - i,
{
    let all = args + more;
    if i < args.len() {
        lemma_prefix(args, more, i);
        if args[i] == "--path"@ {
            lemma_diff_goes_on(
                args,
                more,
                i + 2,
                DiffOptionsView { paths: o.paths.push(args[i + 1]), ..o },
            );
        } else if args[i] == "--json"@ {
            lemma_diff_goes_on(args, more, i + 1, DiffOptionsView { json: true, ..o });
        } else {
            lemma_diff_goes_on(
                args,
                more,
                i + 1,
                DiffOptionsView { sides: o.sides.push(args[i]), ..o },
            );
        }
    }
}

/// What options say goes on into the options behind them.
proof fn lemma_show_goes_on(
    args: Seq<Seq<char>>,
    more: Seq<Seq<char>>,
    i: int,
    o: ShowOptionsView,
)
    requires
        0 <= i <= args.len(),
        show_options(args, i, o) is Ok,
    ensures
        show_options(args + more, i, o) == show_options(
            args + more,
            args.len() as int,
            show_options(args, i, o)->Ok_0,
        ),
        show_options(args, args.len() as int, show_options(args, i, o)->Ok_0) is Ok,
    decreases args.len() - i,
{
    let all = args + more;
    if i < args.len() {
        lemma_prefix(args, more, i);
        if args[i] == "--json"@ {
            lemma_show_goes_on(args, more, i + 1, ShowOptionsView { json: true, ..o });
        } else {
            lemma_show_goes_on(args, more, i + 1, ShowOptionsView { target: Some(args[i]), ..o });
        }
    }
}

/// What options say goes on into the options behind them.
proof fn lemma_restore_goes_on(
    args: Seq<Seq<char>>,
    more: Seq<Seq<char>>,
    i: int,
    o: RestoreOptionsView,
)
    requires
        0 <= i <= args.len(),
        restore_options(args, i, o) is Ok,
    ensures
        restore_options(args + more, i, o) == restore_options(
            args + more,
            args.len() as int,
            restore_options(args, i, o)->Ok_0,
        ),
        restore_options(args, args.len() as int, restore_options(args, i, o)->Ok_0) is Ok,
    decreases args.len() - i,
{
    let all = args + more;
    if i < args.len() {
        lemma_prefix(args, more, i);
        if args[i] == "--path"@ {
            lemma_restore_goes_on(
                args,
                more,
                i + 2,
                RestoreOptionsView { paths: o.paths.push(args[i + 1]), ..o },
            );
        } else if args[i] == "--force"@ {
            lemma_restore_goes_on(args, more, i + 1, RestoreOptionsView { force: true, ..o });
        } else if args[i] == "--no-backup"@ {
            lemma_restore_goes_on(args, more, i + 1, RestoreOptionsView { no_backup: true, ..o });
        } else {
            lemma_restore_goes_on(
                args,
                more,
                i + 1,
                RestoreOptionsView { turn: u64_value(args[i]), ..o },
            );
        }
    }
}

/// The names of the commands are different texts.
proof fn lemma_command_names()
    ensures
        "init"@ != "snap"@ && "init"@ != "log"@ && "init"@ != "status"@ && "init"@ != "blame"@
            && "init"@ != "diff"@ && "init"@ != "show"@ && "init"@ != "restore"@ && "init"@
            != "verify"@,
        "snap"@ != "log"@ && "snap"@ != "status"@ && "snap"@ != "blame"@ && "snap"@ != "diff"@
            && "snap"@ != "show"@ && "snap"@ != "restore"@ && "snap"@ != "verify"@,
        "log"@ != "status"@ && "log"@ != "blame"@ && "log"@ != "diff"@ && "log"@ != "show"@
            && "log"@ != "restore"@ && "log"@ != "verify"@,
        "status"@ != "blame"@ && "status"@ != "diff"@ && "status"@ != "show"@ && "status"@
            != "restore"@ && "status"@ != "verify"@,
        "blame"@ != "diff"@ && "blame"@ != "show"@ && "blame"@ != "restore"@ && "blame"@
            != "verify"@,
        "diff"@ != "show"@ && "diff"@ != "restore"@ && "diff"@ != "verify"@,
        "show"@ != "restore"@ && "show"@ != "verify"@,
        "restore"@ != "verify"@,
{
    reveal_strlit("init");
    reveal_strlit("snap");
    reveal_strlit("log");
    reveal_strlit("status");
    reveal_strlit("blame");
    reveal_strlit("diff");
    reveal_strlit("show");
    reveal_strlit("restore");
    reveal_strlit("verify");
    assert("init"@[0] == 'i' && "snap"@[0] == 's' && "diff"@[0] == 'd' && "show"@[0] == 's');
    assert("snap"@[1] == 'n' && "show"@[1] == 'h');
    assert("status"@[0] == 's' && "verify"@[0] == 'v');
    assert("log"@.len() == 3 && "blame"@.len() == 5 && "diff"@.len() == 4);
    assert("show"@.len() == 4 && "restore"@.len() == 7 && "verify"@.len() == 6);
}

proof fn lemma_number_is_no_help(n: u64)
    ensures
        numeral(n as nat) != "-h"@,
        numeral(n as nat) != "--help"@,
        numeral(n as nat).len() > 0 && numeral(n as nat)[0] != '-',
{
    law_numeral_reads_back(n as nat);
    assert(crate::decimal::is_digit(numeral(n as nat)[0]));
    reveal_strlit("-h");
    reveal_strlit("--help");
    assert("-h"@[0] == '-' && "--help"@[0] == '-');
}

proof fn lemma_more_no_help(args: Seq<Seq<char>>, more: Seq<Seq<char>>)
    requires
        no_help(args),
        no_help(more),
    ensures
        no_help(args + more),
{
    let all = args + more;
    assert forall|i: int| 0 <= i < all.len() implies #[trigger] all[i] != "-h"@ && all[i]
        != "--help"@ by {
        if i < args.len() {
            assert(all[i] == args[i]);
        } else {
            assert(all[i] == more[i - args.len()]);
        }
    }
}

/// Each option of `snap` sets what it names and nothing else.
pub proof fn law_snap_options_add_up(
    args: Seq<Seq<char>>,
    o: SnapOptionsView,
    value: Seq<char>,
    n: u64,
)
    requires
        no_help(args),
        value != "-h"@ && value != "--help"@,
        requested("snap"@, args) == Ok::<RequestView, FailView>(RequestView::Snap(o)),
    ensures
        requested("snap"@, args + seq!["--json"@]) == Ok::<
            RequestView,
            FailView,
        >(
            RequestView::Snap(SnapOptionsView { json: true, ..o }),
        ),
        requested("snap"@, args + seq!["--label"@, value]) == Ok::<
            RequestView,
            FailView,
        >(
            RequestView::Snap(SnapOptionsView { label: value, ..o }),
        ),
        requested("snap"@, args + seq!["--agent"@, value]) == Ok::<
            RequestView,
            FailView,
        >(
            RequestView::Snap(SnapOptionsView { agent: Some(value), ..o }),
        ),
        requested("snap"@, args + seq!["--turn"@, numeral(n as nat)]) == Ok::<
            RequestView,
            FailView,
        >(
            RequestView::Snap(SnapOptionsView { turn: Some(n), ..o }),
        ),
{
    lemma_flags();
    lemma_no_help(args);
    law_numeral_reads_back(n as nat);
    lemma_number_is_no_help(n);
    {
        let more = seq!["--json"@];
        lemma_snap_goes_on(args, more, 0, no_snap_options());
        let all = args + more;
        assert(all[args.len() as int] == more[0]);
        if more.len() > 1 {
            assert(all[args.len() as int + 1] == more[1]);
        }
        lemma_more_no_help(args, more);
        reveal_with_fuel(snap_options, 2);
        let next = SnapOptionsView { json: true, ..o };
        assert(snap_options(all, all.len() as int, next) is Ok);
        lemma_snap_is_requested(all);
    }
    {
        let more = seq!["--label"@, value];
        lemma_snap_goes_on(args, more, 0, no_snap_options());
        let all = args + more;
        assert(all[args.len() as int] == more[0]);
        if more.len() > 1 {
            assert(all[args.len() as int + 1] == more[1]);
        }
        lemma_more_no_help(args, more);
        reveal_with_fuel(snap_options, 2);
        let next = SnapOptionsView { label: value, ..o };
        assert(snap_options(all, all.len() as int, next) is Ok);
        lemma_snap_is_requested(all);
    }
    {
        let more = seq!["--agent"@, value];
        lemma_snap_goes_on(args, more, 0, no_snap_options());
        let all = args + more;
        assert(all[args.len() as int] == more[0]);
        if more.len() > 1 {
            assert(all[args.len() as int + 1] == more[1]);
        }
        lemma_more_no_help(args, more);
        reveal_with_fuel(snap_options, 2);
        let next = SnapOptionsView { agent: Some(value), ..o };
        assert(snap_options(all, all.len() as int, next) is Ok);
        lemma_snap_is_requested(all);
    }
    {
        let more = seq!["--turn"@, numeral(n as nat)];
        lemma_snap_goes_on(args, more, 0, no_snap_options());
        let all = args + more;
        assert(all[args.len() as int] == more[0]);
        if more.len() > 1 {
            assert(all[args.len() as int + 1] == more[1]);
        }
        lemma_more_no_help(args, more);
        reveal_with_fuel(snap_options, 2);
        let next = SnapOptionsView { turn: Some(n), ..o };
        assert(snap_options(all, all.len() as int, next) is Ok);
        lemma_snap_is_requested(all);
    }
    lemma_snap_is_requested(args);
}

proof fn lemma_snap_is_requested(args: Seq<Seq<char>>)
    requires
        no_help(args),
    ensures
        requested("snap"@, args) == match snap_options(args, 0, no_snap_options()) {
            Ok(o) => Ok::<RequestView, FailView>(RequestView::Snap(o)),
            Err(f) => Err::<RequestView, FailView>(f),
        },
{
    lemma_no_help(args);
    lemma_command_names();
}

/// Each option of `log` sets what it names and nothing else.
pub proof fn law_log_options_add_up(
    args: Seq<Seq<char>>,
    o: LogOptions,
    value: Seq<char>,
    n: u64,
)
    requires
        no_help(args),
        value != "-h"@ && value != "--help"@,
        requested("log"@, args) == Ok::<RequestView, FailView>(RequestView::Log(o)),
    ensures
        requested("log"@, args + seq!["--json"@]) == Ok::<
            RequestView,
            FailView,
        >(
            RequestView::Log(LogOptions { json: true, ..o }),
        ),
        requested("log"@, args + seq!["--limit"@, numeral(n as nat)]) == Ok::<
            RequestView,
            FailView,
        >(
            RequestView::Log(LogOptions { limit: Some(n), ..o }),
        ),
{
    lemma_flags();
    lemma_no_help(args);
    law_numeral_reads_back(n as nat);
    lemma_number_is_no_help(n);
    {
        let more = seq!["--json"@];
        lemma_log_goes_on(args, more, 0, no_log_options());
        let all = args + more;
        assert(all[args.len() as int] == more[0]);
        if more.len() > 1 {
            assert(all[args.len() as int + 1] == more[1]);
        }
        lemma_more_no_help(args, more);
        reveal_with_fuel(log_options, 2);
        let next = LogOptions { json: true, ..o };
        assert(log_options(all, all.len() as int, next) is Ok);
        lemma_log_is_requested(all);
    }
    {
        let more = seq!["--limit"@, numeral(n as nat)];
        lemma_log_goes_on(args, more, 0, no_log_options());
        let all = args + more;
        assert(all[args.len() as int] == more[0]);
        if more.len() > 1 {
            assert(all[args.len() as int + 1] == more[1]);
        }
        lemma_more_no_help(args, more);
        reveal_with_fuel(log_options, 2);
        let next = LogOptions { limit: Some(n), ..o };
        assert(log_options(all, all.len() as int, next) is Ok);
        lemma_log_is_requested(all);
    }
    lemma_log_is_requested(args);
}

proof fn lemma_log_is_requested(args: Seq<Seq<char>>)
    requires
        no_help(args),
    ensures
        requested("log"@, args) == match log_options(args, 0, no_log_options()) {
            Ok(o) => Ok::<RequestView, FailView>(RequestView::Log(o)),
            Err(f) => Err::<RequestView, FailView>(f),
        },
{
    lemma_no_help(args);
    lemma_command_names();
}

/// Each option of `blame` sets what it names and nothing else.
pub proof fn law_blame_options_add_up(
    args: Seq<Seq<char>>,
    o: BlameOptionsView,
    value: Seq<char>,
    n: u64,
)
    requires
        no_help(args),
        value != "-h"@ && value != "--help"@,
        requested("blame"@, args) == Ok::<RequestView, FailView>(RequestView::Blame(o)),
    ensures
        requested("blame"@, args + seq!["--json"@]) == Ok::<
            RequestView,
            FailView,
        >(
            RequestView::Blame(BlameOptionsView { json: true, ..o }),
        ),
        requested("blame"@, args + seq!["--at"@, numeral(n as nat)]) == Ok::<
            RequestView,
            FailView,
        >(
            RequestView::Blame(BlameOptionsView { at: Some(n), ..o }),
        ),
{
    lemma_flags();
    lemma_no_help(args);
    law_numeral_reads_back(n as nat);
    lemma_number_is_no_help(n);
    {
        let more = seq!["--json"@];
        lemma_blame_goes_on(args, more, 0, no_blame_options());
        let all = args + more;
        assert(all[args.len() as int] == more[0]);
        if more.len() > 1 {
            assert(all[args.len() as int + 1] == more[1]);
        }
        lemma_more_no_help(args, more);
        reveal_with_fuel(blame_options, 2);
        let next = BlameOptionsView { json: true, ..o };
        assert(blame_options(all, all.len() as int, next) is Ok);
        lemma_blame_is_requested(all);
    }
    {
        let more = seq!["--at"@, numeral(n as nat)];
        lemma_blame_goes_on(args, more, 0, no_blame_options());
        let all = args + more;
        assert(all[args.len() as int] == more[0]);
        if more.len() > 1 {
            assert(all[args.len() as int + 1] == more[1]);
        }
        lemma_more_no_help(args, more);
        reveal_with_fuel(blame_options, 2);
        let next = BlameOptionsView { at: Some(n), ..o };
        assert(blame_options(all, all.len() as int, next) is Ok);
        lemma_blame_is_requested(all);
    }
    lemma_blame_is_requested(args);
}

proof fn lemma_blame_is_requested(args: Seq<Seq<char>>)
    requires
        no_help(args),
    ensures
        requested("blame"@, args) == match blame_options(args, 0, no_blame_options()) {
            Ok(o) => Ok::<RequestView, FailView>(RequestView::Blame(o)),
            Err(f) => Err::<RequestView, FailView>(f),
        },
{
    lemma_no_help(args);
    lemma_command_names();
}

/// Each option of `diff` sets what it names and nothing else; every `--path` adds
/// one to the list.
pub proof fn law_diff_options_add_up(
    args: Seq<Seq<char>>,
    o: DiffOptionsView,
    value: Seq<char>,
    n: u64,
)
    requires
        no_help(args),
        value != "-h"@ && value != "--help"@,
        requested("diff"@, args) == Ok::<RequestView, FailView>(RequestView::Diff(o)),
    ensures
        requested("diff"@, args + seq!["--json"@]) == Ok::<
            RequestView,
            FailView,
        >(
            RequestView::Diff(DiffOptionsView { json: true, ..o }),
        ),
        requested("diff"@, args + seq!["--path"@, value]) == Ok::<
            RequestView,
            FailView,
        >(
            RequestView::Diff(DiffOptionsView { paths: o.paths.push(value), ..o }),
        ),
{
    lemma_flags();
    lemma_no_help(args);
    law_numeral_reads_back(n as nat);
    lemma_number_is_no_help(n);
    {
        let more = seq!["--json"@];
        lemma_diff_goes_on(args, more, 0, no_diff_options());
        let all = args + more;
        assert(all[args.len() as int] == more[0]);
        if more.len() > 1 {
            assert(all[args.len() as int + 1] == more[1]);
        }
        lemma_more_no_help(args, more);
        reveal_with_fuel(diff_options, 2);
        let next = DiffOptionsView { json: true, ..o };
        assert(diff_options(all, all.len() as int, next) is Ok);
        lemma_diff_is_requested(all);
    }
    {
        let more = seq!["--path"@, value];
        lemma_diff_goes_on(args, more, 0, no_diff_options());
        let all = args + more;
        assert(all[args.len() as int] == more[0]);
        if more.len() > 1 {
            assert(all[args.len() as int + 1] == more[1]);
        }
        lemma_more_no_help(args, more);
        reveal_with_fuel(diff_options, 2);
        let next = DiffOptionsView { paths: o.paths.push(value), ..o };
        assert(diff_options(all, all.len() as int, next) is Ok);
        lemma_diff_is_requested(all);
    }
    lemma_diff_is_requested(args);
}

proof fn lemma_diff_is_requested(args: Seq<Seq<char>>)
    requires
        no_help(args),
    ensures
        requested("diff"@, args) == match diff_options(args, 0, no_diff_options()) {
            Ok(o) => Ok::<RequestView, FailView>(RequestView::Diff(o)),
            Err(f) => Err::<RequestView, FailView>(f),
        },
{
    lemma_no_help(args);
    lemma_command_names();
}

/// The option of `show` sets what it names and nothing else.
pub proof fn law_show_options_add_up(
    args: Seq<Seq<char>>,
    o: ShowOptionsView,
    value: Seq<char>,
    n: u64,
)
    requires
        no_help(args),
        value != "-h"@ && value != "--help"@,
        requested("show"@, args) == Ok::<RequestView, FailView>(RequestView::Show(o)),
    ensures
        requested("show"@, args + seq!["--json"@]) == Ok::<
            RequestView,
            FailView,
        >(
            RequestView::Show(ShowOptionsView { json: true, ..o }),
        ),
{
    lemma_flags();
    lemma_no_help(args);
    law_numeral_reads_back(n as nat);
    lemma_number_is_no_help(n);
    {
        let more = seq!["--json"@];
        lemma_show_goes_on(args, more, 0, no_show_options());
        let all = args + more;
        assert(all[args.len() as int] == more[0]);
        if more.len() > 1 {
            assert(all[args.len() as int + 1] == more[1]);
        }
        lemma_more_no_help(args, more);
        reveal_with_fuel(show_options, 2);
        let next = ShowOptionsView { json: true, ..o };
        assert(show_options(all, all.len() as int, next) is Ok);
        lemma_show_is_requested(all);
    }
    lemma_show_is_requested(args);
}

proof fn lemma_show_is_requested(args: Seq<Seq<char>>)
    requires
        no_help(args),
    ensures
        requested("show"@, args) == match show_options(args, 0, no_show_options()) {
            Ok(o) => Ok::<RequestView, FailView>(RequestView::Show(o)),
            Err(f) => Err::<RequestView, FailView>(f),
        },
{
    lemma_no_help(args);
    lemma_command_names();
}

/// Each option of `restore` sets what it names and nothing else; every `--path`
/// adds one to the list.
pub proof fn law_restore_options_add_up(
    args: Seq<Seq<char>>,
    o: RestoreOptionsView,
    value: Seq<char>,
    n: u64,
)
    requires
        no_help(args),
        value != "-h"@ && value != "--help"@,
        requested("restore"@, args) == Ok::<RequestView, FailView>(RequestView::Restore(o)),
    ensures
        requested("restore"@, args + seq!["--force"@]) == Ok::<
            RequestView,
            FailView,
        >(
            RequestView::Restore(RestoreOptionsView { force: true, ..o }),
        ),
        requested("restore"@, args + seq!["--no-backup"@]) == Ok::<
            RequestView,
            FailView,
        >(
            RequestView::Restore(RestoreOptionsView { no_backup: true, ..o }),
        ),
        requested("restore"@, args + seq!["--path"@, value]) == Ok::<
            RequestView,
            FailView,
        >(
            RequestView::Restore(RestoreOptionsView { paths: o.paths.push(value), ..o }),
        ),
{
    lemma_flags();
    lemma_no_help(args);
    law_numeral_reads_back(n as nat);
    lemma_number_is_no_help(n);
    {
        let more = seq!["--force"@];
        lemma_restore_goes_on(args, more, 0, no_restore_options());
        let all = args + more;
        assert(all[args.len() as int] == more[0]);
        if more.len() > 1 {
            assert(all[args.len() as int + 1] == more[1]);
        }
        lemma_more_no_help(args, more);
        reveal_with_fuel(restore_options, 2);
        let next = RestoreOptionsView { force: true, ..o };
        assert(restore_options(all, all.len() as int, next) is Ok);
        lemma_restore_is_requested(all);
    }
    {
        let more = seq!["--no-backup"@];
        lemma_restore_goes_on(args, more, 0, no_restore_options());
        let all = args + more;
        assert(all[args.len() as int] == more[0]);
        if more.len() > 1 {
            assert(all[args.len() as int + 1] == more[1]);
        }
        lemma_more_no_help(args, more);
        reveal_with_fuel(restore_options, 2);
        let next = RestoreOptionsView { no_backup: true, ..o };
        assert(restore_options(all, all.len() as int, next) is Ok);
        lemma_restore_is_requested(all);
    }
    {
        let more = seq!["--path"@, value];
        lemma_restore_goes_on(args, more, 0, no_restore_options());
        let all = args + more;
        assert(all[args.len() as int] == more[0]);
        if more.len() > 1 {
            assert(all[args.len() as int + 1] == more[1]);
        }
        lemma_more_no_help(args, more);
        reveal_with_fuel(restore_options, 2);
        let next = RestoreOptionsView { paths: o.paths.push(value), ..o };
        assert(restore_options(all, all.len() as int, next) is Ok);
        lemma_restore_is_requested(all);
    }
    lemma_restore_is_requested(args);
}

proof fn lemma_restore_is_requested(args: Seq<Seq<char>>)
    requires
        no_help(args),
    ensures
        requested("restore"@, args) == match restore_options(args, 0, no_restore_options()) {
            Ok(o) => Ok::<RequestView, FailView>(RequestView::Restore(o)),
            Err(f) => Err::<RequestView, FailView>(f),
        },
{
    lemma_no_help(args);
    lemma_command_names();
}

/// What options say goes on into the options behind them.
proof fn lemma_status_goes_on(
    args: Seq<Seq<char>>,
    more: Seq<Seq<char>>,
    i: int,
    o: bool,
)
    requires
        0 <= i <= args.len(),
        status_options(args, i, o) is Ok,
    ensures
        status_options(args + more, i, o) == status_options(
            args + more,
            args.len() as int,
            status_options(args, i, o)->Ok_0,
        ),
        status_options(args, args.len() as int, status_options(args, i, o)->Ok_0) is Ok,
    decreases args.len() - i,
{
    let all = args + more;
    if i < args.len() {
        lemma_prefix(args, more, i);
        lemma_status_goes_on(args, more, i + 1, true);
    }
}

/// An option that a command does not know is refused, with exit code two.
pub proof fn law_unknown_options_are_refused(args: Seq<Seq<char>>, word: Seq<char>)
    requires
        no_help(args),
        word.len() >= 2 && word[0] == '-' && word[1] == '-',
        word != "--label"@ && word != "--agent"@ && word != "--turn"@ && word != "--json"@,
        word != "--limit"@ && word != "--at"@ && word != "--path"@ && word != "--force"@,
        word != "--no-backup"@ && word != "--help"@,
    ensures
        requested("snap"@, args) is Ok ==> requested("snap"@, args.push(word)) == Err::<
            RequestView,
            FailView,
        >(FailView { code: 2, msg: "unknown "@ + "snap"@ + " option '"@ + word + "'"@ }),
        requested("log"@, args) is Ok ==> requested("log"@, args.push(word)) == Err::<
            RequestView,
            FailView,
        >(FailView { code: 2, msg: "unknown "@ + "log"@ + " option '"@ + word + "'"@ }),
        requested("status"@, args) is Ok ==> requested("status"@, args.push(word)) == Err::<
            RequestView,
            FailView,
        >(FailView { code: 2, msg: "unknown "@ + "status"@ + " option '"@ + word + "'"@ }),
        requested("blame"@, args) is Ok ==> requested("blame"@, args.push(word)) == Err::<
            RequestView,
            FailView,
        >(FailView { code: 2, msg: "unknown "@ + "blame"@ + " option '"@ + word + "'"@ }),
        requested("diff"@, args) is Ok ==> requested("diff"@, args.push(word)) == Err::<
            RequestView,
            FailView,
        >(FailView { code: 2, msg: "unknown "@ + "diff"@ + " option '"@ + word + "'"@ }),
        requested("show"@, args) is Ok ==> requested("show"@, args.push(word)) == Err::<
            RequestView,
            FailView,
        >(FailView { code: 2, msg: "unknown "@ + "show"@ + " option '"@ + word + "'"@ }),
        requested("restore"@, args) is Ok ==> requested("restore"@, args.push(word)) == Err::<
            RequestView,
            FailView,
        >(FailView { code: 2, msg: "unknown "@ + "restore"@ + " option '"@ + word + "'"@ }),
{
    lemma_flags();
    lemma_command_names();
    let more = seq![word];
    let all = args + more;
    assert(args.push(word) =~= all);
    assert(all[args.len() as int] == word);
    assert("-"@ =~= word.subrange(0, 1));
    assert("--"@ =~= word.subrange(0, 2));
    assert(no_help(more)) by {
        reveal_strlit("-h");
        assert("-h"@[1] == 'h');
    }
    lemma_more_no_help(args, more);
    lemma_no_help(args);
    lemma_no_help(all);
    if requested("snap"@, args) is Ok {
        lemma_snap_goes_on(args, more, 0, no_snap_options());
    }
    if requested("log"@, args) is Ok {
        lemma_log_goes_on(args, more, 0, no_log_options());
    }
    if requested("status"@, args) is Ok {
        lemma_status_goes_on(args, more, 0, false);
    }
    if requested("blame"@, args) is Ok {
        lemma_blame_goes_on(args, more, 0, no_blame_options());
    }
    if requested("diff"@, args) is Ok {
        lemma_diff_goes_on(args, more, 0, no_diff_options());
    }
    if requested("show"@, args) is Ok {
        lemma_show_goes_on(args, more, 0, no_show_options());
    }
    if requested("restore"@, args) is Ok {
        lemma_restore_goes_on(args, more, 0, no_restore_options());
    }
}

/// An option that takes a value is refused without one, and one that takes a
/// number is refused with anything else.
pub proof fn law_options_need_their_values(args: Seq<Seq<char>>, word: Seq<char>)
    requires
        no_help(args),
        no_help(seq![word]),
        u64_value(word) is None,
    ensures
        requested("snap"@, args) is Ok ==> requested("snap"@, args.push("--label"@)) == Err::<
            RequestView,
            FailView,
        >(FailView { code: 2, msg: "--label"@ + " requires a value"@ }),
        requested("snap"@, args) is Ok ==> requested("snap"@, args.push("--agent"@)) == Err::<
            RequestView,
            FailView,
        >(FailView { code: 2, msg: "--agent"@ + " requires a value"@ }),
        requested("snap"@, args) is Ok ==> requested("snap"@, args.push("--turn"@)) == Err::<
            RequestView,
            FailView,
        >(FailView { code: 2, msg: "--turn"@ + " requires a value"@ }),
        requested("log"@, args) is Ok ==> requested("log"@, args.push("--limit"@)) == Err::<
            RequestView,
            FailView,
        >(FailView { code: 2, msg: "--limit"@ + " requires a value"@ }),
        requested("blame"@, args) is Ok ==> requested("blame"@, args.push("--at"@)) == Err::<
            RequestView,
            FailView,
        >(FailView { code: 2, msg: "--at"@ + " requires a value"@ }),
        requested("diff"@, args) is Ok ==> requested("diff"@, args.push("--path"@)) == Err::<
            RequestView,
            FailView,
        >(FailView { code: 2, msg: "--path"@ + " requires a value"@ }),
        requested("restore"@, args) is Ok ==> requested("restore"@, args.push("--path"@)) == Err::<
            RequestView,
            FailView,
        >(FailView { code: 2, msg: "--path"@ + " requires a value"@ }),
        requested("snap"@, args) is Ok ==> requested(
            "snap"@,
            args.push("--turn"@).push(word),
        ) == Err::<RequestView, FailView>(
            FailView { code: 2, msg: "--turn"@ + " requires a number (got '"@ + word + "')"@ },
        ),
        requested("log"@, args) is Ok ==> requested(
            "log"@,
            args.push("--limit"@).push(word),
        ) == Err::<RequestView, FailView>(
            FailView { code: 2, msg: "--limit"@ + " requires a number (got '"@ + word + "')"@ },
        ),
        requested("blame"@, args) is Ok ==> requested(
            "blame"@,
            args.push("--at"@).push(word),
        ) == Err::<RequestView, FailView>(
            FailView { code: 2, msg: "--at"@ + " requires a number (got '"@ + word + "')"@ },
        ),
{
    lemma_flags();
    lemma_command_names();
    lemma_no_help(args);
    if requested("snap"@, args) is Ok {
        let more = seq!["--label"@];
        let all = args + more;
        assert(args.push("--label"@) =~= all);
        assert(all[args.len() as int] == more[0]);
        lemma_more_no_help(args, more);
        lemma_no_help(all);
        lemma_snap_goes_on(args, more, 0, no_snap_options());
    }
    if requested("snap"@, args) is Ok {
        let more = seq!["--agent"@];
        let all = args + more;
        assert(args.push("--agent"@) =~= all);
        assert(all[args.len() as int] == more[0]);
        lemma_more_no_help(args, more);
        lemma_no_help(all);
        lemma_snap_goes_on(args, more, 0, no_snap_options());
    }
    if requested("snap"@, args) is Ok {
        let more = seq!["--turn"@];
        let all = args + more;
        assert(args.push("--turn"@) =~= all);
        assert(all[args.len() as int] == more[0]);
        lemma_more_no_help(args, more);
        lemma_no_help(all);
        lemma_snap_goes_on(args, more, 0, no_snap_options());
    }
    if requested("log"@, args) is Ok {
        let more = seq!["--limit"@];
        let all = args + more;
        assert(args.push("--limit"@) =~= all);
        assert(all[args.len() as int] == more[0]);
        lemma_more_no_help(args, more);
        lemma_no_help(all);
        lemma_log_goes_on(args, more, 0, no_log_options());
    }
    if requested("blame"@, args) is Ok {
        let more = seq!["--at"@];
        let all = args + more;
        assert(args.push("--at"@) =~= all);
        assert(all[args.len() as int] == more[0]);
        lemma_more_no_help(args, more);
        lemma_no_help(all);
        lemma_blame_goes_on(args, more, 0, no_blame_options());
    }
    if requested("diff"@, args) is Ok {
        let more = seq!["--path"@];
        let all = args + more;
        assert(args.push("--path"@) =~= all);
        assert(all[args.len() as int] == more[0]);
        lemma_more_no_help(args, more);
        lemma_no_help(all);
        lemma_diff_goes_on(args, more, 0, no_diff_options());
    }
    if requested("restore"@, args) is Ok {
        let more = seq!["--path"@];
        let all = args + more;
        assert(args.push("--path"@) =~= all);
        assert(all[args.len() as int] == more[0]);
        lemma_more_no_help(args, more);
        lemma_no_help(all);
        lemma_restore_goes_on(args, more, 0, no_restore_options());
    }
    if requested("snap"@, args) is Ok {
        let more = seq!["--turn"@, word];
        let all = args + more;
        assert(args.push("--turn"@).push(word) =~= all);
        assert(all[args.len() as int] == more[0]);
        assert(all[args.len() as int + 1] == word && seq![word][0] == word);
        lemma_more_no_help(args, more);
        lemma_no_help(all);
        lemma_snap_goes_on(args, more, 0, no_snap_options());
    }
    if requested("log"@, args) is Ok {
        let more = seq!["--limit"@, word];
        let all = args + more;
        assert(args.push("--limit"@).push(word) =~= all);
        assert(all[args.len() as int] == more[0]);
        assert(all[args.len() as int + 1] == word && seq![word][0] == word);
        lemma_more_no_help(args, more);
        lemma_no_help(all);
        lemma_log_goes_on(args, more, 0, no_log_options());
    }
    if requested("blame"@, args) is Ok {
        let more = seq!["--at"@, word];
        let all = args + more;
        assert(args.push("--at"@).push(word) =~= all);
        assert(all[args.len() as int] == more[0]);
        assert(all[args.len() as int + 1] == word && seq![word][0] == word);
        lemma_more_no_help(args, more);
        lemma_no_help(all);
        lemma_blame_goes_on(args, more, 0, no_blame_options());
    }
}

/// A command that is asked for help prints its help, whatever else it was given.
pub proof fn law_help_goes_first(name: Seq<char>, args: Seq<Seq<char>>, i: int)
    requires
        0 <= i < args.len(),
        args[i] == "-h"@ || args[i] == "--help"@,
        name == "init"@ || name == "snap"@ || name == "log"@ || name == "status"@ || name
            == "blame"@ || name == "diff"@ || name == "show"@ || name == "restore"@ || name
            == "verify"@,
    ensures
        requested(name, args) == requested(name, seq!["--help"@]),
        requested(name, args) matches Ok(r) && r is Print,
{
    let one = seq!["--help"@];
    assert(one[0] == "--help"@);
    assert(wants_help(one) && wants_help(args));
}

/// What stands first decides: a name is run from the present directory, `-C` moves
/// what follows to another one unless a later `-C` does, and the version and the
/// help are printed before any command is read.
pub proof fn law_directory_option_moves_the_command(
    dir: Seq<char>,
    rest: Seq<Seq<char>>,
    word: Seq<char>,
)
    requires
        word != "-C"@ && word != "-V"@ && word != "--version"@ && word != "-h"@ && word
            != "--help"@ && word != "help"@,
    ensures
        started(seq![word] + rest, 0, None) == Ok::<StartView, FailView>(
            StartView::Command { dir: None, at: 0 },
        ),
        started(seq!["-C"@, dir] + rest, 0, None) == match started(rest, 0, None) {
            Ok(StartView::Command { dir: later, at }) => Ok::<StartView, FailView>(
                StartView::Command {
                    dir: match later {
                        Some(l) => Some(l),
                        None => Some(dir),
                    },
                    at: at + 2,
                },
            ),
            other => other,
        },
        started(seq!["-C"@], 0, None) == Err::<StartView, FailView>(
            FailView { code: 2, msg: "-C requires a directory argument"@ },
        ),
        started(seq!["--version"@] + rest, 0, None) == Ok::<StartView, FailView>(
            StartView::Print("snapref "@ + crate::VERSION@ + "\n"@),
        ),
        started(seq!["--help"@] + rest, 0, None) matches Ok(r) && r is Print && started(
            seq!["-h"@] + rest,
            0,
            None,
        ) == started(seq!["help"@] + rest, 0, None),
        started(Seq::empty(), 0, None) matches Ok(r) && r is Complain,
{
    reveal_strlit("-C");
    reveal_strlit("-V");
    reveal_strlit("--version");
    reveal_strlit("--help");
    reveal_strlit("-h");
    reveal_strlit("help");
    assert("-C"@[1] == 'C' && "-V"@[1] == 'V' && "-h"@[1] == 'h');
    assert((seq![word] + rest)[0] == word);
    assert((seq!["--version"@] + rest)[0] == "--version"@);
    assert((seq!["--help"@] + rest)[0] == "--help"@);
    assert((seq!["-h"@] + rest)[0] == "-h"@);
    assert((seq!["help"@] + rest)[0] == "help"@);
    assert("-C"@.len() == 2 && "--version"@.len() == 9);
    assert("--help"@.len() == 6 && "help"@.len() == 4);
    let pre = seq!["-C"@, dir];
    let all = pre + rest;
    assert(all[0] == "-C"@ && all[1] == dir);
    lemma_start_shifts(dir, rest, 0, None);
}

proof fn lemma_start_shifts(
    dir: Seq<char>,
    rest: Seq<Seq<char>>,
    i: int,
    seen: Option<Seq<char>>,
)
    requires
        0 <= i <= rest.len(),
    ensures
        started(
            seq!["-C"@, dir] + rest,
            i + 2,
            match seen {
                Some(l) => Some(l),
                None => Some(dir),
            },
        ) == match started(rest, i, seen) {
            Ok(StartView::Command { dir: later, at }) => Ok::<StartView, FailView>(
                StartView::Command {
                    dir: match later {
                        Some(l) => Some(l),
                        None => Some(dir),
                    },
                    at: at + 2,
                },
            ),
            other => other,
        },
    decreases rest.len() - i,
{
    let all = seq!["-C"@, dir] + rest;
    if i < rest.len() {
        assert(all[i + 2] == rest[i]);
        if rest[i] == "-C"@ && i + 1 < rest.len() {
            assert(all[i + 3] == rest[i + 1]);
            lemma_start_shifts(dir, rest, i + 2, Some(rest[i + 1]));
        }
    }
}

/// Without options a command asks for what it does by itself: `snap` for the next
/// turn without a label, `log` for all turns, `status` and `diff` for the working
/// tree against the latest turn; and an argument that is no option is the file to
/// blame, the turn to show, or the turn to restore.
pub proof fn law_bare_commands_ask_for_the_usual(word: Seq<char>, n: u64)
    requires
        word.len() == 0 || word[0] != '-',
    ensures
        requested("snap"@, Seq::empty()) == Ok::<RequestView, FailView>(
            RequestView::Snap(
                SnapOptionsView { label: Seq::empty(), agent: None, turn: None, json: false },
            ),
        ),
        requested("log"@, Seq::empty()) == Ok::<RequestView, FailView>(
            RequestView::Log(LogOptions { limit: None, json: false }),
        ),
        requested("status"@, Seq::empty()) == Ok::<RequestView, FailView>(
            RequestView::Status(false),
        ),
        requested("status"@, seq!["--json"@]) == Ok::<RequestView, FailView>(
            RequestView::Status(true),
        ),
        requested("diff"@, Seq::empty()) == Ok::<RequestView, FailView>(
            RequestView::Diff(
                DiffOptionsView { sides: Seq::empty(), paths: Seq::empty(), json: false },
            ),
        ),
        requested("blame"@, seq![word]) == Ok::<RequestView, FailView>(
            RequestView::Blame(BlameOptionsView { path: Some(word), at: None, json: false }),
        ),
        requested("show"@, seq![word]) == Ok::<RequestView, FailView>(
            RequestView::Show(ShowOptionsView { target: Some(word), json: false }),
        ),
        requested("restore"@, seq![numeral(n as nat)]) == Ok::<RequestView, FailView>(
            RequestView::Restore(
                RestoreOptionsView {
                    turn: Some(n),
                    paths: Seq::empty(),
                    force: false,
                    no_backup: false,
                },
            ),
        ),
{
    lemma_flags();
    lemma_command_names();
    law_numeral_reads_back(n as nat);
    lemma_number_is_no_help(n);
    reveal_strlit("-h");
    reveal_strlit("--help");
    reveal_strlit("--at");
    reveal_strlit("--json");
    reveal_strlit("--path");
    reveal_strlit("--force");
    reveal_strlit("--no-backup");
    assert("-h"@[0] == '-' && "--help"@[0] == '-' && "--at"@[0] == '-' && "--json"@[0] == '-');
    assert("--path"@[0] == '-' && "--force"@[0] == '-' && "--no-backup"@[0] == '-');
    let none = Seq::<Seq<char>>::empty();
    let one = seq![word];
    let num = seq![numeral(n as nat)];
    let json = seq!["--json"@];
    assert(no_help(none) && no_help(one) && no_help(num) && no_help(json));
    lemma_no_help(json);
    lemma_no_help(none);
    lemma_snap_is_requested(none);
    lemma_log_is_requested(none);
    lemma_diff_is_requested(none);
    lemma_blame_is_requested(one);
    lemma_show_is_requested(one);
    lemma_restore_is_requested(num);
    assert(!"-"@.is_prefix_of(word)) by {
        if "-"@.is_prefix_of(word) {
            assert(word.subrange(0, 1)[0] == "-"@[0]);
        }
    }
    assert(!"-"@.is_prefix_of(numeral(n as nat))) by {
        if "-"@.is_prefix_of(numeral(n as nat)) {
            assert(numeral(n as nat).subrange(0, 1)[0] == "-"@[0]);
        }
    }
    reveal_with_fuel(blame_options, 2);
    reveal_with_fuel(show_options, 2);
    reveal_with_fuel(restore_options, 2);
    reveal_with_fuel(status_options, 2);
    assert(one[0] == word && num[0] == numeral(n as nat) && json[0] == "--json"@);
}

/// A side of a diff is a turn by its number, or the working tree.
pub proof fn law_sides_are_named_by_number(n: u64)
    ensures
        named_side(numeral(n as nat)) == Ok::<Side, FailView>(Side::Turn(n)),
        named_side("wt"@) == Ok::<Side, FailView>(Side::Working),
{
    law_numeral_reads_back(n as nat);
    assert(crate::decimal::is_digit(numeral(n as nat)[0]));
    reveal_strlit("wt");
    reveal_strlit("@");
    reveal_strlit("worktree");
    assert("wt"@[0] == 'w' && "@"@[0] == '@' && "worktree"@[0] == 'w');
}

/// The sides of a diff: without arguments the latest turn and the working tree,
/// with one the turn it names and the working tree, and with two the first and
/// the second.
pub proof fn law_diff_goes_from_the_first_side_to_the_second(
    s: crate::store::StoreView,
    a: u64,
    b: u64,
)
    ensures
        s.latest() matches Some(l) ==> crate::compare::chosen_sides(s, Seq::empty()) == Ok::<
            (Side, Side),
            FailView,
        >((Side::Turn(l), Side::Working)),
        crate::compare::chosen_sides(s, seq![numeral(a as nat)]) == Ok::<(Side, Side), FailView>(
            (Side::Turn(a), Side::Working),
        ),
        crate::compare::chosen_sides(s, seq![numeral(a as nat), numeral(b as nat)]) == Ok::<
            (Side, Side),
            FailView,
        >((Side::Turn(a), Side::Turn(b))),
        crate::compare::chosen_sides(s, seq![numeral(a as nat), "wt"@]) == Ok::<
            (Side, Side),
            FailView,
        >((Side::Turn(a), Side::Working)),
        crate::compare::chosen_sides(s, seq!["wt"@, numeral(b as nat)]) == Ok::<
            (Side, Side),
            FailView,
        >((Side::Working, Side::Turn(b))),
{
    law_sides_are_named_by_number(a);
    law_sides_are_named_by_number(b);
}

/// `init` and `verify` take no arguments: without any they are what is asked for,
/// and with one they are refused with exit code two. So is a command that there is
/// not.
pub proof fn law_init_and_verify_take_no_arguments(args: Seq<Seq<char>>, name: Seq<char>)
    requires
        no_help(args),
        args.len() > 0,
        name != "init"@ && name != "snap"@ && name != "log"@ && name != "status"@,
        name != "blame"@ && name != "diff"@ && name != "show"@ && name != "restore"@,
        name != "verify"@,
    ensures
        requested("init"@, Seq::empty()) == Ok::<RequestView, FailView>(RequestView::Init),
        requested("verify"@, Seq::empty()) == Ok::<RequestView, FailView>(RequestView::Verify),
        requested("init"@, args) matches Err(f) && f.code == 2,
        requested("verify"@, args) matches Err(f) && f.code == 2,
        requested(name, args) matches Err(f) && f.code == 2,
{
    lemma_command_names();
    lemma_no_help(args);
    lemma_no_help(Seq::empty());
}

} // verus!
