//! The command line: pacman-style flags (`-S`, `-Syu`, `-Q`, `-Ss`, `-Qi`,
//! `-R`) and verbs (`install`, `remove`, `search`, `info`, `list`,
//! `upgrade`, `sync`), with the options `--dry-run`, `--noconfirm` and
//! `--privilege`.

use vstd::prelude::*;
use crate::command::Command;
use crate::config::{split_words, words};
use crate::model::TargetSpec;
use crate::text::{
    chars_of, join_spaces, join_with_spaces, owned, push_str, slice_of, starts_with, str_eq,
    string_of, strings_view,
};

verus! {

/// The options given besides the command.
#[derive(Debug, Clone)]
pub struct CliOptions {
    pub dry_run: bool,
    pub noconfirm: bool,
    pub privilege: Option<Vec<String>>,
    /// Flags that are accepted but no longer do anything.
    pub ignored: Vec<String>,
}

/// A command with its text as character sequences.
pub enum CommandView {
    Install(Seq<Seq<char>>),
    Remove(Seq<Seq<char>>),
    Search(Seq<char>),
    Info(Seq<char>),
    ListInstalled,
    Upgrade,
    Sync,
}

pub open spec fn target_queries(ts: Seq<TargetSpec>) -> Seq<Seq<char>> {
    ts.map_values(|t: TargetSpec| t.query@)
}

pub open spec fn command_view(c: Command) -> CommandView {
    match c {
        Command::Install(ts) => CommandView::Install(target_queries(ts@)),
        Command::Remove(ts) => CommandView::Remove(target_queries(ts@)),
        Command::Search(q) => CommandView::Search(q@),
        Command::Info(t) => CommandView::Info(t.query@),
        Command::ListInstalled => CommandView::ListInstalled,
        Command::Upgrade => CommandView::Upgrade,
        Command::Sync => CommandView::Sync,
    }
}

/// The options as they are read, argument by argument.
pub struct Scan {
    pub dry_run: bool,
    pub noconfirm: bool,
    pub privilege: Option<Seq<Seq<char>>>,
    pub ignored: Seq<Seq<char>>,
    /// The arguments that are not options, in order.
    pub rest: Seq<Seq<char>>,
}

pub open spec fn privilege_missing_error() -> Seq<char> {
    "--privilege requires a command (e.g. sudo, pkexec, doas)"@
}

/// Reads the options from argument `i` on: `--privilege <cmd>` and
/// `--privilege=<cmd>` set the privilege command (split into words),
/// `--dry-run` and `--noconfirm` set their flags, `--execute` and `-E` are
/// ignored, and everything else is kept in order.
pub open spec fn scan_args(args: Seq<Seq<char>>, i: int, st: Scan) -> Result<Scan, Seq<char>>
    decreases args.len() - i,
{
    if i < 0 || i >= args.len() {
        Ok(st)
    } else {
        let arg = args[i];
        if arg == "--privilege"@ {
            if i + 1 >= args.len() {
                Err(privilege_missing_error())
            } else {
                scan_args(args, i + 2, Scan { privilege: Some(words(args[i + 1])), ..st })
            }
        } else if starts_with(arg, "--privilege="@) {
            scan_args(
                args,
                i + 1,
                Scan { privilege: Some(words(arg.subrange(12, arg.len() as int))), ..st },
            )
        } else if arg == "--dry-run"@ {
            scan_args(args, i + 1, Scan { dry_run: true, ..st })
        } else if arg == "--noconfirm"@ {
            scan_args(args, i + 1, Scan { noconfirm: true, ..st })
        } else if arg == "--execute"@ || arg == "-E"@ {
            scan_args(args, i + 1, Scan { ignored: st.ignored.push(arg), ..st })
        } else {
            scan_args(args, i + 1, Scan { rest: st.rest.push(arg), ..st })
        }
    }
}

pub open spec fn empty_scan() -> Scan {
    Scan { dry_run: false, noconfirm: false, privilege: None, ignored: Seq::empty(), rest: Seq::empty() }
}

/// The verbs of the verb syntax.
pub open spec fn is_verb(s: Seq<char>) -> bool {
    s == "install"@ || s == "remove"@ || s == "search"@ || s == "info"@ || s == "list"@ || s
        == "upgrade"@ || s == "sync"@
}

/// The operands of a verb: those after the first `--`, if there is one.
pub open spec fn verb_operands(rest: Seq<Seq<char>>) -> Seq<Seq<char>> {
    let pos = rest.index_of_first("--"@);
    match pos {
        Some(p) => rest.skip(p + 1),
        None => rest,
    }
}

/// The command that the non-option arguments `rest` name.
pub open spec fn command_spec(rest: Seq<Seq<char>>) -> Result<CommandView, Seq<char>> {
    if rest.len() == 0 {
        Err("no command given"@)
    } else {
        let first = rest[0];
        let tail = rest.skip(1);
        if first == "-S"@ {
            Ok(CommandView::Install(tail))
        } else if first == "-Syu"@ {
            Ok(CommandView::Upgrade)
        } else if first == "-Q"@ {
            Ok(CommandView::ListInstalled)
        } else if first == "-Ss"@ {
            Ok(CommandView::Search(join_spaces(tail)))
        } else if first == "-Qi"@ {
            Ok(CommandView::Info(join_spaces(tail)))
        } else if first == "-R"@ {
            Ok(CommandView::Remove(tail))
        } else if is_verb(first) {
            let ops = verb_operands(tail);
            if first == "install"@ {
                Ok(CommandView::Install(ops))
            } else if first == "remove"@ {
                Ok(CommandView::Remove(ops))
            } else if first == "search"@ {
                Ok(CommandView::Search(join_spaces(ops)))
            } else if first == "info"@ {
                if ops.len() == 0 {
                    Err("info requires a target"@)
                } else {
                    Ok(CommandView::Info(ops[0]))
                }
            } else if first == "list"@ {
                Ok(CommandView::ListInstalled)
            } else if first == "upgrade"@ {
                Ok(CommandView::Upgrade)
            } else {
                Ok(CommandView::Sync)
            }
        } else {
            Err("unknown command: "@ + first)
        }
    }
}

/// The targets named by `args`, one per argument.
pub fn to_targets(args: &[String]) -> (r: Vec<TargetSpec>)
    ensures
        target_queries(r@) == strings_view(args@),
{
    let mut out: Vec<TargetSpec> = Vec::new();
    let mut i: usize = 0;
    while i < args.len()
        invariant
            i <= args@.len(),
            target_queries(out@) == strings_view(args@).take(i as int),
        decreases args.len() - i,
    {
        let ghost before = target_queries(out@);
        out.push(TargetSpec { query: args[i].clone() });
        assert(target_queries(out@) =~= before.push(args@[i as int]@));
        assert(strings_view(args@).take(i + 1) =~= strings_view(args@).take(i as int).push(
            args@[i as int]@,
        ));
        i = i + 1;
    }
    assert(strings_view(args@).take(args@.len() as int) =~= strings_view(args@));
    out
}

/// The strings `v[from..]`.
fn tail_from(v: &Vec<String>, from: usize) -> (r: Vec<String>)
    requires
        from <= v@.len(),
    ensures
        strings_view(r@) == strings_view(v@).skip(from as int),
{
    let mut out: Vec<String> = Vec::new();
    let mut i: usize = from;
    while i < v.len()
        invariant
            from <= i <= v@.len(),
            strings_view(out@) == strings_view(v@).subrange(from as int, i as int),
        decreases v.len() - i,
    {
        let ghost before = strings_view(out@);
        out.push(v[i].clone());
        assert(strings_view(out@) =~= before.push(v@[i as int]@));
        assert(strings_view(v@).subrange(from as int, i + 1) =~= strings_view(v@).subrange(
            from as int,
            i as int,
        ).push(v@[i as int]@));
        i = i + 1;
    }
    assert(strings_view(v@).subrange(from as int, v@.len() as int) =~= strings_view(v@).skip(
        from as int,
    ));
    out
}

/// The command named by the non-option arguments.
fn command_of(rest: &Vec<String>) -> (r: Result<Command, String>)
    ensures
        match (r, command_spec(strings_view(rest@))) {
            (Ok(c), Ok(v)) => command_view(c) == v,
            (Err(a), Err(b)) => a@ == b,
            _ => false,
        },
{
    let ghost rv = strings_view(rest@);
    if rest.len() == 0 {
        return Err(owned("no command given"));
    }
    let first = rest[0].as_str();
    assert(rv[0] == first@);
    let tail = tail_from(rest, 1);
    if str_eq(first, "-S") {
        return Ok(Command::Install(to_targets(tail.as_slice())));
    }
    if str_eq(first, "-Syu") {
        return Ok(Command::Upgrade);
    }
    if str_eq(first, "-Q") {
        return Ok(Command::ListInstalled);
    }
    if str_eq(first, "-Ss") {
        return Ok(Command::Search(join_with_spaces(&tail)));
    }
    if str_eq(first, "-Qi") {
        return Ok(Command::Info(TargetSpec { query: join_with_spaces(&tail) }));
    }
    if str_eq(first, "-R") {
        return Ok(Command::Remove(to_targets(tail.as_slice())));
    }
    let verb = str_eq(first, "install") || str_eq(first, "remove") || str_eq(first, "search")
        || str_eq(first, "info") || str_eq(first, "list") || str_eq(first, "upgrade") || str_eq(
        first,
        "sync",
    );
    if !verb {
        let mut msg = owned("unknown command: ");
        push_str(&mut msg, first);
        return Err(msg);
    }
    let ghost tv = strings_view(tail@);
    let mut pos: usize = 0;
    while pos < tail.len() && !str_eq(tail[pos].as_str(), "--")
        invariant
            pos <= tail@.len(),
            tv == strings_view(tail@),
            forall|k: int| 0 <= k < pos ==> tv[k] != "--"@,
        decreases tail.len() - pos,
    {
        pos = pos + 1;
    }
    let ops = if pos < tail.len() {
        proof {
            assert(tv[pos as int] == "--"@);
            assert(tv.index_of_first("--"@) == Some(pos as int)) by {
                tv.index_of_first_ensures("--"@);
                assert(tv.contains("--"@));
            }
        }
        tail_from(&tail, pos + 1)
    } else {
        proof {
            assert(!tv.contains("--"@));
            tv.index_of_first_ensures("--"@);
        }
        tail
    };
    if str_eq(first, "install") {
        return Ok(Command::Install(to_targets(ops.as_slice())));
    }
    if str_eq(first, "remove") {
        return Ok(Command::Remove(to_targets(ops.as_slice())));
    }
    if str_eq(first, "search") {
        return Ok(Command::Search(join_with_spaces(&ops)));
    }
    if str_eq(first, "info") {
        if ops.len() == 0 {
            return Err(owned("info requires a target"));
        }
        return Ok(Command::Info(TargetSpec { query: ops[0].clone() }));
    }
    if str_eq(first, "list") {
        return Ok(Command::ListInstalled);
    }
    if str_eq(first, "upgrade") {
        return Ok(Command::Upgrade);
    }
    Ok(Command::Sync)
}

/// The options and the non-option arguments of a command line.
fn scan(args: &[String]) -> (r: Result<(bool, bool, Option<Vec<String>>, Vec<String>, Vec<String>), String>)
    ensures
        match (r, scan_args(strings_view(args@), 0, empty_scan())) {
            (Ok((d, n, p, ig, rest)), Ok(s)) => d == s.dry_run && n == s.noconfirm && match (
                p,
                s.privilege,
            ) {
                (Some(a), Some(b)) => strings_view(a@) == b,
                (None, None) => true,
                _ => false,
            } && strings_view(ig@) == s.ignored && strings_view(rest@) == s.rest,
            (Err(a), Err(b)) => a@ == b,
            _ => false,
        },
{
    let ghost av = strings_view(args@);
    let mut dry_run = false;
    let mut noconfirm = false;
    let mut privilege: Option<Vec<String>> = None;
    let mut ignored: Vec<String> = Vec::new();
    let mut rest: Vec<String> = Vec::new();
    let mut i: usize = 0;
    proof {
        reveal_strlit("--privilege=");
        assert(strings_view(ignored@) =~= Seq::<Seq<char>>::empty());
        assert(strings_view(rest@) =~= Seq::<Seq<char>>::empty());
    }
    while i < args.len()
        invariant
            i <= args@.len(),
            av == strings_view(args@),
            "--privilege="@.len() == 12,
            scan_args(av, 0, empty_scan()) == scan_args(
                av,
                i as int,
                Scan {
                    dry_run,
                    noconfirm,
                    privilege: match privilege {
                        Some(a) => Some(strings_view(a@)),
                        None => None,
                    },
                    ignored: strings_view(ignored@),
                    rest: strings_view(rest@),
                },
            ),
        decreases args.len() - i,
    {
        let arg = args[i].as_str();
        assert(av[i as int] == arg@);
        let ac = chars_of(arg);
        if str_eq(arg, "--privilege") {
            if i + 1 >= args.len() {
                return Err(owned("--privilege requires a command (e.g. sudo, pkexec, doas)"));
            }
            assert(av[i + 1] == args@[i + 1]@);
            privilege = Some(split_words(args[i + 1].as_str()));
            i = i + 2;
        } else if crate::text::has_prefix(&ac, &chars_of("--privilege=")) {
            let value = string_of(&slice_of(&ac, 12, ac.len()));
            privilege = Some(split_words(value.as_str()));
            i = i + 1;
        } else {
            if str_eq(arg, "--dry-run") {
                dry_run = true;
            } else if str_eq(arg, "--noconfirm") {
                noconfirm = true;
            } else if str_eq(arg, "--execute") || str_eq(arg, "-E") {
                let ghost before = strings_view(ignored@);
                ignored.push(args[i].clone());
                assert(strings_view(ignored@) =~= before.push(arg@));
            } else {
                let ghost before = strings_view(rest@);
                rest.push(args[i].clone());
                assert(strings_view(rest@) =~= before.push(arg@));
            }
            i = i + 1;
        }
    }
    Ok((dry_run, noconfirm, privilege, ignored, rest))
}

/// Reads a command line (without the program name): the options, then
/// the command that the remaining arguments name.
pub fn parse(args: &[String]) -> (r: Result<(Command, CliOptions), String>)
    ensures
        match scan_args(strings_view(args@), 0, empty_scan()) {
            Err(e) => r matches Err(m) && m@ == e,
            Ok(s) => match command_spec(s.rest) {
                Err(e) => r matches Err(m) && m@ == e,
                Ok(c) => r matches Ok((cmd, opts)) && command_view(cmd) == c && opts.dry_run
                    == s.dry_run && opts.noconfirm == s.noconfirm && strings_view(opts.ignored@)
                    == s.ignored && match (opts.privilege, s.privilege) {
                    (Some(a), Some(b)) => strings_view(a@) == b,
                    (None, None) => true,
                    _ => false,
                },
            },
        },
{
    let (dry_run, noconfirm, privilege, ignored, rest) = match scan(args) {
        Ok(t) => t,
        Err(e) => {
            return Err(e);
        },
    };
    let command = match command_of(&rest) {
        Ok(c) => c,
        Err(e) => {
            return Err(e);
        },
    };
    Ok((command, CliOptions { dry_run, noconfirm, privilege, ignored }))
}

/// The two syntaxes name the same commands: `-S` and `install`, `-R` and
/// `remove`, `-Ss` and `search` with the same operands (none of them
/// `--`), `-Qi` and `info` with one such operand, and `-Syu` and
/// `upgrade`, `-Q` and `list` whatever follows.
pub proof fn lemma_syntaxes_agree(rest: Seq<Seq<char>>)
    requires
        !rest.contains("--"@),
    ensures
        command_spec(seq!["-S"@] + rest) == command_spec(seq!["install"@] + rest),
        command_spec(seq!["-R"@] + rest) == command_spec(seq!["remove"@] + rest),
        command_spec(seq!["-Ss"@] + rest) == command_spec(seq!["search"@] + rest),
        command_spec(seq!["-Syu"@] + rest) == command_spec(seq!["upgrade"@] + rest),
        command_spec(seq!["-Q"@] + rest) == command_spec(seq!["list"@] + rest),
        rest.len() == 1 ==> command_spec(seq!["-Qi"@] + rest) == command_spec(
            seq!["info"@] + rest,
        ),
{
    reveal_strlit("-S");
    reveal_strlit("-Syu");
    reveal_strlit("-Q");
    reveal_strlit("-Ss");
    reveal_strlit("-Qi");
    reveal_strlit("-R");
    reveal_strlit("install");
    reveal_strlit("remove");
    reveal_strlit("search");
    reveal_strlit("info");
    reveal_strlit("list");
    reveal_strlit("upgrade");
    reveal_strlit("sync");
    reveal_strlit("--");
    rest.index_of_first_ensures("--"@);
    assert(verb_operands(rest) == rest);
    let a1 = seq!["-S"@] + rest;
    let a2 = seq!["install"@] + rest;
    assert(a1[0] == "-S"@ && a2[0] == "install"@);
    assert(a1.skip(1) =~= rest && a2.skip(1) =~= rest);
    assert(a2[0] != "-S"@ && a2[0] != "-Syu"@ && a2[0] != "-Q"@ && a2[0] != "-Ss"@ && a2[0]
        != "-Qi"@ && a2[0] != "-R"@);
    assert(command_spec(a1) == Ok::<CommandView, Seq<char>>(CommandView::Install(rest)));
    assert(command_spec(a2) == Ok::<CommandView, Seq<char>>(CommandView::Install(rest)));
    let b1 = seq!["-R"@] + rest;
    let b2 = seq!["remove"@] + rest;
    assert(b1[0] == "-R"@ && b2[0] == "remove"@);
    assert(b1.skip(1) =~= rest && b2.skip(1) =~= rest);
    assert("-R"@[1] != "-S"@[1] && "-R"@[1] != "-Q"@[1]);
    assert("-R"@ != "-S"@ && "-R"@ != "-Q"@ && "-R"@.len() != "-Syu"@.len() && "-R"@.len()
        != "-Ss"@.len() && "-R"@.len() != "-Qi"@.len());
    assert(command_spec(b1) == Ok::<CommandView, Seq<char>>(CommandView::Remove(rest)));
    assert(command_spec(b2) == Ok::<CommandView, Seq<char>>(CommandView::Remove(rest)));
    let c1 = seq!["-Ss"@] + rest;
    let c2 = seq!["search"@] + rest;
    assert(c1[0] == "-Ss"@ && c2[0] == "search"@);
    assert(c1.skip(1) =~= rest && c2.skip(1) =~= rest);
    assert("search"@[0] != "remove"@[0] && "search"@.len() != "install"@.len());
    assert("search"@ != "remove"@ && "search"@ != "install"@);
    assert(command_spec(c1) == Ok::<CommandView, Seq<char>>(CommandView::Search(join_spaces(rest))));
    assert(command_spec(c2) == Ok::<CommandView, Seq<char>>(CommandView::Search(join_spaces(rest))));
    let d1 = seq!["-Syu"@] + rest;
    let d2 = seq!["upgrade"@] + rest;
    assert(d1[0] == "-Syu"@ && d2[0] == "upgrade"@);
    assert("-Syu"@.len() != "-S"@.len() && "-Syu"@.len() != "-Q"@.len());
    assert("upgrade"@[0] != "install"@[0] && "upgrade"@.len() != "remove"@.len() && "upgrade"@.len()
        != "search"@.len() && "upgrade"@.len() != "info"@.len() && "upgrade"@.len() != "list"@.len());
    assert(command_spec(d1) == Ok::<CommandView, Seq<char>>(CommandView::Upgrade));
    assert(command_spec(d2) == Ok::<CommandView, Seq<char>>(CommandView::Upgrade));
    let e1 = seq!["-Q"@] + rest;
    let e2 = seq!["list"@] + rest;
    assert(e1[0] == "-Q"@ && e2[0] == "list"@);
    assert("-Q"@[1] != "-S"@[1] && "-Q"@.len() != "-Syu"@.len());
    assert("list"@.len() != "install"@.len() && "list"@.len() != "remove"@.len() && "list"@.len()
        != "search"@.len() && "list"@[0] != "info"@[0]);
    assert(command_spec(e1) == Ok::<CommandView, Seq<char>>(CommandView::ListInstalled));
    assert(command_spec(e2) == Ok::<CommandView, Seq<char>>(CommandView::ListInstalled));
    if rest.len() == 1 {
        let f1 = seq!["-Qi"@] + rest;
        let f2 = seq!["info"@] + rest;
        assert(f1[0] == "-Qi"@ && f2[0] == "info"@);
        assert(f1.skip(1) =~= rest && f2.skip(1) =~= rest);
        assert("-Qi"@.len() != "-S"@.len() && "-Qi"@.len() != "-Q"@.len() && "-Qi"@.len()
            != "-R"@.len() && "-Qi"@.len() != "-Syu"@.len());
        assert("-Qi"@[1] != "-Ss"@[1]);
        assert("info"@.len() != "install"@.len() && "info"@.len() != "remove"@.len() && "info"@.len()
            != "search"@.len());
        assert(join_spaces(rest) == rest[0]);
        assert(command_spec(f1) == Ok::<CommandView, Seq<char>>(CommandView::Info(rest[0])));
        assert(command_spec(f2) == Ok::<CommandView, Seq<char>>(CommandView::Info(rest[0])));
    }
}

/// A verb in first position is always the command, never a package name:
/// it names a command whatever follows (`info` needs an operand).
pub proof fn lemma_verbs_are_commands(verb: Seq<char>, rest: Seq<Seq<char>>)
    requires
        is_verb(verb),
    ensures
        command_spec(seq![verb] + rest) is Ok || (verb == "info"@ && verb_operands(rest).len()
            == 0),
{
    reveal_strlit("-S");
    reveal_strlit("-Syu");
    reveal_strlit("-Q");
    reveal_strlit("-Ss");
    reveal_strlit("-Qi");
    reveal_strlit("-R");
    reveal_strlit("install");
    reveal_strlit("remove");
    reveal_strlit("search");
    reveal_strlit("info");
    reveal_strlit("list");
    reveal_strlit("upgrade");
    reveal_strlit("sync");
    reveal_strlit("--");
    let args = seq![verb] + rest;
    assert(args[0] == verb);
    assert(args.skip(1) =~= rest);
}

/// After `--`, a verb's operands are taken literally: `install -- install`
/// installs the package named `install`.
pub proof fn lemma_double_dash_escapes(rest: Seq<Seq<char>>)
    ensures
        command_spec(seq!["install"@, "--"@] + rest) == Ok::<CommandView, Seq<char>>(
            CommandView::Install(rest),
        ),
        command_spec(seq!["remove"@, "--"@] + rest) == Ok::<CommandView, Seq<char>>(
            CommandView::Remove(rest),
        ),
{
    reveal_strlit("-S");
    reveal_strlit("-Syu");
    reveal_strlit("-Q");
    reveal_strlit("-Ss");
    reveal_strlit("-Qi");
    reveal_strlit("-R");
    reveal_strlit("install");
    reveal_strlit("remove");
    reveal_strlit("search");
    reveal_strlit("info");
    reveal_strlit("list");
    reveal_strlit("upgrade");
    reveal_strlit("sync");
    reveal_strlit("--");
    let ops = seq!["--"@] + rest;
    ops.index_of_first_ensures("--"@);
    assert(ops[0] == "--"@);
    assert(ops.index_of_first("--"@) == Some(0int));
    assert(ops.skip(1) =~= rest);
    assert((seq!["install"@, "--"@] + rest).skip(1) =~= ops);
    assert((seq!["remove"@, "--"@] + rest).skip(1) =~= ops);
    assert((seq!["install"@, "--"@] + rest)[0] == "install"@);
    assert(verb_operands(ops) == rest);
    assert((seq!["remove"@, "--"@] + rest)[0] == "remove"@);
}


/// The arguments that the option scan takes as options.
pub open spec fn is_option(arg: Seq<char>) -> bool {
    ||| arg == "--privilege"@
    ||| starts_with(arg, "--privilege="@)
    ||| arg == "--dry-run"@
    ||| arg == "--noconfirm"@
    ||| arg == "--execute"@
    ||| arg == "-E"@
}

/// What a command line reads as: the error, or the command with the
/// options (the non-option arguments left out).
pub open spec fn parse_outcome(args: Seq<Seq<char>>) -> Result<(CommandView, Scan), Seq<char>> {
    match scan_args(args, 0, empty_scan()) {
        Err(e) => Err(e),
        Ok(s) => match command_spec(s.rest) {
            Err(e) => Err(e),
            Ok(c) => Ok((c, Scan { rest: Seq::empty(), ..s })),
        },
    }
}

/// Two scans that agree but for the first non-option argument, `x` in
/// one and `y` in the other; none of the others is `--`.
pub open spec fn differ_first(s1: Scan, s2: Scan, x: Seq<char>, y: Seq<char>) -> bool {
    &&& s1.dry_run == s2.dry_run
    &&& s1.noconfirm == s2.noconfirm
    &&& s1.privilege == s2.privilege
    &&& s1.ignored == s2.ignored
    &&& s1.rest.len() == s2.rest.len()
    &&& s1.rest.len() >= 1
    &&& s1.rest[0] == x
    &&& s2.rest[0] == y
    &&& s1.rest.skip(1) == s2.rest.skip(1)
    &&& !s1.rest.skip(1).contains("--"@)
}

/// Reading the same arguments from `i` on keeps two scans that differ
/// only in their first non-option argument that way.
proof fn lemma_scan_differ_first(
    a1: Seq<Seq<char>>,
    a2: Seq<Seq<char>>,
    i: int,
    st1: Scan,
    st2: Scan,
    x: Seq<char>,
    y: Seq<char>,
)
    requires
        1 <= i,
        a1.len() == a2.len(),
        forall|j: int| i <= j < a1.len() ==> a1[j] == a2[j] && a1[j] != "--"@,
        differ_first(st1, st2, x, y),
    ensures
        match (scan_args(a1, i, st1), scan_args(a2, i, st2)) {
            (Ok(s1), Ok(s2)) => differ_first(s1, s2, x, y),
            (Err(e1), Err(e2)) => e1 == e2,
            _ => false,
        },
    decreases a1.len() - i,
{
    if i < a1.len() {
        let arg = a1[i];
        assert(a2[i] == arg);
        if arg == "--privilege"@ {
            if i + 1 < a1.len() {
                assert(a2[i + 1] == a1[i + 1]);
                lemma_scan_differ_first(
                    a1,
                    a2,
                    i + 2,
                    Scan { privilege: Some(words(a1[i + 1])), ..st1 },
                    Scan { privilege: Some(words(a1[i + 1])), ..st2 },
                    x,
                    y,
                );
            }
        } else if starts_with(arg, "--privilege="@) {
            let w = Some(words(arg.subrange(12, arg.len() as int)));
            lemma_scan_differ_first(
                a1,
                a2,
                i + 1,
                Scan { privilege: w, ..st1 },
                Scan { privilege: w, ..st2 },
                x,
                y,
            );
        } else if arg == "--dry-run"@ {
            lemma_scan_differ_first(
                a1,
                a2,
                i + 1,
                Scan { dry_run: true, ..st1 },
                Scan { dry_run: true, ..st2 },
                x,
                y,
            );
        } else if arg == "--noconfirm"@ {
            lemma_scan_differ_first(
                a1,
                a2,
                i + 1,
                Scan { noconfirm: true, ..st1 },
                Scan { noconfirm: true, ..st2 },
                x,
                y,
            );
        } else if arg == "--execute"@ || arg == "-E"@ {
            lemma_scan_differ_first(
                a1,
                a2,
                i + 1,
                Scan { ignored: st1.ignored.push(arg), ..st1 },
                Scan { ignored: st2.ignored.push(arg), ..st2 },
                x,
                y,
            );
        } else {
            let n1 = Scan { rest: st1.rest.push(arg), ..st1 };
            let n2 = Scan { rest: st2.rest.push(arg), ..st2 };
            assert(n1.rest.skip(1) =~= st1.rest.skip(1).push(arg));
            assert(n2.rest.skip(1) =~= st2.rest.skip(1).push(arg));
            assert forall|w: Seq<char>| n1.rest.skip(1).contains(w) implies w != "--"@ by {
                let k = choose|k: int| 0 <= k < n1.rest.skip(1).len() && n1.rest.skip(1)[k] == w;
                if k < st1.rest.skip(1).len() {
                    assert(st1.rest.skip(1).contains(w));
                }
            }
            lemma_scan_differ_first(a1, a2, i + 1, n1, n2, x, y);
        }
    }
}

/// The two syntaxes read alike on whole command lines: `-S` and
/// `install`, `-R` and `remove`, `-Ss` and `search`, `-Syu` and `upgrade`,
/// `-Q` and `list`, followed by the same arguments (options anywhere among
/// them, no `--`), give the same command with the same options, or the
/// same error; so do `-Qi` and `info` followed by one target.
pub proof fn lemma_parse_syntaxes_agree(flag: Seq<char>, verb: Seq<char>, rest: Seq<Seq<char>>)
    requires
        (flag == "-S"@ && verb == "install"@) || (flag == "-R"@ && verb == "remove"@) || (flag
            == "-Ss"@ && verb == "search"@) || (flag == "-Syu"@ && verb == "upgrade"@) || (flag
            == "-Q"@ && verb == "list"@) || (flag == "-Qi"@ && verb == "info"@ && rest.len() == 1
            && !is_option(rest[0])),
        !rest.contains("--"@),
    ensures
        parse_outcome(seq![flag] + rest) == parse_outcome(seq![verb] + rest),
{
    reveal_strlit("-S");
    reveal_strlit("-Syu");
    reveal_strlit("-Q");
    reveal_strlit("-Qi");
    reveal_strlit("-Ss");
    reveal_strlit("-R");
    reveal_strlit("install");
    reveal_strlit("remove");
    reveal_strlit("search");
    reveal_strlit("info");
    reveal_strlit("list");
    reveal_strlit("upgrade");
    reveal_strlit("--privilege");
    reveal_strlit("--privilege=");
    reveal_strlit("--dry-run");
    reveal_strlit("--noconfirm");
    reveal_strlit("--execute");
    reveal_strlit("-E");
    reveal_strlit("--");
    let a1 = seq![flag] + rest;
    let a2 = seq![verb] + rest;
    assert(a1[0] == flag && a2[0] == verb);
    assert("-S"@[1] != "-E"@[1] && "-R"@[1] != "-E"@[1] && "-Q"@[1] != "-E"@[1]);
    assert(flag.len() < 12);
    assert(flag != "--privilege"@ && flag != "--dry-run"@ && flag != "--noconfirm"@ && flag
        != "--execute"@ && flag != "-E"@ && !starts_with(flag, "--privilege="@));
    assert(verb != "--privilege"@ && verb != "--dry-run"@ && verb != "--noconfirm"@ && verb
        != "--execute"@ && verb != "-E"@ && !starts_with(verb, "--privilege="@));
    let e = empty_scan();
    let st1 = Scan { rest: e.rest.push(flag), ..e };
    let st2 = Scan { rest: e.rest.push(verb), ..e };
    assert(scan_args(a1, 0, e) == scan_args(a1, 1, st1));
    assert(scan_args(a2, 0, e) == scan_args(a2, 1, st2));
    assert(st1.rest.skip(1) =~= Seq::<Seq<char>>::empty());
    assert(st2.rest.skip(1) =~= Seq::<Seq<char>>::empty());
    assert forall|j: int| 1 <= j < a1.len() implies a1[j] == a2[j] && a1[j] != "--"@ by {
        assert(a1[j] == rest[j - 1]);
        assert(a2[j] == rest[j - 1]);
    }
    assert("-Qi"@[1] != "-Ss"@[1] && "-Qi"@.len() != "-S"@.len() && "-Qi"@.len() != "-Syu"@.len());
    if flag == "-Qi"@ {
        assert(verb == "info"@ && rest.len() == 1 && !is_option(rest[0]));
        let x = rest[0];
        assert(a1.len() == 2 && a2.len() == 2);
        assert(a1[1] == x && a2[1] == x);
        let t1 = Scan { rest: st1.rest.push(x), ..st1 };
        let t2 = Scan { rest: st2.rest.push(x), ..st2 };
        assert(scan_args(a1, 1, st1) == scan_args(a1, 2, t1));
        assert(scan_args(a2, 1, st2) == scan_args(a2, 2, t2));
        assert(t1.rest =~= seq![flag, x]);
        assert(t2.rest =~= seq![verb, x]);
        assert(seq![flag, x].skip(1) =~= rest);
        assert(seq![flag, x] =~= seq![flag] + rest);
        assert(seq![verb, x] =~= seq![verb] + rest);
        lemma_syntaxes_agree(rest);
    } else {
        lemma_scan_differ_first(a1, a2, 1, st1, st2, flag, verb);
        match (scan_args(a1, 1, st1), scan_args(a2, 1, st2)) {
            (Ok(s1), Ok(s2)) => {
                let r = s1.rest.skip(1);
                assert(s1.rest =~= seq![flag] + r);
                assert(s2.rest =~= seq![verb] + r);
                lemma_syntaxes_agree(r);
            },
            _ => {},
        }
    }
}

} // verus!
