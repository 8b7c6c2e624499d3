//! The configuration file's contents and the choice of the command that
//! runs privileged operations.

use vstd::prelude::*;
use crate::text::{is_whitespace, owned, push_str, strings_view, unicode_white_space};

verus! {

/// The configuration file.
#[derive(Debug, Clone)]
pub struct Config {
    pub privilege: Option<PrivilegeConfig>,
    pub nix: Option<NixConfig>,
}

/// The `[nix]` section.
#[derive(Debug, Clone)]
pub struct NixConfig {
    /// The Nix profile path to operate on; without one the default profile
    /// is used and never mixed with custom ones.
    pub profile: Option<String>,
}

/// The `[privilege]` section.
#[derive(Debug, Clone)]
pub struct PrivilegeConfig {
    pub command: Option<PrivilegeCommand>,
}

/// A privilege command: one string split at white space, or an argument
/// vector.
#[derive(Debug, Clone)]
pub enum PrivilegeCommand {
    Single(String),
    Many(Vec<String>),
}

impl Default for Config {
    fn default() -> (r: Config)
        ensures
            r.privilege is None,
            r.nix is None,
    {
        Config { privilege: None, nix: None }
    }
}

/// The white-space separated words of `s`, in order (`str::split_whitespace`).
pub open spec fn words(s: Seq<char>) -> Seq<Seq<char>>
    decreases s.len(),
{
    if s.len() == 0 {
        Seq::empty()
    } else {
        let prev = words(s.drop_last());
        let c = s.last();
        if unicode_white_space(c) {
            prev
        } else if s.len() >= 2 && !unicode_white_space(s[s.len() - 2]) {
            prev.drop_last().push(prev.last().push(c))
        } else {
            prev.push(seq![c])
        }
    }
}

/// The words of `value`.
pub fn split_words(value: &str) -> (r: Vec<String>)
    ensures
        strings_view(r@) == words(value@),
{
    let cs = crate::text::chars_of(value);
    let mut acc: Vec<String> = Vec::new();
    let mut cur: Vec<char> = Vec::new();
    let mut i: usize = 0;
    assert(cs@.take(0) =~= Seq::<char>::empty());
    while i < cs.len()
        invariant
            i <= cs@.len(),
            cs@ == value@,
            (i > 0 && !unicode_white_space(cs@[i - 1])) ==> cur@.len() > 0 && words(
                cs@.take(i as int),
            ) == strings_view(acc@).push(cur@),
            !(i > 0 && !unicode_white_space(cs@[i - 1])) ==> cur@.len() == 0 && words(
                cs@.take(i as int),
            ) == strings_view(acc@),
        decreases cs.len() - i,
    {
        let c = cs[i];
        let ghost p = cs@.take(i + 1);
        assert(p.drop_last() =~= cs@.take(i as int));
        assert(p.last() == c);
        if is_whitespace(c) {
            if cur.len() > 0 {
                let ghost before = strings_view(acc@);
                acc.push(crate::text::string_of(&cur));
                assert(strings_view(acc@) =~= before.push(cur@));
                cur = Vec::new();
            }
        } else {
            if i > 0 {
                assert(p[p.len() - 2] == cs@[i - 1]);
            }
            let ghost old_cur = cur@;
            cur.push(c);
            proof {
                if i > 0 && !unicode_white_space(cs@[i - 1]) {
                    let w = words(cs@.take(i as int));
                    assert(w.drop_last() =~= strings_view(acc@));
                    assert(w.last() == old_cur);
                    assert(words(p) =~= strings_view(acc@).push(cur@));
                } else {
                    assert(cur@ =~= seq![c]);
                }
            }
        }
        i = i + 1;
    }
    assert(cs@.take(cs@.len() as int) =~= cs@);
    if cur.len() > 0 {
        let ghost before = strings_view(acc@);
        acc.push(crate::text::string_of(&cur));
        assert(strings_view(acc@) =~= before.push(cur@));
    }
    acc
}

/// The argument vector of a privilege command.
pub open spec fn command_argv(c: PrivilegeCommand) -> Seq<Seq<char>> {
    match c {
        PrivilegeCommand::Single(s) => words(s@),
        PrivilegeCommand::Many(v) => strings_view(v@),
    }
}

impl PrivilegeCommand {
    /// The argument vector: a single string is split at white space.
    pub fn argv(self) -> (r: Vec<String>)
        ensures
            strings_view(r@) == command_argv(self),
    {
        match self {
            PrivilegeCommand::Single(cmd) => split_words(cmd.as_str()),
            PrivilegeCommand::Many(argv) => argv,
        }
    }
}

/// The argument vector of a borrowed privilege command.
fn argv_of(c: &PrivilegeCommand) -> (r: Vec<String>)
    ensures
        strings_view(r@) == command_argv(*c),
{
    match c {
        PrivilegeCommand::Single(cmd) => split_words(cmd.as_str()),
        PrivilegeCommand::Many(argv) => crate::aur::copy_strings(argv),
    }
}

/// The privilege command of the configuration file, if it names one.
pub open spec fn config_command(config: Config) -> Option<Seq<Seq<char>>> {
    match config.privilege {
        Some(p) => match p.command {
            Some(c) => Some(command_argv(c)),
            None => None,
        },
        None => None,
    }
}

/// The message for an empty privilege command from `source`.
pub open spec fn empty_command_error(source: Seq<char>) -> Seq<char> {
    source + " must name a privilege command (e.g. sudo, pkexec, doas)"@
}

/// `argv`, unless it is empty: then the error names `source`.
pub fn reject_empty(source: &str, argv: Vec<String>) -> (r: Result<Vec<String>, String>)
    ensures
        argv@.len() == 0 <==> r is Err,
        r matches Ok(a) ==> a@ == argv@,
        r matches Err(e) ==> e@ == empty_command_error(source@),
{
    if argv.len() == 0 {
        let mut msg = owned(source);
        push_str(&mut msg, " must name a privilege command (e.g. sudo, pkexec, doas)");
        Err(msg)
    } else {
        Ok(argv)
    }
}

/// The privilege command, by precedence: the `--privilege` flag, then the
/// `PACNIX_PRIVILEGE` environment value, then `privilege.command` of the
/// configuration file, then the detected tool, then `sudo`. An empty flag
/// or environment value is an error; an empty configured command is
/// skipped.
pub open spec fn privilege_choice(
    flag: Option<Seq<Seq<char>>>,
    env: Option<Seq<char>>,
    configured: Option<Seq<Seq<char>>>,
    detected: Option<Seq<char>>,
) -> Result<Seq<Seq<char>>, Seq<char>> {
    match flag {
        Some(a) => if a.len() == 0 {
            Err(empty_command_error("--privilege"@))
        } else {
            Ok(a)
        },
        None => match env {
            Some(v) => if words(v).len() == 0 {
                Err(empty_command_error("PACNIX_PRIVILEGE"@))
            } else {
                Ok(words(v))
            },
            None => match configured {
                Some(a) if a.len() > 0 => Ok(a),
                _ => Ok(
                    seq![
                        match detected {
                            Some(t) => t,
                            None => "sudo"@,
                        },
                    ],
                ),
            },
        },
    }
}

/// The privilege command (see `privilege_choice`), given the flag, the
/// environment value, the configuration and the tool found in `PATH`.
pub fn configured_privilege_from(
    flag: &Option<Vec<String>>,
    env_privilege: Option<&str>,
    config: &Config,
    detected: Option<&str>,
) -> (r: Result<Vec<String>, String>)
    ensures
        match (
            r,
            privilege_choice(
                match *flag {
                    Some(a) => Some(strings_view(a@)),
                    None => None,
                },
                match env_privilege {
                    Some(v) => Some(v@),
                    None => None,
                },
                config_command(*config),
                match detected {
                    Some(t) => Some(t@),
                    None => None,
                },
            ),
        ) {
            (Ok(a), Ok(b)) => strings_view(a@) == b,
            (Err(a), Err(b)) => a@ == b,
            _ => false,
        },
        r matches Ok(a) ==> a@.len() > 0,
{
    proof {
        reveal_strlit("--privilege");
        reveal_strlit("PACNIX_PRIVILEGE");
    }
    match flag {
        Some(argv) => {
            return reject_empty("--privilege", argv.clone());
        },
        None => {},
    }
    match env_privilege {
        Some(value) => {
            return reject_empty("PACNIX_PRIVILEGE", split_words(value));
        },
        None => {},
    }
    let configured: Option<Vec<String>> = match &config.privilege {
        Some(p) => match &p.command {
            Some(c) => Some(argv_of(c)),
            None => None,
        },
        None => None,
    };
    match configured {
        Some(argv) => {
            if argv.len() > 0 {
                return Ok(argv);
            }
        },
        None => {},
    }
    let mut out: Vec<String> = Vec::new();
    match detected {
        Some(t) => out.push(owned(t)),
        None => out.push(owned("sudo")),
    }
    Ok(out)
}

/// Whether resolving the privilege command falls back past an empty
/// `privilege.command` of the configuration file (which deserves a
/// warning).
pub fn skips_empty_config_command(
    flag: &Option<Vec<String>>,
    env_privilege: Option<&str>,
    config: &Config,
) -> (r: bool)
    ensures
        r == (flag is None && env_privilege is None && config_command(*config) == Some(
            Seq::<Seq<char>>::empty(),
        )),
{
    if flag.is_some() || env_privilege.is_some() {
        return false;
    }
    match &config.privilege {
        Some(p) => match &p.command {
            Some(c) => {
                let a = argv_of(c);
                assert(a@.len() == 0 ==> command_argv(*c) =~= Seq::<Seq<char>>::empty());
                a.len() == 0
            },
            None => false,
        },
        None => false,
    }
}

/// The tools that can run privileged commands, in order of preference.
pub open spec fn privilege_tools() -> Seq<Seq<char>> {
    seq!["sudo-rs"@, "sudo"@, "pkexec"@, "doas"@]
}

/// `available` answered `answer` for the tool `name`.
pub open spec fn answered<F: Fn(&str) -> bool>(available: &F, name: Seq<char>, answer: bool) -> bool {
    exists|s: &str| s@ == name && available.ensures((s,), answer)
}

/// The first privilege tool, in order of preference, that `available`
/// reports as present.
pub fn detect_privilege<F: Fn(&str) -> bool>(available: &F) -> (r: Option<&'static str>)
    requires
        forall|s: &str| available.requires((s,)),
    ensures
        match r {
            Some(t) => exists|k: int|
                0 <= k < 4 && t@ == privilege_tools()[k] && answered(available, t@, true) && forall|
                    j: int,
                | 0 <= j < k ==> answered(available, #[trigger] privilege_tools()[j], false),
            None => forall|j: int|
                0 <= j < 4 ==> answered(available, #[trigger] privilege_tools()[j], false),
        },
{
    proof {
        reveal_strlit("sudo-rs");
        reveal_strlit("sudo");
        reveal_strlit("pkexec");
        reveal_strlit("doas");
    }
    let t0: &'static str = "sudo-rs";
    let t1: &'static str = "sudo";
    let t2: &'static str = "pkexec";
    let t3: &'static str = "doas";
    let a0 = available(t0);
    if a0 {
        assert(answered(available, t0@, true));
        assert(t0@ == privilege_tools()[0]);
        return Some(t0);
    }
    assert(answered(available, privilege_tools()[0], false));
    let a1 = available(t1);
    if a1 {
        assert(answered(available, t1@, true));
        assert(t1@ == privilege_tools()[1]);
        return Some(t1);
    }
    assert(answered(available, privilege_tools()[1], false));
    let a2 = available(t2);
    if a2 {
        assert(answered(available, t2@, true));
        assert(t2@ == privilege_tools()[2]);
        return Some(t2);
    }
    assert(answered(available, privilege_tools()[2], false));
    let a3 = available(t3);
    if a3 {
        assert(answered(available, t3@, true));
        assert(t3@ == privilege_tools()[3]);
        return Some(t3);
    }
    assert(answered(available, privilege_tools()[3], false));
    None
}

} // verus!
