//! The command line: what is asked for, and how the target is built.

use vstd::prelude::*;

use crate::text::same_text;
use crate::text::texts;
use crate::text::Text;

verus! {

/// What is asked for.
pub enum Command {
    /// To build the target, with arguments for the build, and to extract its metadata.
    Build(Vec<String>),
    /// To extract the metadata of a binary.
    Extract(String),
    /// To extract the metadata of a binary that is not named.
    MissingPath,
    /// Anything else: how to ask is to be told.
    Usage,
}

pub enum CommandV {
    Build(Seq<Text>),
    Extract(Text),
    MissingPath,
    Usage,
}

impl View for Command {
    type V = CommandV;

    open spec fn view(&self) -> CommandV {
        match self {
            Command::Build(args) => CommandV::Build(texts(args@)),
            Command::Extract(path) => CommandV::Extract(path@),
            Command::MissingPath => CommandV::MissingPath,
            Command::Usage => CommandV::Usage,
        }
    }
}

/// The crates that are asked for and the other arguments: every `--crate` takes the argument after it,
/// and `--` ends the options. A `--crate` with nothing after it is passed over.
pub open spec fn sorted_args(args: Seq<Text>) -> (Seq<Text>, Seq<Text>)
    decreases args.len(),
{
    if args.len() == 0 {
        (Seq::empty(), Seq::empty())
    } else if args[0] == "--crate"@ {
        if args.len() == 1 {
            (Seq::empty(), Seq::empty())
        } else {
            let more = sorted_args(args.skip(2));
            (seq![args[1]] + more.0, more.1)
        }
    } else if args[0] == "--"@ {
        (Seq::empty(), args.skip(1))
    } else {
        let more = sorted_args(args.skip(1));
        (more.0, seq![args[0]] + more.1)
    }
}

/// The arguments from the name of the subcommand on: `cargo` puts its own name for it first.
pub open spec fn from_subcommand(args: Seq<Text>) -> Seq<Text> {
    if args.len() > 0 && args[0] == "rrmf"@ {
        args.skip(1)
    } else {
        args
    }
}

/// The crates that are asked for.
pub open spec fn filters_in(args: Seq<Text>) -> Seq<Text> {
    let all = from_subcommand(args);
    if all.len() == 0 {
        Seq::empty()
    } else {
        sorted_args(all.skip(1)).0
    }
}

/// What is asked for.
pub open spec fn command_in(args: Seq<Text>) -> CommandV {
    let all = from_subcommand(args);
    if all.len() == 0 {
        CommandV::Usage
    } else {
        let rest = sorted_args(all.skip(1)).1;
        if all[0] == "build"@ {
            CommandV::Build(rest)
        } else if all[0] == "extract"@ {
            if rest.len() > 0 {
                CommandV::Extract(rest[0])
            } else {
                CommandV::MissingPath
            }
        } else {
            CommandV::Usage
        }
    }
}

/// Sorts arguments from a position on into crates that are asked for and others.
fn sort_args(args: &Vec<String>, from: usize) -> (r: (Vec<String>, Vec<String>))
    requires
        from <= args.len(),
    ensures
        (texts(r.0@), texts(r.1@)) == sorted_args(texts(args@).skip(from as int)),
{
    let ghost all = texts(args@);
    let ghost wanted = sorted_args(all.skip(from as int));
    let mut filters: Vec<String> = Vec::new();
    let mut rest: Vec<String> = Vec::new();
    let mut i: usize = from;
    proof {
        assert(texts(filters@) + wanted.0 =~= wanted.0);
        assert(texts(rest@) + wanted.1 =~= wanted.1);
    }
    while i < args.len()
        invariant
            from <= i <= args.len(),
            all == texts(args@),
            wanted == sorted_args(all.skip(from as int)),
            wanted.0 == texts(filters@) + sorted_args(all.skip(i as int)).0,
            wanted.1 == texts(rest@) + sorted_args(all.skip(i as int)).1,
        decreases args.len() - i,
    {
        let ghost here = all.skip(i as int);
        let ghost old_filters = texts(filters@);
        let ghost old_rest = texts(rest@);
        assert(here[0] == args@[i as int]@);
        if same_text(args[i].as_str(), "--crate") {
            if i + 1 < args.len() {
                filters.push(args[i + 1].clone());
                proof {
                    let more = sorted_args(all.skip(i + 2));
                    assert(here.skip(2) =~= all.skip(i + 2));
                    assert(here[1] == args@[i + 1]@);
                    assert(texts(filters@) =~= old_filters.push(here[1]));
                    assert(texts(filters@) + more.0 =~= old_filters + (seq![here[1]] + more.0));
                }
                i += 2;
            } else {
                proof {
                    assert(all.skip(i + 1) =~= Seq::<Text>::empty());
                }
                i += 1;
            }
        } else if same_text(args[i].as_str(), "--") {
            let mut k: usize = i + 1;
            proof {
                assert(here.skip(1) =~= all.skip(i + 1));
                assert(old_rest + all.subrange(i + 1, i + 1) =~= texts(rest@));
            }
            while k < args.len()
                invariant
                    i + 1 <= k <= args.len(),
                    all == texts(args@),
                    texts(rest@) == old_rest + all.subrange(i + 1, k as int),
                decreases args.len() - k,
            {
                let ghost now = texts(rest@);
                rest.push(args[k].clone());
                proof {
                    assert(texts(rest@) =~= now.push(all[k as int]));
                    assert(all.subrange(i + 1, k + 1) =~= all.subrange(i + 1, k as int).push(all[k as int]));
                    assert(texts(rest@) =~= old_rest + all.subrange(i + 1, k + 1));
                }
                k += 1;
            }
            proof {
                assert(all.subrange(i + 1, k as int) =~= here.skip(1));
                assert(texts(filters@) + Seq::<Text>::empty() =~= texts(filters@));
                assert(texts(filters@) =~= wanted.0);
                assert(texts(rest@) =~= wanted.1);
            }
            return (filters, rest);
        } else {
            rest.push(args[i].clone());
            proof {
                let more = sorted_args(all.skip(i + 1));
                assert(here.skip(1) =~= all.skip(i + 1));
                assert(texts(rest@) =~= old_rest.push(here[0]));
                assert(texts(rest@) + more.1 =~= old_rest + (seq![here[0]] + more.1));
            }
            i += 1;
        }
    }
    proof {
        assert(all.skip(i as int) =~= Seq::<Text>::empty());
        assert(texts(filters@) + Seq::<Text>::empty() =~= texts(filters@));
        assert(texts(rest@) + Seq::<Text>::empty() =~= texts(rest@));
    }
    (filters, rest)
}

/// What is asked for by the arguments of the program, without its own name, and the crates that it is
/// asked for.
pub fn read_args(args: &Vec<String>) -> (r: (Command, Vec<String>))
    ensures
        r.0@ == command_in(texts(args@)),
        texts(r.1@) == filters_in(texts(args@)),
{
    let ghost all = texts(args@);
    let from: usize = if args.len() > 0 && same_text(args[0].as_str(), "rrmf") { 1 } else { 0 };
    assert(from_subcommand(all) =~= all.skip(from as int));
    if from == args.len() {
        let none: Vec<String> = Vec::new();
        proof {
            assert(from_subcommand(all) =~= Seq::<Text>::empty());
            assert(texts(none@) =~= filters_in(all));
        }
        return (Command::Usage, none);
    }
    let (filters, rest) = sort_args(args, from + 1);
    assert(all.skip(from as int).skip(1) =~= all.skip(from + 1));
    let command: Command = if same_text(args[from].as_str(), "build") {
        Command::Build(rest)
    } else if same_text(args[from].as_str(), "extract") {
        if rest.len() > 0 {
            Command::Extract(rest[0].clone())
        } else {
            Command::MissingPath
        }
    } else {
        Command::Usage
    };
    (command, filters)
}

// ---- the build ----

/// The arguments with which a target is built, before those that are asked for.
pub open spec fn build_words() -> Seq<Text> {
    seq!["build"@, "--release"@, "--message-format=json-diagnostic-rendered-ansi"@]
}

/// The arguments with which the target is built: optimised, with messages that can be read, and with
/// what else is asked for.
pub fn build_args(extra: &Vec<String>) -> (r: Vec<String>)
    ensures
        texts(r@) == build_words() + texts(extra@),
{
    let ghost all = texts(extra@);
    let mut r: Vec<String> = Vec::new();
    r.push("build".to_string());
    r.push("--release".to_string());
    r.push("--message-format=json-diagnostic-rendered-ansi".to_string());
    let mut i: usize = 0;
    assert(texts(r@) =~= build_words() + all.take(0));
    while i < extra.len()
        invariant
            i <= extra.len(),
            all == texts(extra@),
            texts(r@) == build_words() + all.take(i as int),
        decreases extra.len() - i,
    {
        let ghost now = texts(r@);
        r.push(extra[i].clone());
        proof {
            assert(texts(r@) =~= now.push(all[i as int]));
            assert(all.take(i + 1) =~= all.take(i as int).push(all[i as int]));
            assert(texts(r@) =~= build_words() + all.take(i + 1));
        }
        i += 1;
    }
    assert(all.take(i as int) =~= all);
    r
}

/// The settings of the environment that make the build keep its debug information, in the binary.
pub fn build_settings() -> (r: [(&'static str, &'static str); 3])
    ensures
        r@[0].0@ == "CARGO_PROFILE_RELEASE_DEBUG"@ && r@[0].1@ == "2"@,
        r@[1].0@ == "CARGO_PROFILE_RELEASE_STRIP"@ && r@[1].1@ == "none"@,
        r@[2].0@ == "CARGO_PROFILE_RELEASE_SPLIT_DEBUGINFO"@ && r@[2].1@ == "off"@,
{
    [
        ("CARGO_PROFILE_RELEASE_DEBUG", "2"),
        ("CARGO_PROFILE_RELEASE_STRIP", "none"),
        ("CARGO_PROFILE_RELEASE_SPLIT_DEBUGINFO", "off"),
    ]
}

// ---- the launcher ----

/// What is to be launched: a target, the mod that it is launched with, and the target's arguments.
pub struct Launch {
    pub target: String,
    pub script: String,
    pub args: Vec<String>,
}

/// What the arguments of the launcher, its own name first, ask to be launched; nothing where they do not
/// name a target and a mod.
pub fn read_launch(args: &Vec<String>) -> (r: Option<Launch>)
    ensures
        match r {
            Some(l) => {
                &&& args.len() >= 3
                &&& l.target@ == args@[1]@
                &&& l.script@ == args@[2]@
                &&& texts(l.args@) == texts(args@).skip(3)
            },
            None => args.len() < 3,
        },
{
    if args.len() < 3 {
        return None;
    }
    let ghost all = texts(args@);
    let mut rest: Vec<String> = Vec::new();
    let mut i: usize = 3;
    assert(texts(rest@) =~= all.subrange(3, 3));
    while i < args.len()
        invariant
            3 <= i <= args.len(),
            all == texts(args@),
            texts(rest@) == all.subrange(3, i as int),
        decreases args.len() - i,
    {
        let ghost now = texts(rest@);
        rest.push(args[i].clone());
        proof {
            assert(texts(rest@) =~= now.push(all[i as int]));
            assert(all.subrange(3, i + 1) =~= all.subrange(3, i as int).push(all[i as int]));
        }
        i += 1;
    }
    assert(all.subrange(3, i as int) =~= all.skip(3));
    Some(Launch { target: args[1].clone(), script: args[2].clone(), args: rest })
}

// ---- laws ----

/// What stands after `--` is passed on as it is, whatever it is.
pub proof fn law_after_dashes(front: Seq<Text>, back: Seq<Text>)
    requires
        forall|i: int| 0 <= i < front.len() ==> (#[trigger] front[i]) != "--crate"@ && front[i] != "--"@,
    ensures
        sorted_args(front + seq!["--"@] + back) == (Seq::<Text>::empty(), front + back),
    decreases front.len(),
{
    reveal_strlit("--crate");
    reveal_strlit("--");
    let all = front + seq!["--"@] + back;
    if front.len() == 0 {
        assert("--"@.len() != "--crate"@.len());
        assert(all[0] == "--"@);
        assert(all.skip(1) =~= back);
        assert(front + back =~= back);
    } else {
        let rest = front.drop_first();
        assert(all[0] == front[0]);
        assert(all.skip(1) =~= rest + seq!["--"@] + back);
        assert forall|i: int| 0 <= i < rest.len() implies (#[trigger] rest[i]) != "--crate"@ && rest[i] != "--"@ by {
            assert(rest[i] == front[i + 1]);
        }
        law_after_dashes(rest, back);
        assert(seq![front[0]] + (rest + back) =~= front + back);
    }
}

} // verus!
