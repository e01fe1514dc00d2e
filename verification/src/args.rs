//! The command line.
use vstd::prelude::*;

verus! {

/// How the program is used.
pub const USAGE: &'static str = "\
Usage: agent-spy [OPTIONS] [DIR]

Watch DIR (default: current directory) and show each image created or modified in it.

Options:
  -e, --existing   also list the images already in DIR (least recently modified first)
  -r, --recursive  watch subdirectories too
  -h, --help       print this help

Keys:
  Left / Right     previous / next image
  Home / End       first / latest image
  Esc / q          quit
";

/// What the command line asks for.
pub struct Args {
    pub dir: String,
    pub existing: bool,
    pub recursive: bool,
}

/// What comes of the command line.
pub enum Parsed {
    /// Watch a directory.
    Run(Args),
    /// Print the usage and leave.
    Help,
    /// Print this complaint and the usage, and leave.
    UsageError(String),
}

/// What the arguments so far ask for.
pub ghost enum Request {
    Watch { dir: Option<Seq<char>>, existing: bool, recursive: bool },
    Help,
    UnknownOption(Seq<char>),
    SecondDirectory,
}

pub open spec fn asks_existing(arg: Seq<char>) -> bool {
    arg == "-e"@ || arg == "--existing"@
}

pub open spec fn asks_recursive(arg: Seq<char>) -> bool {
    arg == "-r"@ || arg == "--recursive"@
}

pub open spec fn asks_help(arg: Seq<char>) -> bool {
    arg == "-h"@ || arg == "--help"@
}

pub open spec fn is_option(arg: Seq<char>) -> bool {
    arg.len() > 0 && arg[0] == '-'
}

/// The arguments are read from left to right, up to the first that asks for help, is no known option,
/// or names a second directory.
pub open spec fn request(args: Seq<Seq<char>>) -> Request
    decreases args.len(),
{
    if args.len() == 0 {
        Request::Watch { dir: None, existing: false, recursive: false }
    } else {
        let arg = args.last();
        match request(args.drop_last()) {
            Request::Watch { dir, existing, recursive } => {
                if asks_existing(arg) {
                    Request::Watch { dir, existing: true, recursive }
                } else if asks_recursive(arg) {
                    Request::Watch { dir, existing, recursive: true }
                } else if asks_help(arg) {
                    Request::Help
                } else if is_option(arg) {
                    Request::UnknownOption(arg)
                } else if dir is Some {
                    Request::SecondDirectory
                } else {
                    Request::Watch { dir: Some(arg), existing, recursive }
                }
            },
            decided => decided,
        }
    }
}

pub open spec fn texts(args: Seq<String>) -> Seq<Seq<char>> {
    Seq::new(args.len(), |i: int| args[i]@)
}

/// `parsed` is what comes of `request`. The directory is the current one if none is named.
pub open spec fn answers(parsed: Parsed, request: Request) -> bool {
    match request {
        Request::Watch { dir, existing, recursive } => parsed matches Parsed::Run(args)
            && args.dir@ == (match dir {
            Some(dir) => dir,
            None => "."@,
        }) && args.existing == existing && args.recursive == recursive,
        Request::Help => parsed is Help,
        Request::UnknownOption(arg) => parsed matches Parsed::UsageError(message) && message@
            == "unknown option "@ + arg,
        Request::SecondDirectory => parsed matches Parsed::UsageError(message) && message@
            == "only one directory can be watched"@,
    }
}

fn is(arg: &String, text: &str) -> (r: bool)
    ensures
        r == (arg@ == text@),
{
    *arg == text.to_owned()
}

/// Once the command line has been decided on, the rest of it does not matter.
pub proof fn the_rest_does_not_matter(args: Seq<Seq<char>>, n: int)
    requires
        0 <= n <= args.len(),
        request(args.take(n)) !is Watch,
    ensures
        request(args) == request(args.take(n)),
    decreases args.len() - n,
{
    if n < args.len() {
        assert(args.take(n + 1).drop_last() =~= args.take(n));
        the_rest_does_not_matter(args, n + 1);
    } else {
        assert(args.take(n) =~= args);
    }
}

/// Reads the arguments of the program, without its name.
pub fn parse_args(args: &Vec<String>) -> (r: Parsed)
    ensures
        answers(r, request(texts(args@))),
{
    let ghost all = texts(args@);
    let mut dir: Option<String> = None;
    let mut existing = false;
    let mut recursive = false;
    let mut i: usize = 0;
    assert(all.take(0) =~= Seq::empty());
    while i < args.len()
        invariant
            i <= args@.len(),
            all == texts(args@),
            request(all.take(i as int)) == (Request::Watch {
                dir: match dir {
                    Some(dir) => Some(dir@),
                    None => None,
                },
                existing,
                recursive,
            }),
        decreases args@.len() - i,
    {
        let arg = &args[i];
        proof {
            assert(all.take(i + 1).drop_last() =~= all.take(i as int));
            assert(all.take(i + 1).last() == arg@);
            if request(all.take(i + 1)) !is Watch {
                the_rest_does_not_matter(all, i + 1);
            }
        }
        if is(arg, "-e") || is(arg, "--existing") {
            existing = true;
        } else if is(arg, "-r") || is(arg, "--recursive") {
            recursive = true;
        } else if is(arg, "-h") || is(arg, "--help") {
            return Parsed::Help;
        } else if arg.as_str().unicode_len() > 0 && arg.as_str().get_char(0) == '-' {
            let mut message = "unknown option ".to_owned();
            message.append(arg.as_str());
            return Parsed::UsageError(message);
        } else if dir.is_some() {
            return Parsed::UsageError("only one directory can be watched".to_owned());
        } else {
            dir = Some(arg.clone());
        }
        i = i + 1;
    }
    assert(all.take(i as int) =~= all);
    let dir = match dir {
        Some(dir) => dir,
        None => ".".to_owned(),
    };
    Parsed::Run(Args { dir, existing, recursive })
}

/// What a command line that is accepted means: each option is on if it is there in either form, and
/// the directory is the one argument that is no option.
pub proof fn accepted_arguments(args: Seq<Seq<char>>)
    requires
        request(args) is Watch,
    ensures
        ({
            let r = request(args);
            &&& r->existing <==> exists|i: int|
                0 <= i < args.len() && asks_existing(#[trigger] args[i])
            &&& r->recursive <==> exists|i: int|
                0 <= i < args.len() && asks_recursive(#[trigger] args[i])
            &&& match r->dir {
                Some(dir) => exists|i: int|
                    {
                        &&& 0 <= i < args.len()
                        &&& #[trigger] args[i] == dir
                        &&& !is_option(dir)
                        &&& forall|j: int|
                            0 <= j < args.len() && j != i ==> is_option(#[trigger] args[j])
                    },
                None => forall|j: int| 0 <= j < args.len() ==> is_option(#[trigger] args[j]),
            }
        }),
    decreases args.len(),
{
    reveal_strlit("-e");
    reveal_strlit("--existing");
    reveal_strlit("-r");
    reveal_strlit("--recursive");
    assert("-e"@[1] == 'e' && "-r"@[1] == 'r');
    assert("--existing"@[2] == 'e' && "--recursive"@[2] == 'r');
    if args.len() > 0 {
        let init = args.drop_last();
        let last: int = args.len() - 1;
        accepted_arguments(init);
        assert forall|j: int| 0 <= j < last implies init[j] == args[j] by {}
        let before = request(init);
        let r = request(args);
        if before->existing {
            let i: int = choose|i: int| 0 <= i < init.len() && asks_existing(#[trigger] init[i]);
            assert(asks_existing(args[i]));
        }
        if before->recursive {
            let i: int = choose|i: int| 0 <= i < init.len() && asks_recursive(#[trigger] init[i]);
            assert(asks_recursive(args[i]));
        }
        if asks_existing(args.last()) || asks_recursive(args.last()) {
            assert(is_option(args[last]));
        }
        if asks_existing(args.last()) {
            assert(asks_existing(args[last]));
        }
        if asks_recursive(args.last()) {
            assert(asks_recursive(args[last]));
        }
        if exists|i: int| 0 <= i < args.len() && asks_existing(#[trigger] args[i]) {
            let i: int = choose|i: int| 0 <= i < args.len() && asks_existing(#[trigger] args[i]);
            if i < last {
                assert(asks_existing(init[i]));
            }
        }
        if exists|i: int| 0 <= i < args.len() && asks_recursive(#[trigger] args[i]) {
            let i: int = choose|i: int| 0 <= i < args.len() && asks_recursive(#[trigger] args[i]);
            if i < last {
                assert(asks_recursive(init[i]));
            }
        }
        match before->dir {
            Some(dir) => {
                let i: int = choose|i: int|
                    {
                        &&& 0 <= i < init.len()
                        &&& #[trigger] init[i] == dir
                        &&& !is_option(dir)
                        &&& forall|j: int|
                            0 <= j < init.len() && j != i ==> is_option(#[trigger] init[j])
                    };
                assert(args[i] == dir);
                assert forall|j: int| 0 <= j < args.len() && j != i implies is_option(
                    #[trigger] args[j],
                ) by {
                    if j < last {
                        assert(is_option(init[j]));
                    }
                }
            },
            None => {
                assert forall|j: int| 0 <= j < last implies is_option(#[trigger] args[j]) by {
                    assert(is_option(init[j]));
                }
                if r->dir is Some {
                    assert(args[last] == r->dir->0);
                }
            },
        }
    }
}

/// An option that does not end the program.
pub open spec fn is_harmless(arg: Seq<char>) -> bool {
    arg == "-e"@ || arg == "--existing"@ || arg == "-r"@ || arg == "--recursive"@
}

/// An argument that names a directory: one that does not start with a dash.
pub open spec fn names_directory(arg: Seq<char>) -> bool {
    arg.len() == 0 || arg[0] != '-'
}

/// All arguments are known options, but for one directory at most.
pub open spec fn is_acceptable(args: Seq<Seq<char>>) -> bool {
    &&& forall|i: int|
        0 <= i < args.len() ==> is_harmless(#[trigger] args[i]) || names_directory(args[i])
    &&& forall|i: int, j: int|
        0 <= i < j < args.len() ==> !(names_directory(#[trigger] args[i]) && names_directory(
            #[trigger] args[j],
        ))
}

proof fn lemma_options()
    ensures
        !names_directory("-e"@),
        !names_directory("--existing"@),
        !names_directory("-r"@),
        !names_directory("--recursive"@),
        !names_directory("-h"@),
        !names_directory("--help"@),
        !is_harmless("-h"@),
        !is_harmless("--help"@),
{
    reveal_strlit("-e");
    reveal_strlit("--existing");
    reveal_strlit("-r");
    reveal_strlit("--recursive");
    reveal_strlit("-h");
    reveal_strlit("--help");
    assert("-e"@[1] == 'e' && "-r"@[1] == 'r' && "-h"@[1] == 'h');
    assert("--help"@[2] == 'h' && "--existing"@[2] == 'e' && "--recursive"@[2] == 'r');
}

/// The program runs if and only if all arguments are known options, but for one directory at most.
pub proof fn what_is_accepted(args: Seq<Seq<char>>)
    ensures
        request(args) is Watch <==> is_acceptable(args),
    decreases args.len(),
{
    lemma_options();
    if args.len() > 0 {
        let init = args.drop_last();
        let last: int = args.len() - 1;
        what_is_accepted(init);
        assert forall|i: int| 0 <= i < last implies init[i] == args[i] by {}
        assert(args.last() == args[last]);
        if is_acceptable(args) {
            assert(is_acceptable(init)) by {
                assert forall|i: int| 0 <= i < init.len() implies is_harmless(#[trigger] init[i])
                    || names_directory(init[i]) by {
                    assert(is_harmless(args[i]) || names_directory(args[i]));
                }
                assert forall|i: int, j: int| 0 <= i < j < init.len() implies !(names_directory(
                    #[trigger] init[i],
                ) && names_directory(#[trigger] init[j])) by {
                    assert(!(names_directory(args[i]) && names_directory(args[j])));
                }
            }
            assert(is_harmless(args[last]) || names_directory(args[last]));
            accepted_arguments(init);
            if names_directory(args[last]) && request(init)->dir is Some {
                let dir = request(init)->dir->0;
                let i: int = choose|i: int|
                    {
                        &&& 0 <= i < init.len()
                        &&& #[trigger] init[i] == dir
                        &&& !is_option(dir)
                        &&& forall|j: int|
                            0 <= j < init.len() && j != i ==> is_option(#[trigger] init[j])
                    };
                assert(names_directory(args[i]) && names_directory(args[last]));
            }
        }
        if request(args) is Watch {
            accepted_arguments(args);
            accepted_arguments(init);
            assert(is_acceptable(init));
            assert(is_harmless(args[last]) || names_directory(args[last]));
            assert forall|i: int| 0 <= i < args.len() implies is_harmless(#[trigger] args[i])
                || names_directory(args[i]) by {
                if i < last {
                    assert(is_harmless(init[i]) || names_directory(init[i]));
                }
            }
            assert forall|i: int, j: int| 0 <= i < j < args.len() implies !(names_directory(
                #[trigger] args[i],
            ) && names_directory(#[trigger] args[j])) by {
                if names_directory(args[i]) && names_directory(args[j]) {
                    assert(!is_option(args[i]) && !is_option(args[j]));
                }
            }
        }
    }
}

/// What an accepted command line asks for: existing images and subdirectories if an argument says so, in
/// either form, and the directory that is named, or the current one.
pub proof fn accepted_command_lines_run(args: Seq<Seq<char>>, parsed: Parsed)
    requires
        answers(parsed, request(args)),
        is_acceptable(args),
    ensures
        ({
            &&& parsed is Run
            &&& parsed->Run_0.existing <==> args.contains("-e"@) || args.contains("--existing"@)
            &&& parsed->Run_0.recursive <==> args.contains("-r"@) || args.contains("--recursive"@)
            &&& forall|i: int|
                0 <= i < args.len() && names_directory(#[trigger] args[i]) ==> parsed->Run_0.dir@
                    == args[i]
            &&& (forall|i: int| 0 <= i < args.len() ==> !names_directory(#[trigger] args[i]))
                ==> parsed->Run_0.dir@ == "."@
        }),
{
    lemma_options();
    what_is_accepted(args);
    accepted_arguments(args);
    let r = request(args);
    if r->existing {
        let i: int = choose|i: int| 0 <= i < args.len() && asks_existing(#[trigger] args[i]);
        assert(args.contains(args[i]));
    }
    if r->recursive {
        let i: int = choose|i: int| 0 <= i < args.len() && asks_recursive(#[trigger] args[i]);
        assert(args.contains(args[i]));
    }
    assert forall|text: Seq<char>| #[trigger] args.contains(text) implies exists|i: int|
        0 <= i < args.len() && #[trigger] args[i] == text by {}
    if args.contains("-e"@) || args.contains("--existing"@) {
        let i: int = choose|i: int|
            0 <= i < args.len() && (#[trigger] args[i] == "-e"@ || args[i] == "--existing"@);
        assert(asks_existing(args[i]));
    }
    if args.contains("-r"@) || args.contains("--recursive"@) {
        let i: int = choose|i: int|
            0 <= i < args.len() && (#[trigger] args[i] == "-r"@ || args[i] == "--recursive"@);
        assert(asks_recursive(args[i]));
    }
    assert forall|i: int| 0 <= i < args.len() && names_directory(#[trigger] args[i]) implies
        parsed->Run_0.dir@ == args[i] by {
        assert(!is_option(args[i]));
    }
    if forall|i: int| 0 <= i < args.len() ==> !names_directory(#[trigger] args[i]) {
        if r->dir is Some {
            let dir = r->dir->0;
            let i: int = choose|i: int|
                0 <= i < args.len() && #[trigger] args[i] == dir && !is_option(dir);
            assert(!names_directory(args[i]));
        }
    }
}

/// The first argument that makes a command line unacceptable decides what becomes of it: help is given
/// if it asks for that, and else it is complained about, as an option that is not known or as a second
/// directory.
pub proof fn first_unacceptable_argument_decides(args: Seq<Seq<char>>, n: int, parsed: Parsed)
    requires
        answers(parsed, request(args)),
        0 <= n < args.len(),
        is_acceptable(args.take(n)),
        !is_acceptable(args.take(n + 1)),
    ensures
        args[n] == "-h"@ || args[n] == "--help"@ ==> parsed is Help,
        args[n] != "-h"@ && args[n] != "--help"@ && !names_directory(args[n]) ==> (
        parsed matches Parsed::UsageError(message) && message@ == "unknown option "@ + args[n]),
        names_directory(args[n]) ==> (parsed matches Parsed::UsageError(message) && message@
            == "only one directory can be watched"@),
{
    lemma_options();
    what_is_accepted(args.take(n));
    what_is_accepted(args.take(n + 1));
    assert(args.take(n + 1).drop_last() =~= args.take(n));
    assert(args.take(n + 1).last() == args[n]);
    the_rest_does_not_matter(args, n + 1);
}

/// The arguments are taken as they are.
pub proof fn arguments_are_taken_as_they_are(args: Seq<String>)
    ensures
        texts(args).len() == args.len(),
        forall|i: int| 0 <= i < args.len() ==> #[trigger] texts(args)[i] == args[i]@,
{
}

} // verus!
