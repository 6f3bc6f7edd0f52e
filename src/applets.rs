//! Choosing the tool that a multi-call binary runs, by the name it was
//! called under or by its first argument.
use vstd::prelude::*;
use vstd::string::StringExecFns;

verus! {

/// Decodes a stored object from standard input.
pub const EXTRACT_GIT_OBJECT: &'static str = "extract-git-object";

/// Prints the hash of a file as a stored object.
pub const HASH_GIT_OBJECT: &'static str = "hash-git-object";

/// Encodes a file as a stored object.
pub const MAKE_GIT_OBJECT: &'static str = "make-git-object";

/// Rewrites the size and hash of an index entry.
pub const PATCH_GIT_INDEX: &'static str = "patch-git-index";

/// The exit status after printing the usage.
pub const EXIT_USAGE: i32 = 127;

/// A tool that the multi-call binary runs.
#[derive(Clone, Copy, Debug, PartialEq, Eq, Structural)]
pub enum Applet {
    ExtractGitObject,
    HashGitObject,
    MakeGitObject,
}

/// The tool that runs under `name`; the index patcher is listed in the
/// usage but not run this way.
pub open spec fn applet_named(name: Seq<char>) -> Option<Applet> {
    if name == EXTRACT_GIT_OBJECT@ {
        Some(Applet::ExtractGitObject)
    } else if name == HASH_GIT_OBJECT@ {
        Some(Applet::HashGitObject)
    } else if name == MAKE_GIT_OBJECT@ {
        Some(Applet::MakeGitObject)
    } else {
        None
    }
}

/// The tool that runs under `applet_name`, if any.
pub fn try_dispatch(applet_name: &String) -> (r: Option<Applet>)
    ensures
        r == applet_named(applet_name@),
{
    if *applet_name == String::from_str(EXTRACT_GIT_OBJECT) {
        Some(Applet::ExtractGitObject)
    } else if *applet_name == String::from_str(HASH_GIT_OBJECT) {
        Some(Applet::HashGitObject)
    } else if *applet_name == String::from_str(MAKE_GIT_OBJECT) {
        Some(Applet::MakeGitObject)
    } else {
        None
    }
}

/// What the multi-call binary does with its arguments.
#[derive(Clone, Copy, Debug, PartialEq, Eq, Structural)]
pub enum Dispatch {
    /// Print the usage and exit with `EXIT_USAGE`.
    Usage,
    /// Run the tool with the arguments from position `skip` on.
    Run { applet: Applet, skip: usize },
    /// Neither the program name nor the first argument names a tool: exit 0.
    Nothing,
}

/// What the binary does: the program name is tried first, then the first
/// argument; the usage is printed when an argument to try is missing.
pub open spec fn dispatch_spec(args: Seq<Seq<char>>) -> Dispatch {
    if args.len() < 1 {
        Dispatch::Usage
    } else if let Some(a) = applet_named(args[0]) {
        Dispatch::Run { applet: a, skip: 0 }
    } else if args.len() < 2 {
        Dispatch::Usage
    } else if let Some(a) = applet_named(args[1]) {
        Dispatch::Run { applet: a, skip: 1 }
    } else {
        Dispatch::Nothing
    }
}

/// The arguments' texts.
pub open spec fn texts(args: Seq<String>) -> Seq<Seq<char>> {
    args.map_values(|a: String| a@)
}

/// Decides what the multi-call binary does with its arguments.
pub fn select_applet(args: &Vec<String>) -> (r: Dispatch)
    ensures
        r == dispatch_spec(texts(args@)),
{
    if args.len() < 1 {
        return Dispatch::Usage;
    }
    if let Some(applet) = try_dispatch(&args[0]) {
        return Dispatch::Run { applet, skip: 0 };
    }
    if args.len() < 2 {
        return Dispatch::Usage;
    }
    match try_dispatch(&args[1]) {
        Some(applet) => Dispatch::Run { applet, skip: 1 },
        None => Dispatch::Nothing,
    }
}

} // verus!
