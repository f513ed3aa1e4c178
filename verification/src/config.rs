//! Start-up options: where the directory to serve files from is named among
//! the program's arguments.

use itertools::Itertools;
use vstd::prelude::*;
use vstd::string::StringExecFns;

verus! {

/// What is wrong with the program's arguments.
#[derive(Clone, Copy, Debug, PartialEq, Eq, Structural)]
pub enum ConfigError {
    /// `--directory` is the last argument: the path it announces is missing.
    MissingDirectory,
}

/// Whether an argument is the option that announces the directory.
pub open spec fn spec_is_flag(arg: Seq<char>) -> bool {
    arg == "--directory"@
}

/// `i` is the index of the first argument that is the option.
pub open spec fn flag_at(args: Seq<Seq<char>>, i: int) -> bool {
    &&& 0 <= i < args.len()
    &&& spec_is_flag(args[i])
    &&& forall|j: int| 0 <= j < i ==> !spec_is_flag(#[trigger] args[j])
}

/// The texts of a list of arguments.
pub open spec fn arg_views(args: Seq<String>) -> Seq<Seq<char>> {
    Seq::new(args.len(), |i: int| args[i]@)
}

/// The directory that the arguments name: the argument behind the first
/// `--directory`. Without that option there is no directory; with the
/// option in last place the arguments are in error.
pub open spec fn spec_directory(args: Seq<Seq<char>>) -> Result<Option<Seq<char>>, ConfigError> {
    if exists|i: int| flag_at(args, i) {
        let i = choose|i: int| flag_at(args, i);
        if i + 1 < args.len() {
            Ok(Some(args[i + 1]))
        } else {
            Err(ConfigError::MissingDirectory)
        }
    } else {
        Ok(None)
    }
}

/// Whether an argument is the option that announces the directory.
pub fn is_flag(arg: &String) -> (yes: bool)
    ensures
        yes == spec_is_flag(arg@),
{
    let flag = String::from_str("--directory");
    *arg == flag
}

/// Calls `Itertools::find_position` on the arguments, with [`is_flag`] as
/// the predicate, and keeps the index of the pair it returns. Trusted:
/// `find_position` walks the items in order and returns the first one that
/// the predicate accepts, together with its index, or `None` when it
/// accepts none.
#[verifier::external_body]
fn flag_position(args: &Vec<String>) -> (found: Option<usize>)
    ensures
        match found {
            Some(i) => flag_at(arg_views(args@), i as int),
            None => forall|j: int|
                0 <= j < args@.len() ==> !spec_is_flag(#[trigger] arg_views(args@)[j]),
        },
{
    args.iter().find_position(|arg| is_flag(arg)).map(|(i, _)| i)
}

/// The directory that the arguments name.
pub fn directory_from_args(args: &Vec<String>) -> (directory: Result<Option<String>, ConfigError>)
    ensures
        match spec_directory(arg_views(args@)) {
            Ok(Some(path)) => directory matches Ok(Some(d)) && d@ == path,
            Ok(None) => directory matches Ok(None),
            Err(e) => directory matches Err(f) && f == e,
        },
{
    let ghost views = arg_views(args@);
    match flag_position(args) {
        Some(i) => {
            proof {
                let c = choose|c: int| flag_at(views, c);
                assert(flag_at(views, c));
                if c < i {
                    assert(!spec_is_flag(views[c]));
                }
                if i < c {
                    assert(!spec_is_flag(views[i as int]));
                }
            }
            let n: usize = args.len();
            if i + 1 < n {
                Ok(Some(args[i + 1].clone()))
            } else {
                Err(ConfigError::MissingDirectory)
            }
        },
        None => {
            proof {
                if exists|c: int| flag_at(views, c) {
                    let c = choose|c: int| flag_at(views, c);
                    assert(!spec_is_flag(views[c]));
                }
            }
            Ok(None)
        },
    }
}

} // verus!
