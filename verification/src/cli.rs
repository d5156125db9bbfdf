//! The command line: `-c <path>` names the configuration file.
use vstd::prelude::*;

verus! {

/// What the command line asks for.
pub struct Args {
    pub config_path: String,
}

/// Why the command line was refused.
#[derive(Clone, Copy, PartialEq, Eq, Structural, Debug)]
pub enum ArgsError {
    /// `-c` came last, with no path after it.
    ConfigFileExpected,
    /// No `-c` was given.
    ConfigFileMissing,
}

impl ArgsError {
    pub fn message(&self) -> (res: &'static str)
        ensures
            *self == ArgsError::ConfigFileExpected ==> res@ == "config file expected"@,
            *self == ArgsError::ConfigFileMissing ==> res@ == "provide config file with '-c' option"@,
    {
        match self {
            ArgsError::ConfigFileExpected => "config file expected",
            ArgsError::ConfigFileMissing => "provide config file with '-c' option",
        }
    }
}

/// The arguments as text.
pub open spec fn texts(args: Seq<String>) -> Seq<Seq<char>> {
    Seq::new(args.len(), |i: int| args[i]@)
}

/// Reads the arguments from position `i` on, `path` being the configuration file named so
/// far: every `-c` takes the next argument as the path (the last one wins), and a `-c` with
/// nothing after it is an error.
pub open spec fn scan(args: Seq<Seq<char>>, i: int, path: Option<Seq<char>>) -> Result<Option<Seq<char>>, ArgsError>
    decreases args.len() - i,
{
    if i >= args.len() || i < 0 {
        Ok(path)
    } else if args[i] == "-c"@ {
        if i + 1 < args.len() {
            scan(args, i + 2, Some(args[i + 1]))
        } else {
            Err(ArgsError::ConfigFileExpected)
        }
    } else {
        scan(args, i + 1, path)
    }
}

/// The configuration file path that the arguments name, or why there is none.
pub open spec fn parsed_config_path(args: Seq<Seq<char>>) -> Result<Seq<char>, ArgsError> {
    match scan(args, 0, None) {
        Err(e) => Err(e),
        Ok(None) => Err(ArgsError::ConfigFileMissing),
        Ok(Some(p)) => Ok(p),
    }
}

/// Reads the command line (the program's name first, as the system passes it).
pub fn parse_args(args: &Vec<String>) -> (res: Result<Args, ArgsError>)
    ensures
        match parsed_config_path(texts(args@)) {
            Ok(p) => res matches Ok(a) && a.config_path@ == p,
            Err(e) => res == Err::<Args, ArgsError>(e),
        },
{
    let ghost a = texts(args@);
    let flag = "-c".to_owned();
    let mut config_path: Option<String> = None;
    let mut i: usize = 0;
    while i < args.len()
        invariant
            a == texts(args@),
            flag@ == "-c"@,
            0 <= i <= args@.len(),
            scan(a, i as int, match config_path {
                Some(p) => Some(p@),
                None => None,
            }) == scan(a, 0, None),
        decreases args@.len() - i,
    {
        if args[i] == flag {
            if i + 1 < args.len() {
                config_path = Some(args[i + 1].clone());
                i = i + 2;
            } else {
                return Err(ArgsError::ConfigFileExpected);
            }
        } else {
            i = i + 1;
        }
    }
    match config_path {
        Some(p) => Ok(Args { config_path: p }),
        None => Err(ArgsError::ConfigFileMissing),
    }
}

} // verus!
