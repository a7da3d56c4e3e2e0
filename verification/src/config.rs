//! What a run is configured with.

use vstd::prelude::*;
use vstd::string::StringExecFns;
use crate::error::MrgError;

verus! {

/// The arguments of a run: the names of the fields that hold a key in
/// milliseconds since the epoch, the names of the fields that hold a key as
/// a date and time, and the paths of the files to merge.
pub struct Arguments {
    pub ts_keys: Vec<String>,
    pub dt_keys: Vec<String>,
    pub paths: Vec<String>,
}

/// The message for the first of the three lists that is missing, in the
/// order keys, date and time keys, files; none where all three are there.
pub open spec fn missing_part(
    ts_keys: Option<Vec<String>>,
    dt_keys: Option<Vec<String>>,
    paths: Option<Vec<String>>,
) -> Option<Seq<char>> {
    if ts_keys is None {
        Some("no 'keys' are provided"@)
    } else if dt_keys is None {
        Some("no 'datetime-keys' are provided"@)
    } else if paths is None {
        Some("no 'files' provided"@)
    } else {
        None
    }
}

impl Arguments {
    /// The arguments made of the three lists that the command line gave,
    /// each absent where the command line gave none; an error that names the
    /// first absent one.
    pub fn assemble(
        ts_keys: Option<Vec<String>>,
        dt_keys: Option<Vec<String>>,
        paths: Option<Vec<String>>,
    ) -> (r: Result<Arguments, MrgError>)
        ensures
            match r {
                Ok(arguments) => {
                    &&& missing_part(ts_keys, dt_keys, paths) is None
                    &&& Some(arguments.ts_keys) == ts_keys
                    &&& Some(arguments.dt_keys) == dt_keys
                    &&& Some(arguments.paths) == paths
                },
                Err(failure) => missing_part(ts_keys, dt_keys, paths) == Some(failure.msg@),
            },
    {
        let ts_keys = match ts_keys {
            Some(names) => names,
            None => {
                return Err(MrgError { msg: String::from_str("no 'keys' are provided") });
            },
        };
        let dt_keys = match dt_keys {
            Some(names) => names,
            None => {
                return Err(MrgError { msg: String::from_str("no 'datetime-keys' are provided") });
            },
        };
        let paths = match paths {
            Some(paths) => paths,
            None => {
                return Err(MrgError { msg: String::from_str("no 'files' provided") });
            },
        };
        Ok(Arguments { ts_keys, dt_keys, paths })
    }
}

} // verus!
