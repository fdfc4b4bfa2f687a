//! Which databases a run reads: the patterns given on the command line,
//! or the one pattern under the user's data directory.

use vstd::prelude::*;
use vstd::string::*;

verus! {

/// The pattern that matches the databases under a data directory: the
/// current database and the copies that stand beside it.
pub open spec fn default_pattern(data_home: Seq<char>) -> Seq<char> {
    data_home + "/hamster-applet/hamster.db*"@
}

/// The patterns of the databases to read. Patterns that were given are
/// taken as they are. Where none was given, the one default pattern under
/// `data_home` is taken; and where that directory is not known either,
/// there is nothing to read from: `None`.
pub fn get_db_paths(patterns: Vec<String>, data_home: Option<String>) -> (r: Option<Vec<String>>)
    ensures
        patterns@.len() > 0 ==> r == Some(patterns),
        patterns@.len() == 0 && data_home is None ==> r is None,
        patterns@.len() == 0 && data_home is Some ==> {
            &&& r matches Some(paths)
            &&& paths@.len() == 1
            &&& paths@[0]@ == default_pattern(data_home->0@)
        },
{
    if patterns.len() > 0 {
        Some(patterns)
    } else {
        match data_home {
            Some(home) => {
                let mut pattern = home;
                pattern.append("/hamster-applet/hamster.db*");
                let mut paths: Vec<String> = Vec::new();
                paths.push(pattern);
                Some(paths)
            },
            None => None,
        }
    }
}

} // verus!
