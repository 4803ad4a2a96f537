//! The configuration resolver.
//!
//! A `Config` is built once per run from the plain argument list and
//! one environment-derived flag, and is immutable afterwards. The
//! argument list is expected in the conventional shape: the program
//! name first, then the query, then the filename. Fewer than two
//! arguments after the program name is a construction failure.

use vstd::prelude::*;

verus! {

/// The resolved, immutable parameters of one run.
///
/// `case_insensitive` is true exactly when the `CASE_INSENSITIVE`
/// environment variable was absent: presence of the variable, with any
/// value, switches the flag off. This inverted polarity is deliberate;
/// it mirrors an equally inverted dispatch in the runner, and the two
/// cancel out.
#[derive(Debug)]
pub struct Config {
    pub query: String,
    pub filename: String,
    pub case_insensitive: bool,
}

impl Config {
    /// Builds a `Config` from the argument list and the presence of the
    /// `CASE_INSENSITIVE` environment variable.
    ///
    /// Fails, with a message naming the missing arguments, exactly when
    /// the list holds fewer than two arguments after the program name;
    /// otherwise the query and filename are taken over unchanged, and
    /// `case_insensitive` is set exactly when the variable was absent.
    pub fn new(args: &Vec<String>, env_case_insensitive_set: bool) -> (r: Result<
        Config,
        &'static str,
    >)
        ensures
            r is Err <==> args@.len() < 3,
            r matches Err(m) ==> m@ == "引数の数が足りません"@,
            r matches Ok(c) ==> c.query@ == args@[1]@ && c.filename@ == args@[2]@
                && c.case_insensitive == !env_case_insensitive_set,
    {
        if args.len() < 3 {
            return Err("引数の数が足りません");
        }
        let query = args[1].clone();
        let filename = args[2].clone();
        Ok(Config { query, filename, case_insensitive: !env_case_insensitive_set })
    }
}

} // verus!
