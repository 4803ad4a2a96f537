//! The runner's decision: which matcher a `Config` selects.
//!
//! The branch is deliberately inverted with respect to the flag's name:
//! `case_insensitive == true` routes to the case-sensitive `search`,
//! and `false` to `search_case_insensitive`. Together with the inverted
//! polarity of the flag itself (see `Config`) the net behaviour is the
//! conventional one: with `CASE_INSENSITIVE` absent the search is
//! case-sensitive, with it present the search ignores case.

use vstd::prelude::*;

use crate::config::Config;
use crate::matcher::{search, search_case_insensitive, search_ci_spec, search_spec, views_of};

verus! {

/// The lines of `content` that the run configured by `config` prints,
/// in order: the case-sensitive matches of the query when
/// `config.case_insensitive` holds, the case-insensitive matches
/// otherwise.
pub fn matching_lines<'a>(config: &Config, content: &'a str) -> (r: Vec<&'a str>)
    ensures
        config.case_insensitive ==> views_of(r@) == search_spec(config.query@, content@),
        !config.case_insensitive ==> views_of(r@) == search_ci_spec(config.query@, content@),
{
    if config.case_insensitive {
        search(config.query.as_str(), content)
    } else {
        search_case_insensitive(config.query.as_str(), content)
    }
}

} // verus!
