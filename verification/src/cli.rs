use vstd::prelude::*;

use crate::utils::eq_ignore_case;
use crate::utils::eq_ignore_ascii_case_str;

verus! {

/// A log level name is accepted up to ASCII case.
pub open spec fn valid_log_level(s: Seq<char>) -> bool {
    ||| eq_ignore_case(s, "error"@)
    ||| eq_ignore_case(s, "warn"@)
    ||| eq_ignore_case(s, "info"@)
    ||| eq_ignore_case(s, "debug"@)
    ||| eq_ignore_case(s, "trace"@)
}

/// Accepts one of the five log level names, in any ASCII case, and
/// hands it back unchanged; rejects anything else.
pub fn parse_log_level(s: &str) -> (r: Result<String, String>)
    ensures
        r is Ok <==> valid_log_level(s@),
        r matches Ok(v) ==> v@ == s@,
{
    let ok = eq_ignore_ascii_case_str(s, "error") || eq_ignore_ascii_case_str(s, "warn")
        || eq_ignore_ascii_case_str(s, "info") || eq_ignore_ascii_case_str(s, "debug")
        || eq_ignore_ascii_case_str(s, "trace");
    if ok {
        Ok(s.to_owned())
    } else {
        Err(String::from_str("Log level must be one of: error, warn, info, debug, trace"))
    }
}

/// The command line of the tool.
pub struct Cli {
    pub name: Option<String>,
    pub log_level: Option<String>,
    pub command: Option<Commands>,
}

/// The subcommands of the tool.
pub enum Commands {
    Fame(FameCommand),
    Bydate(ByDateCommand),
    Byfile(ByFileCommand),
    Effort(EffortCommand),
}

/// Arguments of the fame subcommand.
pub struct FameCommand {
    pub name: Option<String>,
    pub sort: Option<String>,
    pub start_days_back: Option<u32>,
    pub end_days_back: Option<u32>,
    pub includes: Option<String>,
    pub excludes: Option<String>,
}

/// Arguments of the by-date subcommand.
pub struct ByDateCommand {
    pub name: Option<String>,
    pub start_days_back: Option<u32>,
    pub end_days_back: Option<u32>,
    pub file: Option<String>,
    pub ignore_weekends: bool,
    pub ignore_gap_fill: bool,
}

/// Arguments of the by-file subcommand.
pub struct ByFileCommand {
    pub name: Option<String>,
    pub in_file: Option<String>,
    pub file: Option<String>,
    pub restrict_author: Option<String>,
}

/// Arguments of the effort subcommand.
pub struct EffortCommand {
    pub name: Option<String>,
    pub start_days_back: Option<u32>,
    pub end_days_back: Option<u32>,
    pub table: bool,
    pub includes: Option<String>,
    pub excludes: Option<String>,
}

} // verus!
