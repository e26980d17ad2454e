//! Log-line formatting. Every line carries an explicit correlation
//! (trace) identifier passed through the call chain, never ambient state:
//! `LEVEL tag:object(trace_id:id)`. Writing the line out is the caller's
//! business; the functions here only build it.

use vstd::prelude::*;

verus! {

/// The shape of every log line.
pub open spec fn log_line(
    level: Seq<char>,
    tag: Seq<char>,
    obj: Seq<char>,
    trace_id: Seq<char>,
) -> Seq<char> {
    level + " "@ + tag + ":"@ + obj + "(trace_id:"@ + trace_id + ")"@
}

/// Builds one log line from its rendered parts.
fn format_line(level: &str, tag: &str, obj: &str, trace_id: &str) -> (line: String)
    ensures
        line@ == log_line(level@, tag@, obj@, trace_id@),
{
    let line = String::from_str(level).concat(" ").concat(tag).concat(":").concat(obj).concat(
        "(trace_id:",
    ).concat(trace_id).concat(")");
    proof {
        assert(line@ =~= log_line(level@, tag@, obj@, trace_id@));
    }
    line
}

/// An info-level line for an object rendered by its display form.
pub fn log_info_display(tag: &str, obj: &str, trace_id: &str) -> (line: String)
    ensures
        line@ == log_line("INFO"@, tag@, obj@, trace_id@),
{
    format_line("INFO", tag, obj, trace_id)
}

/// An info-level line for an object rendered by its debug form.
pub fn log_info_debug(tag: &str, obj: &str, trace_id: &str) -> (line: String)
    ensures
        line@ == log_line("INFO"@, tag@, obj@, trace_id@),
{
    format_line("INFO", tag, obj, trace_id)
}

/// A debug-level line for an object rendered by its display form.
pub fn log_debug_display(tag: &str, obj: &str, trace_id: &str) -> (line: String)
    ensures
        line@ == log_line("DEBUG"@, tag@, obj@, trace_id@),
{
    format_line("DEBUG", tag, obj, trace_id)
}

/// A debug-level line for an object rendered by its debug form.
pub fn log_debug_debug(tag: &str, obj: &str, trace_id: &str) -> (line: String)
    ensures
        line@ == log_line("DEBUG"@, tag@, obj@, trace_id@),
{
    format_line("DEBUG", tag, obj, trace_id)
}

} // verus!
