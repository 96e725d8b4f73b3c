//! The tools that are shown to those who ask which there are.
use vstd::prelude::*;

use crate::text::same_text;

verus! {

/// Whether a tool is shown to those who ask which tools there are.
pub open spec fn advertised(name: Seq<char>) -> bool {
    ||| name == "cancel_run"@
    ||| name == "get_status"@
    ||| name == "read_output"@
    ||| name == "read_stderr"@
    ||| name == "start_run"@
}

/// Whether a tool is shown to those who ask which tools there are.
pub fn is_advertised(name: &str) -> (r: bool)
    ensures
        r == advertised(name@),
{
    same_text(name, "cancel_run") || same_text(name, "get_status") || same_text(name, "read_output")
        || same_text(name, "read_stderr") || same_text(name, "start_run")
}

/// Five tools are shown: those that start, watch, read and cancel a run.
pub proof fn five_tools_are_shown(name: Seq<char>)
    ensures
        advertised("start_run"@) && advertised("get_status"@) && advertised("read_output"@),
        advertised("read_stderr"@) && advertised("cancel_run"@),
        advertised(name) ==> name == "start_run"@ || name == "get_status"@ || name == "read_output"@
            || name == "read_stderr"@ || name == "cancel_run"@,
{
}

} // verus!
