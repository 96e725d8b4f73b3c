//! Which names a task can have.
use vstd::prelude::*;
use vstd::string::*;

use crate::error::{Error, Refusal, ToolError};
use crate::text::same_text;

verus! {

/// The characters of task names: ASCII letters and digits, `.`, `_` and `-`.
pub open spec fn name_char(c: char) -> bool {
    ||| 'a' <= c <= 'z'
    ||| 'A' <= c <= 'Z'
    ||| '0' <= c <= '9'
    ||| c == '.'
    ||| c == '_'
    ||| c == '-'
}

/// Whether a name holds characters of task names alone.
pub open spec fn name_chars_only(name: Seq<char>) -> bool {
    forall|i: int| 0 <= i < name.len() ==> name_char(#[trigger] name[i])
}

/// Whether a task can have this name: files are named after it.
pub open spec fn valid_task_name(name: Seq<char>) -> bool {
    &&& name.len() > 0
    &&& name_chars_only(name)
    &&& name != "."@
    &&& name != ".."@
}

/// Whether the error is the one that an unfit name is refused with.
pub open spec fn name_refusal(name: Seq<char>, e: Error) -> bool {
    if name.len() == 0 {
        e is EmptyTaskName
    } else if !name_chars_only(name) {
        e matches Error::InvalidTaskName { name: n } && n@ == name
    } else {
        e matches Error::ReservedTaskName { name: n } && n@ == name
    }
}

/// Checks that a task can have this name.
pub fn validate_task_name(name: &str) -> (r: Result<(), Error>)
    ensures
        match r {
            Ok(()) => valid_task_name(name@),
            Err(e) => !valid_task_name(name@) && name_refusal(name@, e),
        },
{
    if name.is_empty() {
        return Err(Error::EmptyTaskName);
    }
    let mut valid = true;
    for c in it: name.chars()
        invariant
            it.seq() == name@,
            valid == forall|i: int| 0 <= i < it.index() ==> name_char(#[trigger] name@[i]),
    {
        let fits = ('a' <= c && c <= 'z') || ('A' <= c && c <= 'Z') || ('0' <= c && c <= '9') || c
            == '.' || c == '_' || c == '-';
        if !fits {
            valid = false;
            assert(!name_char(name@[it.index() as int]));
        }
    }
    if !valid {
        return Err(Error::InvalidTaskName { name: name.to_owned() });
    }
    if same_text(name, ".") || same_text(name, "..") {
        return Err(Error::ReservedTaskName { name: name.to_owned() });
    }
    Ok(())
}

/// Whether a name is refused, and with these words.
pub open spec fn name_refused(name: Seq<char>, refusal: Refusal) -> bool {
    !valid_task_name(name) && exists|why: Error| #[trigger]
        name_refusal(name, why) && refusal == Refusal::InvalidParams(why.text())
}

/// Refuses a name that no task can have.
pub fn check_task_name(name: &str) -> (r: Result<(), ToolError>)
    ensures
        match r {
            Ok(()) => valid_task_name(name@),
            Err(e) => name_refused(name@, e@),
        },
{
    match validate_task_name(name) {
        Ok(()) => Ok(()),
        Err(e) => Err(ToolError::invalid(&e)),
    }
}

/// A task name is made of ASCII letters and digits, dots, underscores and hyphens, by their code
/// points; no path separator, space or control character is among them.
pub proof fn names_are_made_of_few_characters(c: char)
    ensures
        name_char(c) <==> {
            ||| 48 <= c as u32 <= 57
            ||| 65 <= c as u32 <= 90
            ||| 97 <= c as u32 <= 122
            ||| c as u32 == 45
            ||| c as u32 == 46
            ||| c as u32 == 95
        },
        !name_char('/') && !name_char('\\') && !name_char(' ') && !name_char('\n'),
{
}

/// A name is fit just where it is not empty, each of its characters is one of task names, and it is
/// not one dot or two dots.
pub proof fn fit_names_are_file_stems(name: Seq<char>)
    ensures
        valid_task_name(name) <==> {
            &&& name.len() > 0
            &&& forall|i: int| 0 <= i < name.len() ==> name_char(#[trigger] name[i])
            &&& !(name.len() == 1 && name[0] == '.')
            &&& !(name.len() == 2 && name[0] == '.' && name[1] == '.')
        },
{
    reveal_strlit(".");
    reveal_strlit("..");
    if name.len() == 1 && name[0] == '.' {
        assert(name =~= "."@);
    }
    if name.len() == 2 && name[0] == '.' && name[1] == '.' {
        assert(name =~= ".."@);
    }
}

/// An unfit name is refused with what is wrong with it, and named where there is a name.
pub proof fn unfit_names_are_refused_for_what_they_are(name: Seq<char>, e: Error)
    requires
        !valid_task_name(name),
        name_refusal(name, e),
    ensures
        name.len() == 0 <==> e is EmptyTaskName,
        e matches Error::InvalidTaskName { name: n } ==> n@ == name && exists|i: int|
            0 <= i < name.len() && !name_char(#[trigger] name[i]),
        e matches Error::ReservedTaskName { name: n } ==> n@ == name && (name == "."@ || name
            == ".."@),
        e is EmptyTaskName || e is InvalidTaskName || e is ReservedTaskName,
{
}

/// A refused name is the caller's fault.
pub proof fn refused_names_are_invalid(name: Seq<char>, refusal: Refusal)
    requires
        name_refused(name, refusal),
    ensures
        !valid_task_name(name),
        refusal is InvalidParams,
        name.len() == 0 ==> refusal == Refusal::InvalidParams("task name cannot be empty"@),
{
}

} // verus!
