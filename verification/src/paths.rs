//! Where the files of a run are, and what they are called.
use vstd::prelude::*;
use vstd::string::*;

use crate::commands::names::{name_char, valid_task_name};
use crate::text::{contains_text, endings_stand_last, ends_with_text, has_part, has_suffix};

verus! {

/// The path of something below a directory; one that is absolute stays as it is.
pub open spec fn below(dir: Seq<char>, child: Seq<char>) -> Seq<char> {
    if dir.len() == 0 || (child.len() > 0 && child[0] == '/') {
        child
    } else if dir.last() == '/' {
        dir + child
    } else {
        dir + "/"@ + child
    }
}

/// The path of `child` below the directory `dir`.
pub fn join_path(dir: &str, child: &str) -> (r: String)
    ensures
        r@ == below(dir@, child@),
{
    let n = dir.unicode_len();
    if n == 0 || (child.unicode_len() > 0 && child.get_char(0) == '/') {
        return child.to_owned();
    }
    let mut out = dir.to_owned();
    if dir.get_char(n - 1) != '/' {
        out.append("/");
    }
    out.append(child);
    out
}

/// The name of the file that holds a task's live status.
pub open spec fn meta_file(name: Seq<char>) -> Seq<char> {
    name + ".meta.json"@
}

/// The name under which a status file is written before it takes its place.
pub open spec fn meta_tmp_file(name: Seq<char>) -> Seq<char> {
    name + ".meta.json.tmp"@
}

/// The name of the file that holds a task's events.
pub open spec fn event_file(name: Seq<char>) -> Seq<char> {
    name + ".jsonl"@
}

/// The name of the file that holds what a task wrote to its standard error.
pub open spec fn stderr_file(name: Seq<char>) -> Seq<char> {
    name + ".stderr.log"@
}

/// The name of the file that holds a task's result.
pub open spec fn output_file(name: Seq<char>) -> Seq<char> {
    name + ".md"@
}

fn with_suffix(name: &str, suffix: &str) -> (r: String)
    ensures
        r@ == name@ + suffix@,
{
    let mut out = name.to_owned();
    out.append(suffix);
    out
}

/// The name of the file that holds a task's live status.
pub fn meta_file_name(name: &str) -> (r: String)
    ensures
        r@ == meta_file(name@),
{
    with_suffix(name, ".meta.json")
}

/// The name under which a status file is written before it takes its place.
pub fn meta_tmp_file_name(name: &str) -> (r: String)
    ensures
        r@ == meta_tmp_file(name@),
{
    with_suffix(name, ".meta.json.tmp")
}

/// The name of the file that holds a task's events.
pub fn event_file_name(name: &str) -> (r: String)
    ensures
        r@ == event_file(name@),
{
    with_suffix(name, ".jsonl")
}

/// The name of the file that holds what a task wrote to its standard error.
pub fn stderr_file_name(name: &str) -> (r: String)
    ensures
        r@ == stderr_file(name@),
{
    with_suffix(name, ".stderr.log")
}

/// The name of the file that holds a task's result.
pub fn output_file_name(name: &str) -> (r: String)
    ensures
        r@ == output_file(name@),
{
    with_suffix(name, ".md")
}

/// Whether a file of the log directory holds the status of a task.
pub open spec fn status_file(file_name: Seq<char>) -> bool {
    has_suffix(file_name, ".meta.json"@) && !has_suffix(file_name, ".meta.json.tmp"@)
}

/// Whether a file of the log directory holds the status of a task.
pub fn is_status_file(file_name: &str) -> (r: bool)
    ensures
        r == status_file(file_name@),
{
    ends_with_text(file_name, ".meta.json") && !ends_with_text(file_name, ".meta.json.tmp")
}

/// Whether a file name has the extension: a dot and the extension behind something else.
pub open spec fn has_extension(file_name: Seq<char>, dot_extension: Seq<char>) -> bool {
    has_suffix(file_name, dot_extension) && file_name.len() > dot_extension.len()
}

/// Whether the dashboard reads the file: a JSON file with `.meta.` somewhere on its path.
pub open spec fn dashboard_file(path: Seq<char>, file_name: Seq<char>) -> bool {
    has_extension(file_name, ".json"@) && has_part(path, ".meta."@)
}

/// Whether the dashboard reads the file.
pub fn is_dashboard_file(path: &str, file_name: &str) -> (r: bool)
    ensures
        r == dashboard_file(path@, file_name@),
{
    proof {
        reveal_strlit(".json");
    }
    ends_with_text(file_name, ".json") && file_name.unicode_len() > 5 && contains_text(
        path,
        ".meta.",
    )
}

/// Whether a file of the message directory holds messages.
pub open spec fn mailbox_file(file_name: Seq<char>) -> bool {
    has_extension(file_name, ".jsonl"@)
}

/// Whether a file of the message directory holds messages.
pub fn is_mailbox_file(file_name: &str) -> (r: bool)
    ensures
        r == mailbox_file(file_name@),
{
    proof {
        reveal_strlit(".jsonl");
    }
    ends_with_text(file_name, ".jsonl") && file_name.unicode_len() > 6
}

/// A reader of the log directory takes up a status file once it is in place, and never while
/// it is being written.
pub proof fn only_finished_status_files_are_read(name: Seq<char>)
    ensures
        status_file(meta_file(name)),
        !status_file(meta_tmp_file(name)),
        forall|dir: Seq<char>|
            !#[trigger] dashboard_file(below(dir, meta_tmp_file(name)), meta_tmp_file(name)),
{
    reveal_strlit(".meta.json");
    reveal_strlit(".meta.json.tmp");
    reveal_strlit(".json");
    let done = meta_file(name);
    let tmp = meta_tmp_file(name);
    assert(done.skip(done.len() - 10) =~= ".meta.json"@);
    assert(done.last() == 'n');
    assert(".meta.json.tmp"@.last() == 'p');
    if has_suffix(done, ".meta.json.tmp"@) {
        assert(done.skip(done.len() - 14).last() == done.last());
    }
    assert(tmp.last() == 'p');
    assert(".meta.json"@.last() == 'n');
    if has_suffix(tmp, ".meta.json"@) {
        assert(tmp.skip(tmp.len() - 10).last() == tmp.last());
    }
    assert(".json"@.last() == 'n');
    if has_suffix(tmp, ".json"@) {
        assert(tmp.skip(tmp.len() - 5).last() == tmp.last());
    }
}

/// The files of differently named tasks have different names.
pub proof fn tasks_do_not_share_files(a: Seq<char>, b: Seq<char>)
    requires
        a != b,
    ensures
        meta_file(a) != meta_file(b),
        meta_tmp_file(a) != meta_tmp_file(b),
        event_file(a) != event_file(b),
        stderr_file(a) != stderr_file(b),
        output_file(a) != output_file(b),
{
    lemma_same_suffix(a, b, ".meta.json"@);
    lemma_same_suffix(a, b, ".meta.json.tmp"@);
    lemma_same_suffix(a, b, ".jsonl"@);
    lemma_same_suffix(a, b, ".stderr.log"@);
    lemma_same_suffix(a, b, ".md"@);
}

proof fn lemma_same_suffix(a: Seq<char>, b: Seq<char>, suffix: Seq<char>)
    ensures
        a + suffix == b + suffix ==> a == b,
{
    if a + suffix == b + suffix {
        assert((a + suffix).len() == (b + suffix).len());
        assert((a + suffix).take(a.len() as int) =~= a);
        assert((b + suffix).take(b.len() as int) =~= b);
    }
}

/// The files of a task with a fit name stay in the directory that they are written to.
pub proof fn task_files_stay_in_their_directory(name: Seq<char>, i: int)
    requires
        valid_task_name(name),
    ensures
        0 <= i < meta_file(name).len() ==> meta_file(name)[i] != '/',
        0 <= i < meta_tmp_file(name).len() ==> meta_tmp_file(name)[i] != '/',
        0 <= i < event_file(name).len() ==> event_file(name)[i] != '/',
        0 <= i < stderr_file(name).len() ==> stderr_file(name)[i] != '/',
        0 <= i < output_file(name).len() ==> output_file(name)[i] != '/',
{
    reveal_strlit(".meta.json");
    reveal_strlit(".meta.json.tmp");
    reveal_strlit(".jsonl");
    reveal_strlit(".stderr.log");
    reveal_strlit(".md");
    if 0 <= i < name.len() {
        assert(name_char(name[i]));
    }
}

/// The path of something below a directory starts with the directory and ends with it, with one
/// slash between them that the directory may bring along.
pub proof fn paths_lead_through_their_directory(dir: Seq<char>, child: Seq<char>)
    requires
        dir.len() > 0,
        child.len() == 0 || child[0] != '/',
    ensures
        below(dir, child).take(dir.len() as int) == dir,
        has_suffix(below(dir, child), child),
        below(dir, child).len() > child.len(),
        below(dir, child)[below(dir, child).len() - child.len() - 1] == '/',
        below(dir, child).len() == dir.len() + child.len() + if dir.last() == '/' {
            0nat
        } else {
            1nat
        },
{
    reveal_strlit("/");
    let path = below(dir, child);
    assert(path.take(dir.len() as int) =~= dir);
    assert(path.skip(path.len() - child.len()) =~= child);
}

/// What is absolute stays as it is, and so does what is below no directory.
pub proof fn absolute_paths_stay(dir: Seq<char>, child: Seq<char>)
    ensures
        child.len() > 0 && child[0] == '/' ==> below(dir, child) == child,
        below(Seq::empty(), child) == child,
{
}

/// The files of a task start with its name, and go on with what tells which file it is.
pub proof fn task_files_are_named_after_the_task(name: Seq<char>)
    ensures
        meta_file(name).take(name.len() as int) == name,
        meta_file(name).skip(name.len() as int) == ".meta.json"@,
        meta_tmp_file(name).take(name.len() as int) == name,
        meta_tmp_file(name).skip(name.len() as int) == ".meta.json.tmp"@,
        event_file(name).take(name.len() as int) == name,
        event_file(name).skip(name.len() as int) == ".jsonl"@,
        stderr_file(name).take(name.len() as int) == name,
        stderr_file(name).skip(name.len() as int) == ".stderr.log"@,
        output_file(name).take(name.len() as int) == name,
        output_file(name).skip(name.len() as int) == ".md"@,
{
    assert(meta_file(name).take(name.len() as int) =~= name);
    assert(meta_file(name).skip(name.len() as int) =~= ".meta.json"@);
    assert(meta_tmp_file(name).take(name.len() as int) =~= name);
    assert(meta_tmp_file(name).skip(name.len() as int) =~= ".meta.json.tmp"@);
    assert(event_file(name).take(name.len() as int) =~= name);
    assert(event_file(name).skip(name.len() as int) =~= ".jsonl"@);
    assert(stderr_file(name).take(name.len() as int) =~= name);
    assert(stderr_file(name).skip(name.len() as int) =~= ".stderr.log"@);
    assert(output_file(name).take(name.len() as int) =~= name);
    assert(output_file(name).skip(name.len() as int) =~= ".md"@);
}

/// A file holds a status just where it is named as a status file of some task is.
pub proof fn status_files_are_those_of_tasks(file: Seq<char>)
    ensures
        status_file(file) <==> exists|name: Seq<char>| file == #[trigger] (name + ".meta.json"@),
{
    endings_stand_last(file, ".meta.json"@);
    if exists|name: Seq<char>| file == #[trigger] (name + ".meta.json"@) {
        let name = choose|name: Seq<char>| file == #[trigger] (name + ".meta.json"@);
        only_finished_status_files_are_read(name);
    }
}

/// A file holds messages just where it is named after a thread, with the ending of event files.
pub proof fn mailbox_files_are_those_of_threads(file: Seq<char>)
    ensures
        mailbox_file(file) <==> exists|name: Seq<char>|
            name.len() > 0 && file == #[trigger] (name + ".jsonl"@),
{
    endings_stand_last(file, ".jsonl"@);
    if mailbox_file(file) {
        let name = choose|name: Seq<char>| file == #[trigger] (name + ".jsonl"@);
        assert(name.len() > 0);
    }
}

/// The dashboard reads the status file of every task, wherever it is.
pub proof fn the_dashboard_reads_every_status(dir: Seq<char>, name: Seq<char>)
    requires
        name.len() > 0,
        name[0] != '/',
    ensures
        dashboard_file(below(dir, meta_file(name)), meta_file(name)),
{
    reveal_strlit(".meta.json");
    reveal_strlit(".meta.");
    reveal_strlit(".json");
    reveal_strlit("/");
    let file = meta_file(name);
    let path = below(dir, file);
    assert(file.skip(file.len() - 5) =~= ".json"@);
    let at = path.len() - 10;
    assert(path.subrange(at, at + 6) =~= ".meta."@);
}

} // verus!
