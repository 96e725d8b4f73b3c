//! Reading a file piece by piece.
use vstd::prelude::*;
use vstd::utf8::*;

use crate::commands::names::{check_task_name, name_refused, valid_task_name};
use crate::error::{Error, Refusal, ToolError};
use crate::paths::{
    below, join_path, output_file, output_file_name, stderr_file, stderr_file_name,
};

verus! {

/// How many bytes are read at once where the reader does not say.
pub const DEFAULT_CHUNK: u64 = 65536;

/// A piece of a file.
#[derive(Debug)]
pub struct ReadFileResult {
    pub content: String,
    pub next_offset: u64,
    pub eof: bool,
}

/// Where a piece starts.
pub open spec fn chunk_start(offset: Option<u64>) -> nat {
    match offset {
        Some(n) => n as nat,
        None => 0,
    }
}

/// How long a piece may be.
pub open spec fn chunk_limit(max_bytes: Option<u64>) -> nat {
    match max_bytes {
        Some(n) => n as nat,
        None => DEFAULT_CHUNK as nat,
    }
}

/// How long the piece of a file is that starts at a byte and may be so long.
pub open spec fn chunk_len(file_len: nat, start: nat, limit: nat) -> nat {
    if start >= file_len {
        0
    } else if limit <= file_len - start {
        limit
    } else {
        (file_len - start) as nat
    }
}

/// The text of bytes, where some may not be UTF-8.
pub uninterp spec fn lossy_text(bytes: Seq<u8>) -> Seq<char>;

/// `String::from_utf8_lossy`, made an owned string: the characters that the bytes encode where
/// they are UTF-8. What stands for bytes that are not is named by `lossy_text`.
#[verifier::external_body]
pub(crate) fn text_from_bytes(bytes: &Vec<u8>) -> (r: String)
    ensures
        r@ == lossy_text(bytes@),
        valid_utf8(bytes@) ==> r@ == decode_utf8(bytes@),
{
    String::from_utf8_lossy(bytes).into_owned()
}

/// Which bytes of a file to read: from where, and how many.
pub fn plan_chunk(file_len: u64, offset: Option<u64>, max_bytes: Option<u64>) -> (r: (u64, u64))
    ensures
        r.0 == chunk_start(offset),
        r.1 == chunk_len(file_len as nat, chunk_start(offset), chunk_limit(max_bytes)),
{
    let start: u64 = match offset {
        Some(n) => n,
        None => 0,
    };
    let max: u64 = match max_bytes {
        Some(n) => n,
        None => DEFAULT_CHUNK,
    };
    let left: u64 = if start >= file_len {
        0
    } else {
        file_len - start
    };
    let len: u64 = if max <= left {
        max
    } else {
        left
    };
    (start, len)
}

/// The piece of a file whose bytes were read as planned.
pub fn read_chunk(file_len: u64, offset: Option<u64>, max_bytes: Option<u64>, bytes: &Vec<u8>) -> (r:
    ReadFileResult)
    requires
        bytes@.len() == chunk_len(file_len as nat, chunk_start(offset), chunk_limit(max_bytes)),
    ensures
        r.content@ == lossy_text(bytes@),
        valid_utf8(bytes@) ==> r.content@ == decode_utf8(bytes@),
        r.next_offset == chunk_start(offset) + bytes@.len(),
        r.eof == (r.next_offset >= file_len),
{
    let (start, len) = plan_chunk(file_len, offset, max_bytes);
    let next_offset: u64 = start + len;
    ReadFileResult {
        content: text_from_bytes(bytes),
        next_offset,
        eof: next_offset >= file_len,
    }
}

/// Which of a task's files is read.
#[derive(Clone, Copy, Debug, PartialEq, Eq, Structural)]
pub enum TaskFile {
    /// Its result.
    Output,
    /// What it wrote to its standard error.
    Stderr,
}

/// Where a task's file is, below the directory of its run.
pub open spec fn task_file_path(run_dir: Seq<char>, task_name: Seq<char>, file: TaskFile) -> Seq<
    char,
> {
    match file {
        TaskFile::Output => below(below(run_dir, "outputs"@), output_file(task_name)),
        TaskFile::Stderr => below(below(run_dir, "logs"@), stderr_file(task_name)),
    }
}

/// Where a task's file is, below the directory of its run; a name that no task can have is
/// refused.
pub fn locate_task_file(run_dir: &str, task_name: &str, file: TaskFile) -> (r: Result<
    String,
    ToolError,
>)
    ensures
        match r {
            Ok(path) => valid_task_name(task_name@) && path@ == task_file_path(
                run_dir@,
                task_name@,
                file,
            ),
            Err(e) => name_refused(task_name@, e@),
        },
{
    match check_task_name(task_name) {
        Ok(()) => {},
        Err(e) => {
            return Err(e);
        },
    }
    match file {
        TaskFile::Output => {
            let dir = join_path(run_dir, "outputs");
            Ok(join_path(dir.as_str(), output_file_name(task_name).as_str()))
        },
        TaskFile::Stderr => {
            let dir = join_path(run_dir, "logs");
            Ok(join_path(dir.as_str(), stderr_file_name(task_name).as_str()))
        },
    }
}

/// The refusal to read a file that is not there.
pub fn missing_file(path: &str) -> (r: ToolError)
    ensures
        r@ == Refusal::InvalidParams("file not found: "@ + path@),
{
    ToolError::invalid(&Error::FileNotFound { path: path.to_owned() })
}

/// What a reader gets who reads on where each piece ended, until the end of the file.
pub open spec fn read_on(file: Seq<u8>, start: nat, limit: nat) -> Seq<u8>
    decreases file.len() - start,
{
    let len = chunk_len(file.len(), start, limit);
    if len == 0 {
        seq![]
    } else {
        file.subrange(start as int, (start + len) as int) + read_on(file, start + len, limit)
    }
}

/// A piece never goes beyond the file, and ends the file just where it says so; every other piece
/// is as long as it may be, so that reading on comes to the end.
pub proof fn chunks_make_progress(file_len: nat, start: nat, limit: nat)
    requires
        start <= file_len,
    ensures
        start + chunk_len(file_len, start, limit) <= file_len,
        start + chunk_len(file_len, start, limit) >= file_len <==> start + chunk_len(
            file_len,
            start,
            limit,
        ) == file_len,
        start + chunk_len(file_len, start, limit) < file_len ==> chunk_len(file_len, start, limit)
            == limit,
{
}

/// A file that is read piece by piece is read whole, whatever the length of the pieces.
pub proof fn chunks_make_up_the_file(file: Seq<u8>, start: nat, limit: nat)
    requires
        start <= file.len(),
        limit > 0,
    ensures
        read_on(file, start, limit) == file.skip(start as int),
    decreases file.len() - start,
{
    let len = chunk_len(file.len(), start, limit);
    if len > 0 {
        chunks_make_up_the_file(file, start + len, limit);
        assert(file.subrange(start as int, (start + len) as int) + file.skip((start + len) as int)
            =~= file.skip(start as int));
    } else {
        assert(file.skip(start as int) =~= seq![]);
    }
}

/// A piece starts where the reader says, or at the beginning, and is as long as the reader lets it
/// be, or 65536 bytes, but ends with the file; beyond the file it is empty.
pub proof fn pieces_are_as_asked_for(file_len: nat, n: u64, start: nat, limit: nat)
    ensures
        chunk_start(Some(n)) == n,
        chunk_start(None) == 0,
        chunk_limit(Some(n)) == n,
        chunk_limit(None) == 65536,
        start >= file_len ==> chunk_len(file_len, start, limit) == 0,
        start + limit <= file_len ==> chunk_len(file_len, start, limit) == limit,
        start < file_len < start + limit ==> start + chunk_len(file_len, start, limit) == file_len,
{
}

/// The files of a task are in the directories of its run: its result among the outputs, what it
/// wrote to its standard error among the logs.
pub proof fn task_files_are_where_the_run_put_them(run_dir: Seq<char>, task_name: Seq<char>)
    ensures
        task_file_path(run_dir, task_name, TaskFile::Output) == below(
            below(run_dir, "outputs"@),
            task_name + ".md"@,
        ),
        task_file_path(run_dir, task_name, TaskFile::Stderr) == below(
            below(run_dir, "logs"@),
            task_name + ".stderr.log"@,
        ),
{
}

} // verus!
