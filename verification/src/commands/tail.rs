//! Following the events of a task.
use vstd::prelude::*;
use vstd::string::*;
use vstd::utf8::*;

use crate::event::{event_on, lemma_one_span, time_span, CodexEvent, EventView};
use crate::meta::{MetaView, TaskMeta, TaskStatus};
use crate::runner::opt_meta;
use crate::text::{
    has_part, has_suffix, lemma_part_at, opt_text, trim_end_text, trim_right,
};

verus! {

/// How many milliseconds pass until the end of the events is looked at again.
pub const POLL_MS: u64 = 200;

/// What is shown of a line of events.
#[derive(Debug)]
pub enum TailLine {
    /// Nothing.
    Nothing,
    /// A line of text.
    Text(String),
    /// The input tokens used so far, in thousands, at a time of day.
    Tokens { timestamp: String, input_tokens: u64 },
}

/// The contents of what is shown of a line of events.
pub enum TailView {
    Nothing,
    Text(Seq<char>),
    Tokens { timestamp: Seq<char>, input_tokens: u64 },
}

impl View for TailLine {
    type V = TailView;

    open spec fn view(&self) -> TailView {
        match self {
            TailLine::Nothing => TailView::Nothing,
            TailLine::Text(s) => TailView::Text(s@),
            TailLine::Tokens { timestamp, input_tokens } => TailView::Tokens {
                timestamp: timestamp@,
                input_tokens: *input_tokens,
            },
        }
    }
}

/// What is shown of an event at a time of day.
pub open spec fn tail_view(event: EventView, timestamp: Seq<char>) -> TailView {
    match event {
        EventView::ReadFile { file_path } => TailView::Text(
            "["@ + timestamp + "] READ  "@ + file_path,
        ),
        EventView::ExecCommand { command } => TailView::Text(
            "["@ + timestamp + "] EXEC  "@ + command,
        ),
        EventView::TokenCount { input_tokens, .. } => TailView::Tokens { timestamp, input_tokens },
        EventView::TaskComplete => TailView::Text("["@ + timestamp + "] === TASK COMPLETE ==="@),
        EventView::SessionStart { .. } => TailView::Nothing,
        EventView::Other(_) => TailView::Nothing,
    }
}

fn stamped(timestamp: &str, label: &str, text: &str) -> (r: String)
    ensures
        r@ == "["@ + timestamp@ + label@ + text@,
{
    let mut out = "[".to_owned();
    out.append(timestamp);
    out.append(label);
    out.append(text);
    out
}

/// What is shown of an event at a time of day.
pub fn tail_line(event: &CodexEvent, timestamp: &str) -> (r: TailLine)
    ensures
        r@ == tail_view(event@, timestamp@),
{
    match event {
        CodexEvent::ReadFile { file_path } => TailLine::Text(
            stamped(timestamp, "] READ  ", file_path.as_str()),
        ),
        CodexEvent::ExecCommand { command } => TailLine::Text(
            stamped(timestamp, "] EXEC  ", command.as_str()),
        ),
        CodexEvent::TokenCount { input_tokens, .. } => TailLine::Tokens {
            timestamp: timestamp.to_owned(),
            input_tokens: *input_tokens,
        },
        CodexEvent::TaskComplete => {
            let mut out = "[".to_owned();
            out.append(timestamp);
            out.append("] === TASK COMPLETE ===");
            TailLine::Text(out)
        },
        CodexEvent::SessionStart { .. } => TailLine::Nothing,
        CodexEvent::Other(_) => TailLine::Nothing,
    }
}

/// Whether the time of day in a line can be cut out: it neither starts nor ends inside a
/// character.
pub open spec fn time_is_whole(line: Seq<char>) -> bool {
    forall|from: int, to: int| #[trigger]
        time_span(encode_utf8(line), from, to) ==> is_char_boundary(encode_utf8(line), from)
            && is_char_boundary(encode_utf8(line), to)
}

/// Whether a text is the time of day in a line, or empty where the line has none.
pub open spec fn is_time_in(line: Seq<char>, timestamp: Seq<char>) -> bool {
    &&& forall|from: int, to: int| #[trigger]
        time_span(encode_utf8(line), from, to) ==> encode_utf8(timestamp) == encode_utf8(
            line,
        ).subrange(from, to)
    &&& (forall|from: int, to: int| !#[trigger] time_span(encode_utf8(line), from, to)) ==> timestamp
        == Seq::<char>::empty()
}

/// What is shown of a line of events, without the white space at its end. `None` where the line
/// holds an event whose time of day cannot be cut out.
pub fn tail_step(line: &str) -> (r: Option<TailLine>)
    ensures
        match event_on(trim_right(line@)) {
            Some(event) => match r {
                Some(shown) => time_is_whole(trim_right(line@)) && exists|timestamp: Seq<char>|
                    #[trigger] is_time_in(trim_right(line@), timestamp) && shown@ == tail_view(
                        event,
                        timestamp,
                    ),
                None => !time_is_whole(trim_right(line@)),
            },
            None => r matches Some(shown) && shown@ == TailView::Nothing,
        },
{
    let line = trim_end_text(line);
    match CodexEvent::parse(line) {
        Some(event) => {
            let span = CodexEvent::timestamp_span(line);
            if let Some((from, to)) = span {
                if !line.is_char_boundary(from) || !line.is_char_boundary(to) {
                    assert(time_span(encode_utf8(line@), from as int, to as int));
                    return None;
                }
                proof {
                    lemma_one_span(line.spec_bytes(), from as int, to as int);
                }
            }
            assert(line.spec_bytes() == encode_utf8(line@));
            let timestamp = CodexEvent::extract_timestamp(line);
            assert(timestamp.spec_bytes() == encode_utf8(timestamp@));
            proof {
                match span {
                    Some((from, to)) => {
                        assert(time_span(encode_utf8(line@), from as int, to as int));
                    },
                    None => {
                        assert(timestamp@ == Seq::<char>::empty());
                    },
                }
            }
            assert(time_is_whole(line@));
            assert(is_time_in(line@, timestamp@));
            Some(tail_line(&event, timestamp))
        },
        None => Some(TailLine::Nothing),
    }
}

/// What is shown once a task has ended, and only then.
pub open spec fn farewell(meta: Option<MetaView>) -> Option<Seq<char>> {
    match meta {
        Some(m) => if m.status.terminal() {
            Some("\n--- Task "@ + m.name + " ("@ + m.status.label() + ") ---"@)
        } else {
            None
        },
        None => None,
    }
}

/// What to show at the end of the events, where the task has ended: nothing more comes then.
/// `meta` is the status of the task, where it could be read.
pub fn tail_end(meta: &Option<TaskMeta>) -> (r: Option<String>)
    ensures
        opt_text(r) == farewell(opt_meta(*meta)),
        r is Some <==> (meta matches Some(m) && (m.status == TaskStatus::Done || m.status
            == TaskStatus::Failed || m.status == TaskStatus::Cancelled)),
{
    match meta {
        Some(m) => if m.status.is_terminal() {
            let mut out = "\n--- Task ".to_owned();
            out.append(m.name.as_str());
            out.append(" (");
            out.append(m.status.as_text());
            out.append(") ---");
            Some(out)
        } else {
            None
        },
        None => None,
    }
}

/// The time of day can be cut out of every line of ASCII characters.
pub proof fn ascii_lines_have_whole_times(line: Seq<char>)
    requires
        is_ascii_chars(line),
    ensures
        time_is_whole(line),
{
    let bytes = encode_utf8(line);
    is_ascii_chars_encode_utf8(line);
    encode_utf8_valid_utf8(line);
    assert forall|from: int, to: int| #[trigger] time_span(bytes, from, to) implies is_char_boundary(
        bytes,
        from,
    ) && is_char_boundary(bytes, to) by {
        lemma_ascii_boundary(line, from);
        lemma_ascii_boundary(line, to);
    }
}

proof fn lemma_ascii_boundary(line: Seq<char>, i: int)
    requires
        is_ascii_chars(line),
        0 <= i <= line.len(),
    ensures
        is_char_boundary(encode_utf8(line), i),
{
    let bytes = encode_utf8(line);
    is_ascii_chars_encode_utf8(line);
    encode_utf8_valid_utf8(line);
    if i < line.len() {
        let b = line[i] as u8;
        assert(bytes[i] == b && b < 128);
        is_char_boundary_iff_not_is_continuation_byte(bytes, i);
    } else {
        is_char_boundary_start_end_of_seq(bytes);
    }
}

/// Following a task ends just where its status could be read and it has ended, in whichever of the
/// three ways; what is shown then holds its name and the word of its status.
pub proof fn following_ends_with_the_task(meta: MetaView)
    ensures
        farewell(Some(meta)) is Some <==> (meta.status is Done || meta.status is Failed
            || meta.status is Cancelled),
        farewell(None) is None,
        farewell(Some(meta)) matches Some(text) ==> has_part(text, meta.name) && has_part(
            text,
            "("@ + meta.status.label() + ")"@,
        ),
        meta.status is Done ==> meta.status.label() == "done"@,
        meta.status is Failed ==> meta.status.label() == "failed"@,
        meta.status is Cancelled ==> meta.status.label() == "cancelled"@,
{
    if let Some(text) = farewell(Some(meta)) {
        reveal_strlit(" (");
        reveal_strlit("(");
        reveal_strlit(")");
        reveal_strlit(") ---");
        reveal_strlit("\n--- Task ");
        let word = meta.status.label();
        let head = "\n--- Task "@;
        let end = " ("@ + word + ") ---"@;
        assert(text =~= (head + meta.name) + end);
        lemma_part_at(text, head, meta.name, end);
        let left = head + meta.name + " "@;
        let middle = "("@ + word + ")"@;
        let right = " ---"@;
        reveal_strlit(" ");
        reveal_strlit(" ---");
        assert(text =~= (left + middle) + right);
        lemma_part_at(text, left, middle, right);
    }
}

/// What is shown of an event names what it tells, behind the time of day in brackets: the file that
/// is read, the command that is run, or that the task is complete. Token counts are shown as they
/// are, and other events not at all.
pub proof fn followed_events_show_what_they_tell(event: EventView, timestamp: Seq<char>)
    ensures
        event matches EventView::ReadFile { file_path } ==> (tail_view(
            event,
            timestamp,
        ) matches TailView::Text(text) && has_suffix(text, "READ  "@ + file_path)),
        event matches EventView::ExecCommand { command } ==> (tail_view(
            event,
            timestamp,
        ) matches TailView::Text(text) && has_suffix(text, "EXEC  "@ + command)),
        event is TaskComplete ==> (tail_view(event, timestamp) matches TailView::Text(text)
            && has_part(text, "TASK COMPLETE"@)),
        event matches EventView::TokenCount { input_tokens, output_tokens } ==> tail_view(
            event,
            timestamp,
        ) == (TailView::Tokens { timestamp, input_tokens }),
        event is SessionStart || event is Other ==> tail_view(event, timestamp) is Nothing,
        tail_view(event, timestamp) matches TailView::Text(text) ==> text.len() > timestamp.len() + 2
            && text[0] == '[' && text.subrange(1, 1int + timestamp.len()) == timestamp && text[1int
            + timestamp.len()] == ']',
{
    reveal_strlit("[");
    reveal_strlit("] READ  ");
    reveal_strlit("READ  ");
    reveal_strlit("] EXEC  ");
    reveal_strlit("EXEC  ");
    reveal_strlit("] === TASK COMPLETE ===");
    reveal_strlit("TASK COMPLETE");
    if let TailView::Text(text) = tail_view(event, timestamp) {
        assert(text.subrange(1, 1int + timestamp.len()) =~= timestamp);
    }
    if let EventView::ReadFile { file_path } = event {
        let text = "["@ + timestamp + "] READ  "@ + file_path;
        let tail = "READ  "@ + file_path;
        assert(text.skip(text.len() - tail.len()) =~= tail);
    }
    if let EventView::ExecCommand { command } = event {
        let text = "["@ + timestamp + "] EXEC  "@ + command;
        let tail = "EXEC  "@ + command;
        assert(text.skip(text.len() - tail.len()) =~= tail);
    }
    if event is TaskComplete {
        let text = "["@ + timestamp + "] === TASK COMPLETE ==="@;
        let at = timestamp.len() as int + 7;
        assert(text.subrange(at, at + 13) =~= "TASK COMPLETE"@);
    }
}

/// The end of the events is looked at five times a second.
pub proof fn events_are_looked_for_five_times_a_second()
    ensures
        5 * POLL_MS == 1000,
{
}

/// The time of day that is shown is cut out of the line as it stands there, and is empty where the
/// line has none; a line has one at most.
pub proof fn shown_times_are_those_of_the_line(
    line: Seq<char>,
    timestamp: Seq<char>,
    from: int,
    to: int,
)
    requires
        is_time_in(line, timestamp),
    ensures
        time_span(encode_utf8(line), from, to) ==> encode_utf8(timestamp) == encode_utf8(
            line,
        ).subrange(from, to),
        (forall|f: int, t: int| !#[trigger] time_span(encode_utf8(line), f, t)) ==> timestamp.len()
            == 0,
        time_is_whole(line) && time_span(encode_utf8(line), from, to) ==> is_char_boundary(
            encode_utf8(line),
            from,
        ) && is_char_boundary(encode_utf8(line), to),
{
}

} // verus!
