//! The events that an agent reports while it works on a task, one JSON document a line.
use vstd::prelude::*;
use vstd::string::*;
use vstd::utf8::*;

use crate::json::{
    count_at, document_of, json_at, json_document, parse_json, read_count, read_text, text_at,
    JsonDoc, JsonNode,
};
use crate::text::{opt_text, same_text};

verus! {

/// One event.
#[derive(Debug)]
pub enum CodexEvent {
    SessionStart { session_id: String },
    TokenCount { input_tokens: u64, output_tokens: u64 },
    ReadFile { file_path: String },
    ExecCommand { command: String },
    TaskComplete,
    Other(String),
}

/// The contents of an event.
pub enum EventView {
    SessionStart { session_id: Seq<char> },
    TokenCount { input_tokens: u64, output_tokens: u64 },
    ReadFile { file_path: Seq<char> },
    ExecCommand { command: Seq<char> },
    TaskComplete,
    Other(Seq<char>),
}

impl View for CodexEvent {
    type V = EventView;

    open spec fn view(&self) -> EventView {
        match self {
            CodexEvent::SessionStart { session_id } => EventView::SessionStart {
                session_id: session_id@,
            },
            CodexEvent::TokenCount { input_tokens, output_tokens } => EventView::TokenCount {
                input_tokens: *input_tokens,
                output_tokens: *output_tokens,
            },
            CodexEvent::ReadFile { file_path } => EventView::ReadFile { file_path: file_path@ },
            CodexEvent::ExecCommand { command } => EventView::ExecCommand { command: command@ },
            CodexEvent::TaskComplete => EventView::TaskComplete,
            CodexEvent::Other(kind) => EventView::Other(kind@),
        }
    }
}

/// The contents of an event, if there is one.
pub open spec fn opt_event(e: Option<CodexEvent>) -> Option<EventView> {
    match e {
        Some(event) => Some(event@),
        None => None,
    }
}

/// What an event is made from: the fields that its line holds.
#[derive(Debug)]
pub struct EventFields {
    /// The text at `/payload/type`.
    pub kind: Option<String>,
    /// Whether there is anything at `/payload/info/total_token_usage`.
    pub has_usage: bool,
    /// The count of input tokens there.
    pub input_tokens: Option<u64>,
    /// The count of output tokens there.
    pub output_tokens: Option<u64>,
    /// The text at `/payload/call/args/file_path`.
    pub file_path: Option<String>,
    /// The text at `/payload/call/args/command`.
    pub command: Option<String>,
}

/// The contents of the fields of an event.
#[verifier::ext_equal]
pub struct FieldsView {
    pub kind: Option<Seq<char>>,
    pub has_usage: bool,
    pub input_tokens: Option<u64>,
    pub output_tokens: Option<u64>,
    pub file_path: Option<Seq<char>>,
    pub command: Option<Seq<char>>,
}

impl View for EventFields {
    type V = FieldsView;

    open spec fn view(&self) -> FieldsView {
        FieldsView {
            kind: opt_text(self.kind),
            has_usage: self.has_usage,
            input_tokens: self.input_tokens,
            output_tokens: self.output_tokens,
            file_path: opt_text(self.file_path),
            command: opt_text(self.command),
        }
    }
}

/// The fields of an event that a document holds.
pub open spec fn fields_in(doc: JsonDoc) -> FieldsView {
    FieldsView {
        kind: text_at(doc, "/payload/type"@),
        has_usage: doc.contains_key("/payload/info/total_token_usage"@),
        input_tokens: count_at(doc, "/payload/info/total_token_usage/input_tokens"@),
        output_tokens: count_at(doc, "/payload/info/total_token_usage/output_tokens"@),
        file_path: text_at(doc, "/payload/call/args/file_path"@),
        command: text_at(doc, "/payload/call/args/command"@),
    }
}

/// A count, or 0 where there is none.
pub open spec fn count_or_zero(n: Option<u64>) -> u64 {
    match n {
        Some(n) => n,
        None => 0,
    }
}

/// A text, or a question mark where there is none.
pub open spec fn text_or_unknown(s: Option<Seq<char>>) -> Seq<char> {
    match s {
        Some(s) => s,
        None => "?"@,
    }
}

/// The event that fields make up: none without a kind, nor for token counts without the usage
/// that they are counted in.
pub open spec fn event_from(fields: FieldsView) -> Option<EventView> {
    match fields.kind {
        None => None,
        Some(kind) => if kind == "token_count"@ {
            if fields.has_usage {
                Some(
                    EventView::TokenCount {
                        input_tokens: count_or_zero(fields.input_tokens),
                        output_tokens: count_or_zero(fields.output_tokens),
                    },
                )
            } else {
                None
            }
        } else if kind == "read_file"@ {
            Some(EventView::ReadFile { file_path: text_or_unknown(fields.file_path) })
        } else if kind == "exec_command"@ {
            Some(EventView::ExecCommand { command: text_or_unknown(fields.command) })
        } else if kind == "task_complete"@ {
            Some(EventView::TaskComplete)
        } else {
            Some(EventView::Other(kind))
        },
    }
}

/// The event on a line: none where the line is not JSON.
pub open spec fn event_on(line: Seq<char>) -> Option<EventView> {
    match json_document(line) {
        Some(doc) => event_from(fields_in(doc)),
        None => None,
    }
}

/// What stands before a time in an event's line.
pub open spec fn timestamp_mark() -> Seq<char> {
    "\"timestamp\":\""@
}

/// Whether the mark of a time stands at byte `p` of a line, and nowhere before.
pub open spec fn first_mark(line: Seq<u8>, p: int) -> bool {
    let mark = encode_utf8(timestamp_mark());
    &&& mark_at(line, mark, p)
    &&& forall|q: int| 0 <= q < p ==> !#[trigger] mark_at(line, mark, q)
}

/// Whether some bytes stand at byte `p` of a line.
pub open spec fn mark_at(line: Seq<u8>, mark: Seq<u8>, p: int) -> bool {
    0 <= p && p + mark.len() <= line.len() && line.subrange(p, p + mark.len()) == mark
}

/// Whether the bytes from `from` to `to` are the time of day in a line: 8 bytes that start 11
/// bytes into the first time, where the line goes on for the 19 bytes that a time takes.
pub open spec fn time_span(line: Seq<u8>, from: int, to: int) -> bool {
    &&& first_mark(line, from - 24)
    &&& to == from + 8
    &&& to <= line.len()
}

fn bytes_at(line: &[u8], mark: &[u8], p: usize) -> (r: bool)
    requires
        p + mark@.len() <= line@.len(),
    ensures
        r == mark_at(line@, mark@, p as int),
{
    let n = line.len();
    let mut i: usize = 0;
    while i < mark.len()
        invariant
            i <= mark@.len(),
            p + mark@.len() <= n,
            n == line@.len(),
            forall|j: int| 0 <= j < i ==> line@[p + j] == mark@[j],
        decreases mark@.len() - i,
    {
        if line[p + i] != mark[i] {
            assert(line@.subrange(p as int, p + mark@.len())[i as int] == line@[p + i]);
            return false;
        }
        i = i + 1;
    }
    assert(line@.subrange(p as int, p + mark@.len()) =~= mark@);
    true
}

impl CodexEvent {
    /// The event on a line, if the line is an event.
    pub fn parse(line: &str) -> (r: Option<CodexEvent>)
        ensures
            opt_event(r) == event_on(line@),
    {
        match parse_json(line) {
            Some(value) => CodexEvent::from_fields(&EventFields::of(&value)),
            None => None,
        }
    }

    /// The event that fields make up.
    pub fn from_fields(fields: &EventFields) -> (r: Option<CodexEvent>)
        ensures
            opt_event(r) == event_from(fields@),
    {
        let kind = match &fields.kind {
            Some(kind) => kind,
            None => {
                return None;
            },
        };
        if same_text(kind.as_str(), "token_count") {
            if !fields.has_usage {
                return None;
            }
            let input_tokens: u64 = match fields.input_tokens {
                Some(n) => n,
                None => 0,
            };
            let output_tokens: u64 = match fields.output_tokens {
                Some(n) => n,
                None => 0,
            };
            Some(CodexEvent::TokenCount { input_tokens, output_tokens })
        } else if same_text(kind.as_str(), "read_file") {
            let file_path = match &fields.file_path {
                Some(path) => path.clone(),
                None => "?".to_owned(),
            };
            Some(CodexEvent::ReadFile { file_path })
        } else if same_text(kind.as_str(), "exec_command") {
            let command = match &fields.command {
                Some(command) => command.clone(),
                None => "?".to_owned(),
            };
            Some(CodexEvent::ExecCommand { command })
        } else if same_text(kind.as_str(), "task_complete") {
            Some(CodexEvent::TaskComplete)
        } else {
            Some(CodexEvent::Other(kind.clone()))
        }
    }

    /// Where the time of day stands in a line, in bytes, if it has a time.
    pub fn timestamp_span(line: &str) -> (r: Option<(usize, usize)>)
        ensures
            match r {
                Some((from, to)) => time_span(line.spec_bytes(), from as int, to as int),
                None => forall|from: int, to: int| !time_span(line.spec_bytes(), from, to),
            },
    {
        let mark = "\"timestamp\":\"".as_bytes();
        proof {
            reveal_strlit("\"timestamp\":\"");
            is_ascii_chars_encode_utf8(timestamp_mark());
        }
        assert(mark@.len() == 13);
        let bytes = line.as_bytes();
        let n = bytes.len();
        let mut p: usize = 0;
        while p < n && n - p >= 13
            invariant
                p <= n,
                n == bytes@.len(),
                bytes@ == line.spec_bytes(),
                mark@ == encode_utf8(timestamp_mark()),
                mark@.len() == 13,
                forall|q: int| 0 <= q < p ==> !#[trigger] mark_at(bytes@, mark@, q),
            decreases n - p,
        {
            if bytes_at(bytes, mark, p) {
                assert(first_mark(bytes@, p as int));
                if n - p >= 32 {
                    return Some((p + 24, p + 32));
                }
                assert forall|from: int, to: int| !time_span(bytes@, from, to) by {
                    if first_mark(bytes@, from - 24) {
                        assert(from - 24 == p) by {
                            if from - 24 < p {
                                assert(!mark_at(bytes@, mark@, from - 24));
                            } else if from - 24 > p {
                                assert(!mark_at(bytes@, mark@, p as int));
                            }
                        }
                    }
                }
                return None;
            }
            p = p + 1;
        }
        assert forall|from: int, to: int| !time_span(bytes@, from, to) by {
            if first_mark(bytes@, from - 24) {
                assert(from - 24 + 13 <= n);
                assert(mark_at(bytes@, mark@, from - 24));
            }
        }
        None
    }

    /// The time of day, `HH:MM:SS`, in a line that holds a timestamp; empty where it has none.
    pub fn extract_timestamp(line: &str) -> (r: &str)
        requires
            forall|from: int, to: int| #[trigger]
                time_span(line.spec_bytes(), from, to) ==> is_char_boundary(line.spec_bytes(), from)
                    && is_char_boundary(line.spec_bytes(), to),
        ensures
            forall|from: int, to: int| #[trigger]
                time_span(line.spec_bytes(), from, to) ==> r.spec_bytes()
                    == line.spec_bytes().subrange(from, to),
            (forall|from: int, to: int| !#[trigger] time_span(line.spec_bytes(), from, to)) ==> r@
                == Seq::<char>::empty(),
    {
        match CodexEvent::timestamp_span(line) {
            Some((from, to)) => {
                let (head, _) = line.split_at(to);
                let ghost bytes = line.spec_bytes();
                proof {
                    encode_utf8_valid_utf8(line@);
                    lemma_one_span(bytes, from as int, to as int);
                    lemma_boundary_in_head(bytes, from as int, to as int);
                }
                assert(head.spec_bytes() == bytes.subrange(0, to as int));
                let (_, tail) = head.split_at(from);
                assert(tail.spec_bytes() =~= bytes.subrange(from as int, to as int));
                tail
            },
            None => {
                proof {
                    reveal_strlit("");
                }
                assert(""@ =~= Seq::<char>::empty());
                ""
            },
        }
    }
}

impl EventFields {
    /// The fields of an event that a value holds.
    fn of(value: &serde_json::Value) -> (r: EventFields)
        ensures
            r@ == fields_in(document_of(*value)),
    {
        let has_usage = match json_at(value, "/payload/info/total_token_usage") {
            Some(_) => true,
            None => false,
        };
        EventFields {
            kind: read_text(value, "/payload/type"),
            has_usage,
            input_tokens: read_count(value, "/payload/info/total_token_usage/input_tokens"),
            output_tokens: read_count(value, "/payload/info/total_token_usage/output_tokens"),
            file_path: read_text(value, "/payload/call/args/file_path"),
            command: read_text(value, "/payload/call/args/command"),
        }
    }
}

pub proof fn lemma_one_span(line: Seq<u8>, from: int, to: int)
    requires
        time_span(line, from, to),
    ensures
        forall|f: int, t: int| #[trigger] time_span(line, f, t) ==> f == from && t == to,
{
    let mark = encode_utf8(timestamp_mark());
    assert forall|f: int, t: int| #[trigger] time_span(line, f, t) implies f == from && t == to by {
        if f < from {
            assert(!mark_at(line, mark, f - 24));
        } else if f > from {
            assert(!mark_at(line, mark, from - 24));
        }
    }
}

proof fn lemma_boundary_in_head(line: Seq<u8>, from: int, to: int)
    requires
        valid_utf8(line),
        0 <= from <= to <= line.len(),
        is_char_boundary(line, from),
        is_char_boundary(line, to),
    ensures
        is_char_boundary(line.subrange(0, to), from),
{
    let head = line.subrange(0, to);
    valid_utf8_split(line, to);
    if from < to {
        assert(head[from] == line[from]);
        is_char_boundary_iff_not_is_continuation_byte(line, from);
        is_char_boundary_iff_not_is_continuation_byte(head, from);
    } else {
        is_char_boundary_start_end_of_seq(head);
    }
}

/// A line is an event of the kind that it names at `/payload/type`, made from what stands at the
/// places of that kind: the running total of tokens, the file that is read, or the command that is
/// run. What is missing counts as nothing, or as a question mark.
pub proof fn events_are_read_from_their_places(line: Seq<char>, doc: JsonDoc)
    requires
        json_document(line) == Some(doc),
    ensures
        !(doc.contains_key("/payload/type"@) && doc["/payload/type"@] is Text) ==> event_on(line)
            is None,
        doc.contains_key("/payload/type"@) && doc["/payload/type"@] == JsonNode::Text(
            "token_count"@,
        ) ==> {
            let total = "/payload/info/total_token_usage"@;
            let input = "/payload/info/total_token_usage/input_tokens"@;
            let output = "/payload/info/total_token_usage/output_tokens"@;
            &&& event_on(line) is Some <==> doc.contains_key(total)
            &&& event_on(line) is Some ==> event_on(line)->0 is TokenCount
            &&& doc.contains_key(total) && doc.contains_key(input) ==> (
            doc[input] matches JsonNode::Count(n) ==> event_on(line)->0->input_tokens == n)
            &&& doc.contains_key(total) && doc.contains_key(output) ==> (
            doc[output] matches JsonNode::Count(n) ==> event_on(line)->0->output_tokens == n)
            &&& doc.contains_key(total) && !(doc.contains_key(input) && doc[input] is Count)
                ==> event_on(line)->0->input_tokens == 0
            &&& doc.contains_key(total) && !(doc.contains_key(output) && doc[output] is Count)
                ==> event_on(line)->0->output_tokens == 0
        },
        doc.contains_key("/payload/type"@) && doc["/payload/type"@] == JsonNode::Text("read_file"@)
            ==> {
            let place = "/payload/call/args/file_path"@;
            &&& doc.contains_key(place) ==> (doc[place] matches JsonNode::Text(path) ==> event_on(
                line,
            ) == Some(EventView::ReadFile { file_path: path }))
            &&& !(doc.contains_key(place) && doc[place] is Text) ==> event_on(line) == Some(
                EventView::ReadFile { file_path: "?"@ },
            )
        },
        doc.contains_key("/payload/type"@) && doc["/payload/type"@] == JsonNode::Text(
            "exec_command"@,
        ) ==> {
            let place = "/payload/call/args/command"@;
            &&& doc.contains_key(place) ==> (doc[place] matches JsonNode::Text(command)
                ==> event_on(line) == Some(EventView::ExecCommand { command }))
            &&& !(doc.contains_key(place) && doc[place] is Text) ==> event_on(line) == Some(
                EventView::ExecCommand { command: "?"@ },
            )
        },
        doc.contains_key("/payload/type"@) && doc["/payload/type"@] == JsonNode::Text(
            "task_complete"@,
        ) ==> event_on(line) == Some(EventView::TaskComplete),
        doc.contains_key("/payload/type"@) ==> (doc["/payload/type"@] matches JsonNode::Text(kind)
            ==> (kind != "token_count"@ && kind != "read_file"@ && kind != "exec_command"@ && kind
            != "task_complete"@ ==> event_on(line) == Some(EventView::Other(kind)))),
{
    reveal_strlit("token_count");
    reveal_strlit("read_file");
    reveal_strlit("exec_command");
    reveal_strlit("task_complete");
    assert("token_count"@.len() == 11 && "read_file"@.len() == 9);
    assert("exec_command"@.len() == 12 && "task_complete"@.len() == 13);
}

/// A line that is not JSON is no event.
pub proof fn broken_lines_are_no_events(line: Seq<char>)
    requires
        json_document(line) is None,
    ensures
        event_on(line) is None,
{
}

/// The time of day of a line is eight bytes, eleven behind the first mark of a time, in a line that
/// goes on for the nineteen bytes of a date and a time; every such line has one.
pub proof fn times_stand_behind_their_mark(line: Seq<u8>, p: int)
    requires
        0 <= p,
        p + 13 <= line.len(),
        line.subrange(p, p + 13) == encode_utf8("\"timestamp\":\""@),
        forall|q: int|
            0 <= q < p ==> #[trigger] line.subrange(q, q + 13) != encode_utf8("\"timestamp\":\""@),
    ensures
        p + 32 <= line.len() ==> time_span(line, p + 24, p + 32),
        forall|from: int, to: int| #[trigger]
            time_span(line, from, to) ==> from == p + 24 && to == p + 32 && p + 32 <= line.len(),
{
    reveal_strlit("\"timestamp\":\"");
    let mark = encode_utf8(timestamp_mark());
    is_ascii_chars_encode_utf8(timestamp_mark());
    assert(mark.len() == 13);
    assert(mark_at(line, mark, p));
    assert forall|q: int| 0 <= q < p implies !#[trigger] mark_at(line, mark, q) by {
        assert(line.subrange(q, q + 13) != mark);
    }
    assert(first_mark(line, p));
    assert forall|from: int, to: int| #[trigger] time_span(line, from, to) implies from == p + 24
        && to == p + 32 && p + 32 <= line.len() by {
        if from - 24 < p {
            assert(!mark_at(line, mark, from - 24));
        } else if from - 24 > p {
            assert(!mark_at(line, mark, p));
        }
    }
}

/// A line without the mark of a time has no time of day.
pub proof fn lines_without_a_mark_have_no_time(line: Seq<u8>)
    requires
        forall|q: int|
            0 <= q <= line.len() - 13 ==> #[trigger] line.subrange(q, q + 13) != encode_utf8(
                "\"timestamp\":\""@,
            ),
    ensures
        forall|from: int, to: int| !#[trigger] time_span(line, from, to),
{
    reveal_strlit("\"timestamp\":\"");
    let mark = encode_utf8(timestamp_mark());
    is_ascii_chars_encode_utf8(timestamp_mark());
    assert(mark.len() == 13);
    assert forall|from: int, to: int| !#[trigger] time_span(line, from, to) by {
        if time_span(line, from, to) {
            let q = from - 24;
            assert(mark_at(line, mark, q));
            assert(line.subrange(q, q + 13) == mark);
        }
    }
}

} // verus!
