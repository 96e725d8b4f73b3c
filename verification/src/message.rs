//! Messages that agents send to each other, and the mailboxes that they read them from.
use vstd::prelude::*;
use vstd::string::*;

use crate::id::{identifier, new_id};
use crate::json::{document_of, JsonNode};
use crate::order::{
    picked, placed_before, sort_by_keys, sorting_keeps_the_items, stable_order_of,
    stable_sorts_agree, stably_sorted, views,
};
use crate::text::{
    blank, copy_opt, decimal, decimal_text, has_part, has_suffix, is_blank, lemma_part_at,
    lower_text, lowered, opt_text, same_text, trim_text, trimmed,
};
use crate::time::Timestamp;

verus! {

/// What a message is for.
#[derive(Clone, Copy, Debug, PartialEq, Eq, Structural)]
pub enum MessageType {
    Instruction,
    Observation,
    ArtifactRef,
    Critique,
    Decision,
}

/// A message from one agent to another.
#[derive(Debug)]
pub struct MessageEnvelope {
    pub message_id: String,
    pub run_id: String,
    pub task_id: String,
    pub thread_id: String,
    pub from_agent: String,
    pub to_agent: String,
    pub msg_type: MessageType,
    pub parent_message_id: Option<String>,
    pub created_at: Timestamp,
    pub body: serde_json::Value,
}

/// The contents of a message.
#[verifier::ext_equal]
pub struct MessageView {
    pub message_id: Seq<char>,
    pub run_id: Seq<char>,
    pub task_id: Seq<char>,
    pub thread_id: Seq<char>,
    pub from_agent: Seq<char>,
    pub to_agent: Seq<char>,
    pub msg_type: MessageType,
    pub parent_message_id: Option<Seq<char>>,
    pub created_at: Timestamp,
    pub body: serde_json::Value,
}

impl View for MessageEnvelope {
    type V = MessageView;

    open spec fn view(&self) -> MessageView {
        MessageView {
            message_id: self.message_id@,
            run_id: self.run_id@,
            task_id: self.task_id@,
            thread_id: self.thread_id@,
            from_agent: self.from_agent@,
            to_agent: self.to_agent@,
            msg_type: self.msg_type,
            parent_message_id: opt_text(self.parent_message_id),
            created_at: self.created_at,
            body: self.body,
        }
    }
}

/// The contents of a list of messages.
pub open spec fn message_views(messages: Seq<MessageEnvelope>) -> Seq<MessageView> {
    messages.map_values(|m: MessageEnvelope| m@)
}

impl MessageEnvelope {
    /// A message that is written now, under a new identifier.
    pub fn new(
        run_id: String,
        task_id: String,
        thread_id: String,
        from_agent: String,
        to_agent: String,
        msg_type: MessageType,
        body: serde_json::Value,
    ) -> (r: MessageEnvelope)
        ensures
            identifier(r.message_id@),
            r@ == (MessageView {
                message_id: r.message_id@,
                run_id: run_id@,
                task_id: task_id@,
                thread_id: thread_id@,
                from_agent: from_agent@,
                to_agent: to_agent@,
                msg_type,
                parent_message_id: None,
                created_at: r.created_at,
                body,
            }),
    {
        MessageEnvelope {
            message_id: new_id(),
            run_id,
            task_id,
            thread_id,
            from_agent,
            to_agent,
            msg_type,
            parent_message_id: None,
            created_at: Timestamp::now(),
            body,
        }
    }
}

impl Clone for MessageEnvelope {
    fn clone(&self) -> (r: MessageEnvelope)
        ensures
            r@ == (MessageView { body: r.body, ..self@ }),
            document_of(r.body) == document_of(self.body),
    {
        MessageEnvelope {
            message_id: self.message_id.clone(),
            run_id: self.run_id.clone(),
            task_id: self.task_id.clone(),
            thread_id: self.thread_id.clone(),
            from_agent: self.from_agent.clone(),
            to_agent: self.to_agent.clone(),
            msg_type: self.msg_type,
            parent_message_id: copy_opt(&self.parent_message_id),
            created_at: self.created_at,
            body: copy_json(&self.body),
        }
    }
}

/// `serde_json::Value::clone`: a value with the same contents, place by place.
#[verifier::external_body]
pub(crate) fn copy_json(value: &serde_json::Value) -> (r: serde_json::Value)
    ensures
        document_of(r) == document_of(*value),
{
    value.clone()
}

/// `serde_json::Value::String`: the value that is a string and nothing else. Only the empty
/// pointer leads anywhere in it.
#[verifier::external_body]
pub(crate) fn json_string(s: String) -> (r: serde_json::Value)
    ensures
        document_of(r) == map![Seq::<char>::empty() => JsonNode::Text(s@)],
{
    serde_json::Value::String(s)
}

/// A body that holds plain text.
pub fn text_body(s: String) -> (r: serde_json::Value)
    ensures
        document_of(r) == map![Seq::<char>::empty() => JsonNode::Text(s@)],
{
    json_string(s)
}

/// What a message is for, by its name; one without a known name is an observation.
pub open spec fn message_type(name: Seq<char>) -> MessageType {
    let key = lowered(trimmed(name));
    if key == "instruction"@ {
        MessageType::Instruction
    } else if key == "artifact_ref"@ || key == "artifact-ref"@ {
        MessageType::ArtifactRef
    } else if key == "critique"@ {
        MessageType::Critique
    } else if key == "decision"@ {
        MessageType::Decision
    } else {
        MessageType::Observation
    }
}

/// What a message is for, by its name.
pub fn parse_message_type(msg_type: &str) -> (r: MessageType)
    ensures
        r == message_type(msg_type@),
{
    let key = lower_text(trim_text(msg_type));
    if same_text(key.as_str(), "instruction") {
        MessageType::Instruction
    } else if same_text(key.as_str(), "artifact_ref") || same_text(key.as_str(), "artifact-ref") {
        MessageType::ArtifactRef
    } else if same_text(key.as_str(), "critique") {
        MessageType::Critique
    } else if same_text(key.as_str(), "decision") {
        MessageType::Decision
    } else {
        MessageType::Observation
    }
}

/// The messages to an agent, in their order.
pub open spec fn addressed_to(messages: Seq<MessageView>, agent_id: Seq<char>) -> Seq<MessageView>
    decreases messages.len(),
{
    if messages.len() == 0 {
        seq![]
    } else {
        let before = addressed_to(messages.drop_last(), agent_id);
        if messages.last().to_agent == agent_id {
            before.push(messages.last())
        } else {
            before
        }
    }
}

/// Whether a message was written before another.
pub open spec fn written_before(a: MessageView, b: MessageView) -> bool {
    a.created_at.earlier(b.created_at)
}

/// The order of a mailbox.
pub open spec fn oldest_first() -> spec_fn(MessageView, MessageView) -> bool {
    |a: MessageView, b: MessageView| written_before(a, b)
}

/// Those of the items that a page shows: at most `limit`, after the first `offset`.
pub open spec fn page_of<A>(items: Seq<A>, limit: nat, offset: nat) -> Seq<A> {
    let from = if offset <= items.len() {
        offset
    } else {
        items.len()
    };
    let to = if limit <= items.len() - from {
        from + limit
    } else {
        items.len()
    };
    items.subrange(from as int, to as int)
}

/// Whether these are the messages of a page of an agent's mailbox, oldest first.
pub open spec fn mailbox_page(
    messages: Seq<MessageView>,
    agent_id: Seq<char>,
    limit: nat,
    offset: nat,
    page: Seq<MessageView>,
) -> bool {
    exists|sorted: Seq<MessageView>| #[trigger]
        stably_sorted(
            addressed_to(messages, agent_id),
            oldest_first(),
            sorted,
        ) && page == page_of(sorted, limit, offset)
}

/// How many messages a page shows where the reader does not say.
pub const DEFAULT_LIMIT: usize = 50;

/// The page size and the start of a page, where the reader may leave either out.
pub fn page_bounds(limit: Option<usize>, offset: Option<usize>) -> (r: (usize, usize))
    ensures
        r.0 == match limit {
            Some(n) => n,
            None => DEFAULT_LIMIT,
        },
        r.1 == match offset {
            Some(n) => n,
            None => 0,
        },
{
    let size: usize = match limit {
        Some(n) => n,
        None => DEFAULT_LIMIT,
    };
    let start: usize = match offset {
        Some(n) => n,
        None => 0,
    };
    (size, start)
}

/// The messages to an agent, in their order.
pub fn filter_mailbox(messages: Vec<MessageEnvelope>, agent_id: &str) -> (r: Vec<MessageEnvelope>)
    ensures
        message_views(r@) == addressed_to(message_views(messages@), agent_id@),
{
    let ghost all = message_views(messages@);
    let mut kept: Vec<MessageEnvelope> = Vec::new();
    assert(message_views(kept@) =~= addressed_to(all.take(0), agent_id@));
    for message in it: messages
        invariant
            it.seq() == messages@,
            all == message_views(messages@),
            message_views(kept@) == addressed_to(all.take(it.index() as int), agent_id@),
    {
        let ghost k = it.index() as int;
        let ghost before = message_views(kept@);
        let ghost shown = message@;
        proof {
            assert(all[k] == shown);
            assert(all.take(k + 1).drop_last() =~= all.take(k));
            assert(all.take(k + 1).last() == shown);
        }
        if same_text(message.to_agent.as_str(), agent_id) {
            kept.push(message);
            assert(message_views(kept@) =~= before.push(shown));
        }
    }
    assert(all.take(all.len() as int) =~= all);
    kept
}

/// The messages of one page of an agent's mailbox, oldest first, out of all messages in the order
/// in which they were stored.
pub fn list_mailbox_messages(
    messages: Vec<MessageEnvelope>,
    agent_id: &str,
    limit: usize,
    offset: usize,
) -> (r: Vec<MessageEnvelope>)
    ensures
        mailbox_page(
            message_views(messages@),
            agent_id@,
            limit as nat,
            offset as nat,
            message_views(r@),
        ),
{
    let mine = filter_mailbox(messages, agent_id);
    let ghost items = message_views(mine@);
    let mut times: Vec<Timestamp> = Vec::new();
    let mut i: usize = 0;
    while i < mine.len()
        invariant
            i <= mine@.len(),
            times@.len() == i,
            forall|j: int| 0 <= j < i ==> #[trigger] times@[j] == mine@[j].created_at,
        decreases mine@.len() - i,
    {
        times.push(mine[i].created_at);
        i = i + 1;
    }
    assert(views(mine@) =~= items);
    let sorted = sort_by_keys(mine, &times, Ghost(oldest_first()));
    let ghost in_order = message_views(sorted@);
    assert(views(sorted@) =~= in_order);
    let page = take_page(sorted, limit, offset);
    assert(message_views(page@) =~= page_of(in_order, limit as nat, offset as nat));
    page
}

/// Those of the items that a page shows.
pub fn take_page<T>(items: Vec<T>, limit: usize, offset: usize) -> (r: Vec<T>)
    ensures
        r@ == page_of(items@, limit as nat, offset as nat),
{
    let n = items.len();
    let from: usize = if offset <= n {
        offset
    } else {
        n
    };
    let to: usize = if limit <= n - from {
        from + limit
    } else {
        n
    };
    let ghost all = items@;
    let mut page: Vec<T> = Vec::new();
    let mut i: usize = 0;
    assert(all.subrange(from as int, from as int) =~= Seq::empty());
    for item in it: items
        invariant
            it.seq() == all,
            i == it.index(),
            n == all.len(),
            from <= to <= n,
            page@ == if i < from {
                Seq::empty()
            } else if i < to {
                all.subrange(from as int, i as int)
            } else {
                all.subrange(from as int, to as int)
            },
    {
        if from <= i && i < to {
            page.push(item);
            assert(page@ =~= all.subrange(from as int, i + 1));
        }
        i = i + 1;
    }
    page
}

/// Whether a line of a mailbox holds a message.
pub fn holds_message(line: &str) -> (r: bool)
    ensures
        r == !blank(line@),
{
    !is_blank(line)
}

/// What is wrong with a line of a mailbox that holds no message.
pub open spec fn unreadable_text(path: Seq<char>, line: nat) -> Seq<char> {
    "failed to parse message in "@ + path + " at line "@ + decimal(line)
}

/// What is wrong with a line of a mailbox that holds no message; lines are counted from 1.
pub fn unreadable_message(path: &str, line: u64) -> (r: String)
    ensures
        r@ == unreadable_text(path@, line as nat),
{
    let mut out = "failed to parse message in ".to_owned();
    out.append(path);
    out.append(" at line ");
    out.append(decimal_text(line).as_str());
    out
}

/// Two readers of the same page of the same mailbox see the same messages.
pub proof fn mailbox_pages_agree(
    messages: Seq<MessageView>,
    agent_id: Seq<char>,
    limit: nat,
    offset: nat,
    a: Seq<MessageView>,
    b: Seq<MessageView>,
)
    requires
        mailbox_page(messages, agent_id, limit, offset, a),
        mailbox_page(messages, agent_id, limit, offset, b),
    ensures
        a == b,
{
    let mine = addressed_to(messages, agent_id);
    let before = oldest_first();
    let x = choose|sorted: Seq<MessageView>| #[trigger]
        stably_sorted(mine, before, sorted) && a == page_of(sorted, limit, offset);
    let y = choose|sorted: Seq<MessageView>| #[trigger]
        stably_sorted(mine, before, sorted) && b == page_of(sorted, limit, offset);
    stable_sorts_agree(mine, before, x, y);
}

/// A mailbox shows an agent only what is addressed to it.
pub proof fn mailboxes_show_own_messages(messages: Seq<MessageView>, agent_id: Seq<char>, m: MessageView)
    ensures
        addressed_to(messages, agent_id).contains(m) == (messages.contains(m) && m.to_agent
            == agent_id),
    decreases messages.len(),
{
    let mine = addressed_to(messages, agent_id);
    if messages.len() > 0 {
        let before = messages.drop_last();
        let last = messages.last();
        let some = addressed_to(before, agent_id);
        mailboxes_show_own_messages(before, agent_id, m);
        assert(messages =~= before.push(last));
        if some.contains(m) {
            let i = choose|i: int| 0 <= i < some.len() && some[i] == m;
            assert(mine[i] == m);
        }
        if before.contains(m) {
            let i = choose|i: int| 0 <= i < before.len() && before[i] == m;
            assert(messages[i] == m);
        }
        if m == last {
            assert(messages[messages.len() - 1] == m);
            if last.to_agent == agent_id {
                assert(mine[mine.len() - 1] == m);
            }
        }
        if mine.contains(m) && m != last {
            let i = choose|i: int| 0 <= i < mine.len() && mine[i] == m;
            assert(some[i] == m);
        }
        if messages.contains(m) && m != last {
            let i = choose|i: int| 0 <= i < messages.len() && messages[i] == m;
            assert(before[i] == m);
        }
    }
}

/// Every message to an agent is found in its mailbox, and nothing else is, on a page that is
/// large enough.
pub proof fn messages_arrive(
    messages: Seq<MessageView>,
    agent_id: Seq<char>,
    limit: nat,
    page: Seq<MessageView>,
    m: MessageView,
)
    requires
        mailbox_page(messages, agent_id, limit, 0, page),
        limit >= messages.len(),
    ensures
        page.contains(m) == (messages.contains(m) && m.to_agent == agent_id),
{
    let mine = addressed_to(messages, agent_id);
    let sorted = choose|sorted: Seq<MessageView>| #[trigger]
        stably_sorted(mine, oldest_first(), sorted) && page == page_of(sorted, limit, 0);
    lemma_no_more_than_all(messages, agent_id);
    sorting_keeps_the_items(mine, oldest_first(), sorted, m);
    assert(page =~= sorted);
    mailboxes_show_own_messages(messages, agent_id, m);
}

proof fn lemma_no_more_than_all(messages: Seq<MessageView>, agent_id: Seq<char>)
    ensures
        addressed_to(messages, agent_id).len() <= messages.len(),
    decreases messages.len(),
{
    if messages.len() > 0 {
        lemma_no_more_than_all(messages.drop_last(), agent_id);
    }
}

/// Pages follow each other without a gap: one page and the next are the page that is as large as
/// both.
pub proof fn pages_follow_each_other<A>(items: Seq<A>, offset: nat, a: nat, b: nat)
    ensures
        page_of(items, a + b, offset) == page_of(items, a, offset) + page_of(items, b, offset + a),
{
    assert(page_of(items, a + b, offset) =~= page_of(items, a, offset) + page_of(
        items,
        b,
        offset + a,
    ));
}

/// A message is for what its type says, whatever its case and the white space around it; one with
/// an unknown type is an observation.
pub proof fn message_types_are_known_by_name(name: Seq<char>)
    ensures
        lowered(trimmed(name)) == "instruction"@ ==> message_type(name) == MessageType::Instruction,
        lowered(trimmed(name)) == "observation"@ ==> message_type(name) == MessageType::Observation,
        lowered(trimmed(name)) == "artifact_ref"@ || lowered(trimmed(name)) == "artifact-ref"@
            ==> message_type(name) == MessageType::ArtifactRef,
        lowered(trimmed(name)) == "critique"@ ==> message_type(name) == MessageType::Critique,
        lowered(trimmed(name)) == "decision"@ ==> message_type(name) == MessageType::Decision,
        message_type(name) == MessageType::Instruction ==> lowered(trimmed(name)) == "instruction"@,
        message_type(name) == MessageType::ArtifactRef ==> lowered(trimmed(name)) == "artifact_ref"@
            || lowered(trimmed(name)) == "artifact-ref"@,
        message_type(name) == MessageType::Critique ==> lowered(trimmed(name)) == "critique"@,
        message_type(name) == MessageType::Decision ==> lowered(trimmed(name)) == "decision"@,
{
    reveal_strlit("instruction");
    reveal_strlit("observation");
    reveal_strlit("artifact_ref");
    reveal_strlit("artifact-ref");
    reveal_strlit("critique");
    reveal_strlit("decision");
    assert("instruction"@.len() == 11 && "observation"@.len() == 11);
    assert("instruction"@[0] == 'i' && "observation"@[0] == 'o');
    assert("artifact_ref"@.len() == 12 && "artifact-ref"@.len() == 12);
    assert("critique"@.len() == 8 && "decision"@.len() == 8);
    assert("critique"@[0] == 'c' && "decision"@[0] == 'd');
}

/// A page shows the items from its start on, one after the other, as many as it may and as there
/// are.
pub proof fn pages_show_items_in_turn<A>(items: Seq<A>, limit: nat, offset: nat, i: int)
    ensures
        offset >= items.len() ==> page_of(items, limit, offset).len() == 0,
        offset + limit <= items.len() ==> page_of(items, limit, offset).len() == limit,
        offset <= items.len() <= offset + limit ==> page_of(items, limit, offset).len()
            == items.len() - offset,
        0 <= i < page_of(items, limit, offset).len() ==> offset + i < items.len() && page_of(
            items,
            limit,
            offset,
        )[i] == items[offset + i],
{
}

/// A mailbox shows older messages before newer ones.
pub proof fn mailboxes_show_older_messages_first(
    messages: Seq<MessageView>,
    agent_id: Seq<char>,
    limit: nat,
    offset: nat,
    page: Seq<MessageView>,
    p: int,
    q: int,
)
    requires
        mailbox_page(messages, agent_id, limit, offset, page),
        0 <= p < q < page.len(),
    ensures
        !page[q].created_at.earlier(page[p].created_at),
        page[p].to_agent == agent_id,
        page[q].to_agent == agent_id,
        messages.contains(page[p]) && messages.contains(page[q]),
{
    let mine = addressed_to(messages, agent_id);
    let sorted = choose|sorted: Seq<MessageView>| #[trigger]
        stably_sorted(mine, oldest_first(), sorted) && page == page_of(sorted, limit, offset);
    let order = choose|order: Seq<int>| #[trigger]
        stable_order_of(mine, oldest_first(), order) && sorted == picked(mine, order);
    pages_show_items_in_turn(sorted, limit, offset, p);
    pages_show_items_in_turn(sorted, limit, offset, q);
    let a: int = offset + p;
    let b: int = offset + q;
    assert(placed_before(mine, oldest_first(), order[a], order[b]));
    assert(page[p] == sorted[a] && page[q] == sorted[b]);
    assert(sorted.contains(page[p]) && sorted.contains(page[q]));
    sorting_keeps_the_items(mine, oldest_first(), sorted, page[p]);
    sorting_keeps_the_items(mine, oldest_first(), sorted, page[q]);
    mailboxes_show_own_messages(messages, agent_id, page[p]);
    mailboxes_show_own_messages(messages, agent_id, page[q]);
}

/// A line that holds no message is told by its file and its number.
pub proof fn unreadable_lines_are_told_by_place(path: Seq<char>, line: nat)
    ensures
        has_part(unreadable_text(path, line), path),
        has_suffix(unreadable_text(path, line), " at line "@ + decimal(line)),
{
    let text = unreadable_text(path, line);
    let head = "failed to parse message in "@;
    let tail = " at line "@ + decimal(line);
    assert(text =~= (head + path) + tail);
    lemma_part_at(text, head, path, tail);
    assert(text.skip(text.len() - tail.len()) =~= tail);
}

/// A page has fifty messages and starts with the first where the reader does not say.
pub proof fn pages_have_fifty_messages_by_default()
    ensures
        DEFAULT_LIMIT == 50,
{
}

} // verus!
