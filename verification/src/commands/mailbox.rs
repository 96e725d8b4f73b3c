//! Sending messages.
use vstd::prelude::*;
use vstd::string::*;

use crate::error::{Error, Refusal, ToolError};
use crate::id::identifier;
use crate::json::{document_of, JsonNode};
use crate::message::{message_type, parse_message_type, text_body, MessageEnvelope};
use crate::meta::{meta_views, MetaView, TaskMeta};
use crate::paths::{below, event_file, event_file_name, join_path};
use crate::text::{blank, is_blank, same_text};

verus! {

/// Refuses a field of a request that is blank.
pub fn ensure_non_empty(name: &str, value: &str) -> (r: Result<(), Error>)
    ensures
        match r {
            Ok(()) => !blank(value@),
            Err(e) => blank(value@) && (e matches Error::EmptyField { field } && field@ == name@),
        },
{
    if is_blank(value) {
        Err(Error::EmptyField { field: name.to_owned() })
    } else {
        Ok(())
    }
}

/// The first task that fits, if any does.
pub open spec fn first_fit(metas: Seq<MetaView>, fits: spec_fn(MetaView) -> bool) -> Option<MetaView>
    decreases metas.len(),
{
    if metas.len() == 0 {
        None
    } else if fits(metas.first()) {
        Some(metas.first())
    } else {
        first_fit(metas.drop_first(), fits)
    }
}

/// Whether a task is recorded under an agent and a thread, as far as these are asked for.
pub open spec fn sent_as(agent: Option<Seq<char>>, thread: Option<Seq<char>>) -> spec_fn(
    MetaView,
) -> bool {
    |m: MetaView|
        (agent matches Some(a) ==> m.agent_id == a) && (thread matches Some(t) ==> m.thread_id == t)
}

/// The contents of an optional string slice.
pub open spec fn opt_str(s: Option<&str>) -> Option<Seq<char>> {
    match s {
        Some(s) => Some(s@),
        None => None,
    }
}

/// The task that a message is sent on behalf of: the first with both the sender's name and the
/// thread, else the first with the name, else the first with the thread.
pub open spec fn sender_task(metas: Seq<MetaView>, thread_id: Seq<char>, from_agent: Seq<char>) -> Option<
    MetaView,
> {
    let both = first_fit(metas, sent_as(Some(from_agent), Some(thread_id)));
    let agent = first_fit(metas, sent_as(Some(from_agent), None));
    let thread = first_fit(metas, sent_as(None, Some(thread_id)));
    if both is Some {
        both
    } else if agent is Some {
        agent
    } else {
        thread
    }
}

/// The run that a message belongs to: that of the task it is sent for, else the first that any
/// task names.
pub open spec fn sender_run(metas: Seq<MetaView>, thread_id: Seq<char>, from_agent: Seq<char>) -> Option<
    Seq<char>,
> {
    match sender_task(metas, thread_id, from_agent) {
        Some(m) => Some(m.run_id),
        None => match first_fit(metas, |m: MetaView| m.run_id.len() > 0) {
            Some(m) => Some(m.run_id),
            None => None,
        },
    }
}

/// The task that a message names as its own: the one it is sent for, else the sender's name.
pub open spec fn sender_name(metas: Seq<MetaView>, thread_id: Seq<char>, from_agent: Seq<char>) -> Seq<
    char,
> {
    match sender_task(metas, thread_id, from_agent) {
        Some(m) => m.name,
        None => from_agent,
    }
}

/// Where a task stands on a list, or nowhere.
pub open spec fn found_at(metas: Seq<MetaView>, i: Option<usize>) -> Option<MetaView> {
    match i {
        Some(i) => Some(metas[i as int]),
        None => None,
    }
}

proof fn lemma_first_fit(metas: Seq<MetaView>, fits: spec_fn(MetaView) -> bool, n: int)
    requires
        0 <= n <= metas.len(),
        forall|j: int| 0 <= j < n ==> !fits(#[trigger] metas[j]),
    ensures
        n < metas.len() && fits(metas[n]) ==> first_fit(metas, fits) == Some(metas[n]),
        n == metas.len() ==> first_fit(metas, fits) is None,
    decreases metas.len(),
{
    if metas.len() > 0 && n > 0 {
        let rest = metas.drop_first();
        assert(!fits(metas[0]));
        assert forall|j: int| 0 <= j < n - 1 implies !fits(#[trigger] rest[j]) by {
            assert(rest[j] == metas[j + 1]);
        }
        lemma_first_fit(rest, fits, n - 1);
        if n < metas.len() {
            assert(rest[n - 1] == metas[n]);
        }
    }
}

fn find_sender(metas: &Vec<TaskMeta>, agent: Option<&str>, thread: Option<&str>) -> (r: Option<usize>)
    ensures
        r matches Some(i) ==> i < metas@.len(),
        found_at(meta_views(metas@), r) == first_fit(
            meta_views(metas@),
            sent_as(opt_str(agent), opt_str(thread)),
        ),
{
    let ghost all = meta_views(metas@);
    let ghost fits = sent_as(opt_str(agent), opt_str(thread));
    let mut i: usize = 0;
    while i < metas.len()
        invariant
            i <= metas@.len(),
            all == meta_views(metas@),
            fits == sent_as(opt_str(agent), opt_str(thread)),
            forall|j: int| 0 <= j < i ==> !fits(#[trigger] all[j]),
        decreases metas@.len() - i,
    {
        let agent_fits = match agent {
            Some(a) => same_text(metas[i].agent_id.as_str(), a),
            None => true,
        };
        let thread_fits = match thread {
            Some(t) => same_text(metas[i].thread_id.as_str(), t),
            None => true,
        };
        assert(all[i as int] == metas@[i as int]@);
        if agent_fits && thread_fits {
            proof {
                lemma_first_fit(all, fits, i as int);
            }
            return Some(i);
        }
        i = i + 1;
    }
    proof {
        lemma_first_fit(all, fits, i as int);
    }
    None
}

fn find_run(metas: &Vec<TaskMeta>) -> (r: Option<usize>)
    ensures
        r matches Some(i) ==> i < metas@.len(),
        found_at(meta_views(metas@), r) == first_fit(
            meta_views(metas@),
            |m: MetaView| m.run_id.len() > 0,
        ),
{
    let ghost all = meta_views(metas@);
    let ghost fits = |m: MetaView| m.run_id.len() > 0;
    let mut i: usize = 0;
    while i < metas.len()
        invariant
            i <= metas@.len(),
            all == meta_views(metas@),
            fits == (|m: MetaView| m.run_id.len() > 0),
            forall|j: int| 0 <= j < i ==> !fits(#[trigger] all[j]),
        decreases metas@.len() - i,
    {
        assert(all[i as int] == metas@[i as int]@);
        if !metas[i].run_id.as_str().is_empty() {
            proof {
                lemma_first_fit(all, fits, i as int);
            }
            return Some(i);
        }
        i = i + 1;
    }
    proof {
        lemma_first_fit(all, fits, i as int);
    }
    None
}

/// The run and the task that a message belongs to, out of the statuses of a run directory.
pub fn resolve_message_context(
    metas: &Vec<TaskMeta>,
    run_dir: &str,
    thread_id: &str,
    from_agent: &str,
) -> (r: Result<(String, String), Error>)
    ensures
        match r {
            Ok((run_id, task_id)) => {
                &&& sender_run(meta_views(metas@), thread_id@, from_agent@) == Some(run_id@)
                &&& task_id@ == sender_name(meta_views(metas@), thread_id@, from_agent@)
            },
            Err(e) => {
                &&& sender_run(meta_views(metas@), thread_id@, from_agent@) is None
                &&& e matches Error::NoRunId { run_dir: d } && d@ == run_dir@
            },
        },
{
    let ghost all = meta_views(metas@);
    let both = find_sender(metas, Some(from_agent), Some(thread_id));
    let selected = match both {
        Some(i) => Some(i),
        None => match find_sender(metas, Some(from_agent), None) {
            Some(i) => Some(i),
            None => find_sender(metas, None, Some(thread_id)),
        },
    };
    assert(found_at(all, selected) == sender_task(all, thread_id@, from_agent@));
    match selected {
        Some(i) => {
            assert(all[i as int] == metas@[i as int]@);
            Ok((metas[i].run_id.clone(), metas[i].name.clone()))
        },
        None => match find_run(metas) {
            Some(i) => {
                assert(all[i as int] == metas@[i as int]@);
                Ok((metas[i].run_id.clone(), from_agent.to_owned()))
            },
            None => Err(Error::NoRunId { run_dir: run_dir.to_owned() }),
        },
    }
}

/// A request to send a message.
#[derive(Debug)]
pub struct SendMessageParams {
    pub run_dir: String,
    pub thread_id: String,
    pub from_agent: String,
    pub to_agent: String,
    pub msg_type: String,
    pub body: String,
}

/// The first of the fields that is blank, if any is.
pub open spec fn blank_field(p: SendMessageParams) -> Option<Seq<char>> {
    if blank(p.thread_id@) {
        Some("thread_id"@)
    } else if blank(p.from_agent@) {
        Some("from_agent"@)
    } else if blank(p.to_agent@) {
        Some("to_agent"@)
    } else {
        None
    }
}

/// Refuses a request with a blank field.
pub fn check_message(p: &SendMessageParams) -> (r: Result<(), ToolError>)
    ensures
        match r {
            Ok(()) => blank_field(*p) is None,
            Err(e) => blank_field(*p) matches Some(field) && e@ == Refusal::InvalidParams(
                field + " cannot be empty"@,
            ),
        },
{
    match ensure_non_empty("thread_id", p.thread_id.as_str()) {
        Ok(()) => {},
        Err(e) => {
            return Err(ToolError::invalid(&e));
        },
    }
    match ensure_non_empty("from_agent", p.from_agent.as_str()) {
        Ok(()) => {},
        Err(e) => {
            return Err(ToolError::invalid(&e));
        },
    }
    match ensure_non_empty("to_agent", p.to_agent.as_str()) {
        Ok(()) => {},
        Err(e) => {
            return Err(ToolError::invalid(&e));
        },
    }
    Ok(())
}

/// Where the messages of a thread are.
pub open spec fn thread_path(run_dir: Seq<char>, thread_id: Seq<char>) -> Seq<char> {
    below(below(below(run_dir, "logs"@), "messages"@), event_file(thread_id))
}

/// Where the messages of a thread are.
pub fn message_path(run_dir: &str, thread_id: &str) -> (r: String)
    ensures
        r@ == thread_path(run_dir@, thread_id@),
{
    let logs = join_path(run_dir, "logs");
    let messages = join_path(logs.as_str(), "messages");
    join_path(messages.as_str(), event_file_name(thread_id).as_str())
}

/// Why a message cannot be sent, if it cannot: a field is blank, the statuses of the run could
/// not be read, or none of them names a run.
pub open spec fn message_refusal(p: SendMessageParams, metas: Result<Seq<MetaView>, Seq<char>>) -> Option<
    Seq<char>,
> {
    match blank_field(p) {
        Some(field) => Some(field + " cannot be empty"@),
        None => match metas {
            Err(reason) => Some(reason),
            Ok(all) => if sender_run(all, p.thread_id@, p.from_agent@) is None {
                Some("no task metadata with run_id found in "@ + p.run_dir@)
            } else {
                None
            },
        },
    }
}

/// The contents of statuses that could be read, or why they could not.
pub open spec fn loaded_views(metas: Result<Vec<TaskMeta>, String>) -> Result<
    Seq<MetaView>,
    Seq<char>,
> {
    match metas {
        Ok(all) => Ok(meta_views(all@)),
        Err(reason) => Err(reason@),
    }
}

/// Writes the message that a request asks for; `metas` are the statuses of the run directory, or
/// why they could not be read.
pub fn send_message(p: SendMessageParams, metas: Result<Vec<TaskMeta>, String>) -> (r: Result<
    MessageEnvelope,
    ToolError,
>)
    ensures
        match r {
            Ok(m) => {
                &&& message_refusal(p, loaded_views(metas)) is None
                &&& loaded_views(metas) matches Ok(all) && {
                    &&& Some(m@.run_id) == sender_run(all, p.thread_id@, p.from_agent@)
                    &&& m@.task_id == sender_name(all, p.thread_id@, p.from_agent@)
                }
                &&& identifier(m@.message_id)
                &&& m@.thread_id == p.thread_id@
                &&& m@.from_agent == p.from_agent@
                &&& m@.to_agent == p.to_agent@
                &&& m@.msg_type == message_type(p.msg_type@)
                &&& m@.parent_message_id is None
                &&& document_of(m@.body) == map![
                    Seq::<char>::empty() => JsonNode::Text(p.body@),
                ]
            },
            Err(e) => message_refusal(p, loaded_views(metas)) matches Some(text) && e@
                == Refusal::InvalidParams(text),
        },
{
    match check_message(&p) {
        Ok(()) => {},
        Err(e) => {
            return Err(e);
        },
    }
    let metas = match metas {
        Ok(all) => all,
        Err(reason) => {
            return Err(ToolError::InvalidParams(reason));
        },
    };
    match resolve_message_context(
        &metas,
        p.run_dir.as_str(),
        p.thread_id.as_str(),
        p.from_agent.as_str(),
    ) {
        Ok((run_id, task_id)) => {
            let msg_type = parse_message_type(p.msg_type.as_str());
            Ok(
                MessageEnvelope::new(
                    run_id,
                    task_id,
                    p.thread_id,
                    p.from_agent,
                    p.to_agent,
                    msg_type,
                    text_body(p.body),
                ),
            )
        },
        Err(e) => Err(ToolError::invalid(&e)),
    }
}

/// Whether a task is recorded under the sender's name and the thread.
pub open spec fn sends_both(m: MetaView, thread_id: Seq<char>, from_agent: Seq<char>) -> bool {
    m.agent_id == from_agent && m.thread_id == thread_id
}

/// A message is sent for the first task that is recorded under both the sender and the thread;
/// where there is none, for the first under the sender; where there is none either, for the first
/// under the thread.
pub proof fn messages_are_sent_for_the_best_match(
    metas: Seq<MetaView>,
    thread_id: Seq<char>,
    from_agent: Seq<char>,
    i: int,
)
    requires
        0 <= i < metas.len(),
    ensures
        sends_both(metas[i], thread_id, from_agent) && (forall|j: int|
            0 <= j < i ==> !sends_both(#[trigger] metas[j], thread_id, from_agent)) ==> sender_task(
            metas,
            thread_id,
            from_agent,
        ) == Some(metas[i]),
        metas[i].agent_id == from_agent && (forall|j: int|
            0 <= j < metas.len() ==> !sends_both(#[trigger] metas[j], thread_id, from_agent)) && (
        forall|j: int| 0 <= j < i ==> (#[trigger] metas[j]).agent_id != from_agent) ==> sender_task(
            metas,
            thread_id,
            from_agent,
        ) == Some(metas[i]),
        metas[i].thread_id == thread_id && (forall|j: int|
            0 <= j < metas.len() ==> (#[trigger] metas[j]).agent_id != from_agent) && (forall|j: int|
            0 <= j < i ==> (#[trigger] metas[j]).thread_id != thread_id) ==> sender_task(
            metas,
            thread_id,
            from_agent,
        ) == Some(metas[i]),
{
    let both = sent_as(Some(from_agent), Some(thread_id));
    let agent = sent_as(Some(from_agent), None);
    let thread = sent_as(None, Some(thread_id));
    let n = metas.len() as int;
    if sends_both(metas[i], thread_id, from_agent) && (forall|j: int|
        0 <= j < i ==> !sends_both(#[trigger] metas[j], thread_id, from_agent)) {
        assert forall|j: int| 0 <= j < i implies !both(#[trigger] metas[j]) by {
            assert(!sends_both(metas[j], thread_id, from_agent));
        }
        lemma_first_fit(metas, both, i);
    }
    if metas[i].agent_id == from_agent && (forall|j: int|
        0 <= j < metas.len() ==> !sends_both(#[trigger] metas[j], thread_id, from_agent)) && (
    forall|j: int| 0 <= j < i ==> (#[trigger] metas[j]).agent_id != from_agent) {
        assert forall|j: int| 0 <= j < n implies !both(#[trigger] metas[j]) by {
            assert(!sends_both(metas[j], thread_id, from_agent));
        }
        lemma_first_fit(metas, both, n);
        lemma_first_fit(metas, agent, i);
    }
    if metas[i].thread_id == thread_id && (forall|j: int|
        0 <= j < metas.len() ==> (#[trigger] metas[j]).agent_id != from_agent) && (forall|j: int|
        0 <= j < i ==> (#[trigger] metas[j]).thread_id != thread_id) {
        lemma_first_fit(metas, both, n);
        lemma_first_fit(metas, agent, n);
        lemma_first_fit(metas, thread, i);
    }
}

/// A message belongs to the run and the task that it is sent for. Where it is sent for none, it
/// names its sender as the task and belongs to the first run that any task names, if one does.
pub proof fn messages_belong_to_a_run(
    metas: Seq<MetaView>,
    thread_id: Seq<char>,
    from_agent: Seq<char>,
    i: int,
)
    ensures
        sender_task(metas, thread_id, from_agent) matches Some(m) ==> sender_run(
            metas,
            thread_id,
            from_agent,
        ) == Some(m.run_id) && sender_name(metas, thread_id, from_agent) == m.name,
        sender_task(metas, thread_id, from_agent) is None ==> sender_name(
            metas,
            thread_id,
            from_agent,
        ) == from_agent,
        sender_task(metas, thread_id, from_agent) is None && 0 <= i < metas.len()
            && metas[i].run_id.len() > 0 && (forall|j: int|
            0 <= j < i ==> (#[trigger] metas[j]).run_id.len() == 0) ==> sender_run(
            metas,
            thread_id,
            from_agent,
        ) == Some(metas[i].run_id),
        sender_task(metas, thread_id, from_agent) is None && (forall|j: int|
            0 <= j < metas.len() ==> (#[trigger] metas[j]).run_id.len() == 0) ==> sender_run(
            metas,
            thread_id,
            from_agent,
        ) is None,
{
    let named = |m: MetaView| m.run_id.len() > 0;
    if 0 <= i < metas.len() && metas[i].run_id.len() > 0 && (forall|j: int|
        0 <= j < i ==> (#[trigger] metas[j]).run_id.len() == 0) {
        lemma_first_fit(metas, named, i);
    }
    if forall|j: int| 0 <= j < metas.len() ==> (#[trigger] metas[j]).run_id.len() == 0 {
        lemma_first_fit(metas, named, metas.len() as int);
    }
}

/// No task sends for a sender and a thread that none is recorded under.
pub proof fn strangers_send_for_no_task(
    metas: Seq<MetaView>,
    thread_id: Seq<char>,
    from_agent: Seq<char>,
)
    requires
        forall|j: int|
            0 <= j < metas.len() ==> (#[trigger] metas[j]).agent_id != from_agent
                && metas[j].thread_id != thread_id,
    ensures
        sender_task(metas, thread_id, from_agent) is None,
{
    let n = metas.len() as int;
    lemma_first_fit(metas, sent_as(Some(from_agent), Some(thread_id)), n);
    lemma_first_fit(metas, sent_as(Some(from_agent), None), n);
    lemma_first_fit(metas, sent_as(None, Some(thread_id)), n);
}

/// The first blank field of a request is told: the thread, then the sender, then the receiver.
pub proof fn blank_fields_are_told_in_turn(p: SendMessageParams)
    ensures
        blank_field(p) is None <==> !blank(p.thread_id@) && !blank(p.from_agent@) && !blank(
            p.to_agent@,
        ),
        blank(p.thread_id@) ==> blank_field(p) == Some("thread_id"@),
        !blank(p.thread_id@) && blank(p.from_agent@) ==> blank_field(p) == Some("from_agent"@),
        !blank(p.thread_id@) && !blank(p.from_agent@) && blank(p.to_agent@) ==> blank_field(p)
            == Some("to_agent"@),
{
}

/// The messages of a thread are in a file of its name, below the logs of the run.
pub proof fn threads_have_their_own_file(run_dir: Seq<char>, thread_id: Seq<char>)
    ensures
        thread_path(run_dir, thread_id) == below(
            below(below(run_dir, "logs"@), "messages"@),
            thread_id + ".jsonl"@,
        ),
{
}

/// A message is sent just where no field of the request is blank, the statuses of the run could be
/// read, and a run is found for it.
pub proof fn messages_are_refused_for_a_reason(
    p: SendMessageParams,
    metas: Result<Seq<MetaView>, Seq<char>>,
)
    ensures
        message_refusal(p, metas) is None <==> blank_field(p) is None && (metas matches Ok(all)
            && sender_run(all, p.thread_id@, p.from_agent@) is Some),
        blank_field(p) matches Some(field) ==> message_refusal(p, metas) == Some(
            field + " cannot be empty"@,
        ),
        blank_field(p) is None ==> (metas matches Err(reason) ==> message_refusal(p, metas) == Some(
            reason,
        )),
{
}

} // verus!
