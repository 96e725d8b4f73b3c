//! What tasks leave behind.
use vstd::prelude::*;
use vstd::string::*;

use crate::id::{identifier, new_id};
use crate::text::{copy_list, texts};
use crate::time::{rfc3339_text, Timestamp};

verus! {

/// What an artifact is.
#[derive(Clone, Copy, Debug, PartialEq, Eq, Structural)]
pub enum ArtifactType {
    Output,
    Patch,
    TestResult,
    Report,
    Log,
}

/// How an artifact is written.
#[derive(Clone, Copy, Debug, PartialEq, Eq, Structural)]
pub enum ArtifactFormat {
    Markdown,
    Json,
    Patch,
    PlainText,
}

/// Something that a task has left behind.
#[derive(Debug)]
pub struct Artifact {
    pub artifact_id: String,
    pub run_id: String,
    pub task_id: String,
    pub producer_agent: String,
    pub artifact_type: ArtifactType,
    pub format: ArtifactFormat,
    pub path: String,
    pub summary: String,
    pub references: Vec<String>,
    pub created_at: String,
}

/// The contents of an artifact.
#[verifier::ext_equal]
pub struct ArtifactView {
    pub artifact_id: Seq<char>,
    pub run_id: Seq<char>,
    pub task_id: Seq<char>,
    pub producer_agent: Seq<char>,
    pub artifact_type: ArtifactType,
    pub format: ArtifactFormat,
    pub path: Seq<char>,
    pub summary: Seq<char>,
    pub references: Seq<Seq<char>>,
    pub created_at: Seq<char>,
}

impl View for Artifact {
    type V = ArtifactView;

    open spec fn view(&self) -> ArtifactView {
        ArtifactView {
            artifact_id: self.artifact_id@,
            run_id: self.run_id@,
            task_id: self.task_id@,
            producer_agent: self.producer_agent@,
            artifact_type: self.artifact_type,
            format: self.format,
            path: self.path@,
            summary: self.summary@,
            references: texts(self.references@),
            created_at: self.created_at@,
        }
    }
}

impl Clone for Artifact {
    fn clone(&self) -> (r: Artifact)
        ensures
            r@ == self@,
    {
        Artifact {
            artifact_id: self.artifact_id.clone(),
            run_id: self.run_id.clone(),
            task_id: self.task_id.clone(),
            producer_agent: self.producer_agent.clone(),
            artifact_type: self.artifact_type,
            format: self.format,
            path: self.path.clone(),
            summary: self.summary.clone(),
            references: copy_list(&self.references),
            created_at: self.created_at.clone(),
        }
    }
}

/// The result of a task, under an identifier and written at a time.
pub open spec fn output_artifact(
    artifact_id: Seq<char>,
    run_id: Seq<char>,
    task_id: Seq<char>,
    agent_id: Seq<char>,
    path: Seq<char>,
    at: Timestamp,
) -> ArtifactView {
    ArtifactView {
        artifact_id,
        run_id,
        task_id,
        producer_agent: agent_id,
        artifact_type: ArtifactType::Output,
        format: ArtifactFormat::Markdown,
        path,
        summary: seq![],
        references: seq![],
        created_at: rfc3339_text(at.unix_seconds(), at.second_nanos(), at.utc_offset()),
    }
}

impl Artifact {
    /// The result of a task, written now, under a new identifier.
    pub fn new_output(run_id: &str, task_id: &str, agent_id: &str, path: String) -> (r: Artifact)
        ensures
            identifier(r.artifact_id@),
            exists|at: Timestamp|
                r@ == #[trigger] output_artifact(
                    r.artifact_id@,
                    run_id@,
                    task_id@,
                    agent_id@,
                    path@,
                    at,
                ),
    {
        Artifact::new_output_at(new_id(), run_id, task_id, agent_id, path, &Timestamp::now())
    }

    /// The result of a task, under an identifier and written at the given time.
    pub fn new_output_at(
        artifact_id: String,
        run_id: &str,
        task_id: &str,
        agent_id: &str,
        path: String,
        at: &Timestamp,
    ) -> (r: Artifact)
        ensures
            r@ == output_artifact(artifact_id@, run_id@, task_id@, agent_id@, path@, *at),
    {
        let references: Vec<String> = Vec::new();
        assert(texts(references@) =~= seq![]);
        Artifact {
            artifact_id,
            run_id: run_id.to_owned(),
            task_id: task_id.to_owned(),
            producer_agent: agent_id.to_owned(),
            artifact_type: ArtifactType::Output,
            format: ArtifactFormat::Markdown,
            path,
            summary: String::new(),
            references,
            created_at: at.to_rfc3339(),
        }
    }

    /// The name of the file that describes the artifact.
    pub fn file_name(&self) -> (r: String)
        ensures
            r@ == self@.artifact_id + ".json"@,
    {
        let mut out = self.artifact_id.clone();
        out.append(".json");
        out
    }

    /// The name under which that file is written before it takes its place.
    pub fn tmp_file_name(&self) -> (r: String)
        ensures
            r@ == self@.artifact_id + ".json.tmp"@,
    {
        let mut out = self.artifact_id.clone();
        out.append(".json.tmp");
        out
    }
}

/// The result of a task is described as Markdown output of that task, run and agent, at its path,
/// and dated; nothing is said of it yet and it refers to nothing.
pub proof fn results_are_described_as_output(
    artifact_id: Seq<char>,
    run_id: Seq<char>,
    task_id: Seq<char>,
    agent_id: Seq<char>,
    path: Seq<char>,
    at: Timestamp,
)
    ensures
        output_artifact(artifact_id, run_id, task_id, agent_id, path, at).artifact_id
            == artifact_id,
        output_artifact(artifact_id, run_id, task_id, agent_id, path, at).run_id == run_id,
        output_artifact(artifact_id, run_id, task_id, agent_id, path, at).task_id == task_id,
        output_artifact(artifact_id, run_id, task_id, agent_id, path, at).producer_agent
            == agent_id,
        output_artifact(artifact_id, run_id, task_id, agent_id, path, at).path == path,
        output_artifact(artifact_id, run_id, task_id, agent_id, path, at).artifact_type
            == ArtifactType::Output,
        output_artifact(artifact_id, run_id, task_id, agent_id, path, at).format
            == ArtifactFormat::Markdown,
        output_artifact(artifact_id, run_id, task_id, agent_id, path, at).summary.len() == 0,
        output_artifact(artifact_id, run_id, task_id, agent_id, path, at).references.len() == 0,
        output_artifact(artifact_id, run_id, task_id, agent_id, path, at).created_at
            == rfc3339_text(at.unix_seconds(), at.second_nanos(), at.utc_offset()),
{
}

} // verus!
