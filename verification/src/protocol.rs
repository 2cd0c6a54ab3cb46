//! Messages shared by the CLI, the daemon and the desktop shell.

use vstd::prelude::*;

verus! {

/// Unified API response wrapper.
#[derive(Debug, Clone, PartialEq, Eq)]
pub struct ApiResponse<T> {
    pub ok: bool,
    pub data: Option<T>,
    pub error: Option<ApiError>,
}

/// Structured API error.
#[derive(Debug, Clone, PartialEq, Eq)]
pub struct ApiError {
    pub code: String,
    pub message: String,
}

impl<T> ApiResponse<T> {
    /// A successful response carrying `data`.
    pub fn success(data: T) -> (r: Self)
        ensures
            r.ok,
            r.data == Some(data),
            r.error is None,
    {
        ApiResponse { ok: true, data: Some(data), error: None }
    }

    /// A failed response with an error code and message.
    pub fn error(code: String, message: String) -> (r: Self)
        ensures
            !r.ok,
            r.data is None,
            r.error matches Some(e) && e.code@ == code@ && e.message@ == message@,
    {
        ApiResponse { ok: false, data: None, error: Some(ApiError { code, message }) }
    }
}

/// Unique task identifier.
#[derive(Debug, Clone, PartialEq, Eq)]
pub struct TaskId(pub String);

impl TaskId {
    /// The identifier as displayed.
    pub fn to_display_string(&self) -> (r: String)
        ensures
            r@ == self.0@,
    {
        self.0.clone()
    }
}

/// Request to create a new task.
#[derive(Debug, Clone, PartialEq, Eq)]
pub struct CreateTaskRequest {
    pub workspace_path: String,
    pub kind: TaskKind,
    pub sandbox: SandboxProfile,
}

/// Kinds of tasks the system can execute.
#[derive(Debug, Clone, PartialEq, Eq)]
pub enum TaskKind {
    CodeReview,
    Build,
    Test,
    CustomCommand { command: String },
}

/// Sandbox configuration for a task.
#[derive(Debug, Clone, PartialEq, Eq)]
pub struct SandboxProfile {
    pub provider: SandboxProviderKind,
    pub template: Option<String>,
}

/// Which sandbox provider to use.
#[derive(Debug, Clone, PartialEq, Eq)]
pub enum SandboxProviderKind {
    Local,
    Cube,
}

/// Events emitted during task execution.
#[derive(Debug, Clone, PartialEq, Eq)]
pub enum TaskEvent {
    TaskQueued { task_id: TaskId },
    SandboxCreating { provider: String },
    SandboxReady { sandbox_id: String },
    CommandStarted { command: String, cwd: String },
    Stdout { line: String },
    Stderr { line: String },
    ArtifactCreated { path: String, kind: String },
    TaskSucceeded,
    TaskFailed { error: String },
}

/// Health check response.
#[derive(Debug, Clone, PartialEq, Eq)]
pub struct HealthResponse {
    pub ok: bool,
    pub version: String,
}

} // verus!
