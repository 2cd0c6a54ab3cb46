//! Sandbox execution environments: the requests and results exchanged with
//! a provider, and the parts of the local and Cube providers that decide
//! rather than execute.

use vstd::prelude::*;

use crate::text::{decode_lossy, is_ascii_bytes, lossy_utf8};

verus! {

/// Request to create a new sandbox.
#[derive(Debug, Clone, PartialEq, Eq)]
pub struct CreateSandboxRequest {
    pub template: Option<String>,
}

/// Handle to a running sandbox.
#[derive(Debug, Clone, PartialEq, Eq)]
pub struct SandboxHandle {
    pub id: String,
}

/// Request to run a command inside a sandbox.
#[derive(Debug, Clone, PartialEq, Eq)]
pub struct RunCommandRequest {
    pub command: String,
    pub cwd: Option<String>,
}

/// Result of a command execution.
#[derive(Debug, Clone, PartialEq, Eq)]
pub struct CommandResult {
    pub exit_code: i32,
    pub stdout: String,
    pub stderr: String,
}

/// Configuration for the CubeSandbox provider.
#[derive(Debug, Clone, PartialEq, Eq)]
pub struct CubeConfig {
    pub endpoint: String,
    pub api_key: String,
    pub template: String,
}

/// A sandbox provider that delegates to a CubeSandbox service. Its
/// operations are not implemented yet and fail with
/// [`cube_not_implemented_message`].
#[derive(Debug, Clone, PartialEq, Eq)]
pub struct CubeSandboxProvider {
    pub config: CubeConfig,
}

impl CubeSandboxProvider {
    /// A provider for the given service configuration.
    pub fn new(config: CubeConfig) -> (r: Self)
        ensures
            r.config == config,
    {
        CubeSandboxProvider { config }
    }
}

/// The error every CubeSandbox operation currently fails with.
pub fn cube_not_implemented_message() -> (r: String)
    ensures
        r@ == "cube_provider_not_implemented: CubeSandbox integration is pending"@,
{
    String::from_str("cube_provider_not_implemented: CubeSandbox integration is pending")
}

/// A sandbox provider that runs commands on this machine.
#[derive(Debug, Clone, Copy, PartialEq, Eq)]
pub struct LocalSandboxProvider;

/// The handle of the local sandbox: there is only one, `local`.
pub fn local_sandbox_handle() -> (r: SandboxHandle)
    ensures
        r.id@ == "local"@,
{
    SandboxHandle { id: String::from_str("local") }
}

/// Program and arguments that run `command` through the platform shell:
/// `cmd /C` on Windows, `sh -c` elsewhere.
pub fn shell_invocation(command: &str, windows: bool) -> (r: (String, Vec<String>))
    ensures
        r.0@ == (if windows {
            "cmd"@
        } else {
            "sh"@
        }),
        r.1@.len() == 2,
        r.1@[0]@ == (if windows {
            "/C"@
        } else {
            "-c"@
        }),
        r.1@[1]@ == command@,
{
    let mut args: Vec<String> = Vec::new();
    if windows {
        args.push(String::from_str("/C"));
        args.push(String::from_str(command));
        (String::from_str("cmd"), args)
    } else {
        args.push(String::from_str("-c"));
        args.push(String::from_str(command));
        (String::from_str("sh"), args)
    }
}

/// The result of a finished command: its exit code, or -1 when it was
/// ended by a signal, and its output decoded as UTF-8 (invalid sequences
/// replaced).
pub fn command_result(code: Option<i32>, stdout: &[u8], stderr: &[u8]) -> (r: CommandResult)
    ensures
        r.exit_code == (match code {
            Some(c) => c,
            None => -1i32,
        }),
        r.stdout@ == lossy_utf8(stdout@),
        r.stderr@ == lossy_utf8(stderr@),
        is_ascii_bytes(stdout@) ==> r.stdout@ == stdout@.map_values(|b: u8| b as char),
        is_ascii_bytes(stderr@) ==> r.stderr@ == stderr@.map_values(|b: u8| b as char),
{
    CommandResult {
        exit_code: match code {
            Some(c) => c,
            None => -1,
        },
        stdout: decode_lossy(stdout),
        stderr: decode_lossy(stderr),
    }
}

} // verus!
