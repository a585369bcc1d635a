//! The service that keeps the program running.

use crate::error::AppError;
use crate::paths::{join, joined, parent, parent_of};
use vstd::prelude::*;

verus! {

/// The program as the service sees it.
#[derive(Clone, Copy, PartialEq, Eq, Structural, Debug)]
pub enum ChildState {
    NotStarted,
    Running,
    Exited,
}

/// What the service does next.
#[derive(Clone, Copy, PartialEq, Eq, Structural, Debug)]
pub enum ServiceStep {
    /// Start the program, then wait.
    Start,
    /// Wait.
    Wait,
    /// Kill the program and end.
    Kill,
    /// End.
    End,
}

/// What the service does: it keeps the program running until it is told to stop,
/// and then leaves nothing running.
pub fn supervise(keep_running: bool, child: ChildState) -> (r: ServiceStep)
    ensures
        r == if keep_running {
            if child == ChildState::Running {
                ServiceStep::Wait
            } else {
                ServiceStep::Start
            }
        } else if child == ChildState::Running {
            ServiceStep::Kill
        } else {
            ServiceStep::End
        },
{
    if keep_running {
        match child {
            ChildState::Running => ServiceStep::Wait,
            ChildState::NotStarted => ServiceStep::Start,
            ChildState::Exited => ServiceStep::Start,
        }
    } else {
        match child {
            ChildState::Running => ServiceStep::Kill,
            ChildState::NotStarted => ServiceStep::End,
            ChildState::Exited => ServiceStep::End,
        }
    }
}

/// The program that the service keeps running: it lies beside the service.
pub fn target_exe(service_exe: &str) -> (r: Result<String, AppError>)
    ensures
        match parent_of(service_exe@) {
            Some(dir) => r is Ok && r->Ok_0@ == joined(dir, "oxide_seeker.exe"@),
            None => r is Err && r->Err_0 is Other && r->Err_0->Other_0@
                == "无法获取服务程序所在目录"@,
        },
{
    match parent(service_exe) {
        Some(dir) => Ok(join(dir.as_str(), "oxide_seeker.exe")),
        None => Err(AppError::Other("无法获取服务程序所在目录".to_owned())),
    }
}

/// The program lies in the directory of the service: where that is `dir`, under its own
/// name.
pub proof fn the_program_lies_beside_the_service(
    service_exe: &str,
    dir: Option<String>,
    r: Result<String, AppError>,
)
    requires
        call_ensures(parent, (service_exe,), dir),
        call_ensures(target_exe, (service_exe,), r),
    ensures
        r is Ok <==> dir is Some,
        dir is Some && dir->Some_0@.len() > 2 && dir->Some_0@.last() != '/' && dir->Some_0@.last()
            != '\\' ==> r->Ok_0@ == dir->Some_0@ + "/oxide_seeker.exe"@,
        dir is Some && dir->Some_0@.len() > 0 && (dir->Some_0@.last() == '/' || dir->Some_0@.last()
            == '\\') ==> r->Ok_0@ == dir->Some_0@ + "oxide_seeker.exe"@,
{
    reveal_strlit("oxide_seeker.exe");
    reveal_strlit("/oxide_seeker.exe");
    if dir is Some {
        let d = dir->Some_0@;
        assert(d.push('/') + "oxide_seeker.exe"@ =~= d + "/oxide_seeker.exe"@);
    }
}

/// The service never ends or waits with the program in the wrong state: while it is to
/// run, the program is started unless it runs; afterwards it is killed if it runs.
pub proof fn the_program_runs_exactly_while_it_is_wanted(
    keep_running: bool,
    child: ChildState,
    r: ServiceStep,
)
    requires
        call_ensures(supervise, (keep_running, child), r),
    ensures
        r == ServiceStep::Wait <==> keep_running && child == ChildState::Running,
        r == ServiceStep::Start <==> keep_running && child != ChildState::Running,
        r == ServiceStep::Kill <==> !keep_running && child == ChildState::Running,
        r == ServiceStep::End <==> !keep_running && child != ChildState::Running,
{
}

} // verus!
