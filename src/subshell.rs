//! Builder for starting subshells.

use vstd::prelude::*;

verus! {

/// Job state of a newly created subshell.
#[derive(Clone, Copy, Debug, Eq, PartialEq)]
pub enum JobControl {
    /// The subshell becomes the foreground process group.
    Foreground,
    /// The subshell becomes a background process group.
    Background,
}

/// Subshell builder: the task to run in a subshell and its job control
/// disposition.
pub struct Subshell<F> {
    task: F,
    job_control: Option<JobControl>,
}

impl<F> Subshell<F> {
    /// The task the subshell will run.
    pub closed spec fn spec_task(&self) -> F {
        self.task
    }

    /// The job control disposition of the subshell.
    pub closed spec fn spec_job_control(&self) -> Option<JobControl> {
        self.job_control
    }

    /// Creates a new subshell builder with a task and no job control.
    pub fn new(task: F) -> (r: Self)
        ensures
            r.spec_task() == task,
            r.spec_job_control() is None,
    {
        Subshell { task, job_control: None }
    }

    /// Specifies disposition of the subshell with respect to job control.
    ///
    /// With `None` the subshell runs in the same process group as the parent;
    /// with `Some(_)` it becomes a new process group, in the foreground for
    /// `JobControl::Foreground`.
    pub fn job_control(self, job_control: Option<JobControl>) -> (r: Self)
        ensures
            r.spec_task() == self.spec_task(),
            r.spec_job_control() == job_control,
    {
        Subshell { task: self.task, job_control }
    }

    /// Returns the job control disposition.
    pub fn get_job_control(&self) -> (r: Option<JobControl>)
        ensures
            r == self.spec_job_control(),
    {
        self.job_control
    }

    /// Returns the task, consuming the builder.
    pub fn into_task(self) -> (r: F)
        ensures
            r == self.spec_task(),
    {
        self.task
    }
}

} // verus!
