//! The uniform surface the hosting server drives: one ceremony of either
//! kind behind the same four operations.
use vstd::prelude::*;
use crate::ceremony::{
    accepted, advances, awaited_after, completes, envelope_fits, finishes, result_cell, step_ok,
    Ceremony,
};
use crate::keygen::GG18Group;
use crate::sign::GG18Sign;
use crate::status::{TaskError, TaskStatus, TaskType};

verus! {

/// A ceremony in progress: key generation or signing.
pub enum Task {
    GG18Group(GG18Group),
    GG18Sign(GG18Sign),
}

impl Task {
    pub open spec fn wf(&self) -> bool {
        match self {
            Task::GG18Group(t) => t.wf(),
            Task::GG18Sign(t) => t.wf(),
        }
    }

    /// The rounds of the ceremony.
    pub open spec fn state(&self) -> Ceremony {
        match self {
            Task::GG18Group(t) => t.state(),
            Task::GG18Sign(t) => t.state(),
        }
    }

    /// The kind of ceremony.
    pub open spec fn kind(&self) -> TaskType {
        match self {
            Task::GG18Group(_) => TaskType::GG18Group,
            Task::GG18Sign(_) => TaskType::Sign,
        }
    }

    /// The task's kind and what it reports.
    pub fn get_status(&self) -> (r: (TaskType, TaskStatus))
        requires
            self.wf(),
        ensures
            r.0 == self.kind(),
            match self {
                Task::GG18Group(t) => t.result_view() is None && !t.failed_view(),
                Task::GG18Sign(t) => t.result_view() is None && !t.failed_view(),
            } ==> (r.1 matches TaskStatus::Waiting(w) && w.deep_view() == self.state().awaited()),
    {
        match self {
            Task::GG18Group(t) => t.get_status(),
            Task::GG18Sign(t) => t.get_status(),
        }
    }

    /// Takes a device's round message; see the two kinds for the result of
    /// a completed last round.
    pub fn update(&mut self, device_id: &[u8], data: &[u8]) -> (r: Result<TaskStatus, TaskError>)
        requires
            old(self).wf(),
        ensures
            final(self).wf(),
            final(self).kind() == old(self).kind(),
            step_ok(old(self).state(), final(self).state(), device_id@, data@),
            !old(self).state().awaited().contains(device_id@) ==> r == Err::<TaskStatus, TaskError>(
                TaskError::NotAwaited,
            ),
            old(self).state().awaited().contains(device_id@) && !envelope_fits(
                data@,
                old(self).state().n(),
            ) ==> r == Err::<TaskStatus, TaskError>(TaskError::DecodeError),
            accepted(old(self).state(), device_id@, data@) && !completes(
                old(self).state(),
                device_id@,
                data@,
            ) ==> (r matches Ok(TaskStatus::Waiting(w)) && w.deep_view() == awaited_after(
                old(self).state(),
                device_id@,
                data@,
            )),
            advances(old(self).state(), device_id@, data@) ==> (r matches Ok(
                TaskStatus::Waiting(w),
            ) && w.deep_view() == old(self).state().roster()),
            finishes(old(self).state(), device_id@, data@) && old(self).state().n() >= 2 ==> (
            match r {
                Ok(TaskStatus::GroupEstablished(g)) => old(self).kind() == TaskType::GG18Group
                    && g.identifier_view() == result_cell(old(self).state(), device_id@, data@),
                Ok(TaskStatus::Signed(s)) => old(self).kind() == TaskType::Sign && s@
                    == result_cell(old(self).state(), device_id@, data@),
                _ => false,
            }),
            finishes(old(self).state(), device_id@, data@) && old(self).state().n() < 2 ==> r
                == Err::<TaskStatus, TaskError>(TaskError::IncompleteResult),
    {
        match self {
            Task::GG18Group(t) => t.update(device_id, data),
            Task::GG18Sign(t) => t.update(device_id, data),
        }
    }

    /// The payload for `device_id`, while the current round awaits it.
    pub fn get_work(&self, device_id: &[u8]) -> (r: Option<Vec<u8>>)
        requires
            self.wf(),
        ensures
            match r {
                Some(w) => self.state().awaited().contains(device_id@) && w@ == self.state().outbound()[self.state().roster().index_of(device_id@)],
                None => !self.state().awaited().contains(device_id@),
            },
    {
        match self {
            Task::GG18Group(t) => t.get_work(device_id),
            Task::GG18Sign(t) => t.get_work(device_id),
        }
    }

    /// Whether `device_id` is in the roster.
    pub fn has_device(&self, device_id: &[u8]) -> (r: bool)
        ensures
            r == self.state().roster().contains(device_id@),
    {
        match self {
            Task::GG18Group(t) => t.has_device(device_id),
            Task::GG18Sign(t) => t.has_device(device_id),
        }
    }
}

} // verus!
