//! Threshold signing: ten rounds over an established group, ending in a
//! signature of a digest.
use vstd::prelude::*;
use vstd::slice::slice_to_vec;
use crate::ceremony::{
    absent_matrix, accepted, advances, awaited_after, completes, finishes, result_cell, step_ok,
    envelope_fits, Ceremony, Progress,
};
use crate::group::Group;
use crate::roster::{index_of, lemma_same_multiset_no_duplicates, sorted, sorted_copy};
use crate::status::{TaskError, TaskStatus, TaskType};
use crate::wire::{encode_sign_init, sign_init_bytes};

verus! {

/// The round whose completion ends signing.
pub const LAST_ROUND_SIGN: u16 = 10;

/// The indices of the signing devices: every member of the group.
pub open spec fn all_indices(n: nat) -> Seq<u32> {
    Seq::new(n, |k: int| k as u32)
}

/// The first-round payloads of signing: each device learns who signs, its
/// own index and the digest.
pub open spec fn sign_init_payloads(n: nat, hash: Seq<u8>) -> Seq<Seq<u8>> {
    Seq::new(n, |i: int| sign_init_bytes(all_indices(n), i as nat, hash))
}

/// A signing ceremony.
pub struct GG18Sign {
    state: Ceremony,
    result: Option<Vec<u8>>,
    failed: bool,
}

impl GG18Sign {
    /// The rounds: roster, matrix, payloads and round counter.
    pub closed spec fn state(&self) -> Ceremony {
        self.state
    }

    /// The signature, once the last round has delivered it.
    pub closed spec fn result_view(&self) -> Option<Seq<u8>> {
        match self.result {
            Some(v) => Some(v@),
            None => None,
        }
    }

    /// The last round completed without a result.
    pub closed spec fn failed_view(&self) -> bool {
        self.failed
    }

    pub open spec fn wf(&self) -> bool {
        &&& self.state().wf()
        &&& self.state().last_round() == LAST_ROUND_SIGN
    }

    /// Starts signing the digest `data` with every member of `group`, in
    /// sorted order; each device is handed its init message.
    pub fn new(group: Group, data: Vec<u8>) -> (r: GG18Sign)
        requires
            group.devices_view().no_duplicates(),
            group.devices_view().len() <= u32::MAX,
        ensures
            r.wf(),
            sorted(r.state().roster()),
            r.state().roster().to_multiset() == group.devices_view().to_multiset(),
            r.state().cells() == absent_matrix(group.devices_view().len()),
            r.state().outbound() == sign_init_payloads(group.devices_view().len(), data@),
            r.state().round() == 1,
            r.result_view() is None,
            !r.failed_view(),
    {
        let devices = group.devices();
        assert forall|i: int| 0 <= i < devices@.len() implies #[trigger] devices.deep_view()[i]
            == crate::roster::ids_view(devices@)[i] by {
            assert(devices.deep_view()[i] =~= devices@[i]@);
        }
        assert(crate::roster::ids_view(devices@) =~= devices.deep_view());
        let all_ids = sorted_copy(devices.as_slice());
        proof {
            lemma_same_multiset_no_duplicates(devices.deep_view(), all_ids.deep_view());
            devices.deep_view().to_multiset_ensures();
            all_ids.deep_view().to_multiset_ensures();
        }
        let n = all_ids.len();
        let mut indices: Vec<u32> = Vec::new();
        for i in 0..n
            invariant
                n == all_ids@.len(),
                n <= u32::MAX,
                all_ids.deep_view().no_duplicates(),
                indices@ == all_indices(n as nat).take(i as int),
        {
            assert(all_ids.deep_view()[i as int] =~= all_ids@[i as int]@);
            let p: u32 = match index_of(&all_ids, all_ids[i].as_slice()) {
                Some(p) => p as u32,
                None => 0,
            };
            assert(p == i);
            indices.push(p);
            assert(indices@ =~= all_indices(n as nat).take(i + 1));
        }
        assert(indices@ =~= all_indices(n as nat));
        let mut first: Vec<Vec<u8>> = Vec::new();
        for i in 0..n
            invariant
                n == all_ids@.len(),
                n <= u32::MAX,
                indices@ == all_indices(n as nat),
                first@.len() == i,
                first.deep_view() == sign_init_payloads(n as nat, data@).take(i as int),
        {
            let m = encode_sign_init(&indices, i as u32, &data);
            first.push(m);
            assert(first.deep_view()[i as int] =~= m@);
            assert(first.deep_view() =~= sign_init_payloads(n as nat, data@).take(i + 1));
        }
        assert(first.deep_view() =~= sign_init_payloads(n as nat, data@));
        GG18Sign {
            state: Ceremony::new(all_ids, first, LAST_ROUND_SIGN),
            result: None,
            failed: false,
        }
    }

    /// The devices the current round waits for, in roster order.
    pub fn waiting_for(&self) -> (r: Vec<Vec<u8>>)
        requires
            self.wf(),
        ensures
            r.deep_view() == self.state().awaited(),
    {
        self.state.waiting_for()
    }

    /// The task's kind and what it reports: who is awaited, or the
    /// signature once made, or the failure.
    pub fn get_status(&self) -> (r: (TaskType, TaskStatus))
        requires
            self.wf(),
        ensures
            r.0 == TaskType::Sign,
            self.result_view() is None && !self.failed_view() ==> (r.1 matches TaskStatus::Waiting(
                w,
            ) && w.deep_view() == self.state().awaited()),
            self.result_view() matches Some(sig) ==> (r.1 matches TaskStatus::Signed(k) && k@
                == sig),
            self.result_view() is None && self.failed_view() ==> r.1 is Failed,
    {
        match &self.result {
            Some(sig) => (TaskType::Sign, TaskStatus::Signed(slice_to_vec(sig.as_slice()))),
            None => {
                if self.failed {
                    (
                        TaskType::Sign,
                        TaskStatus::Failed(slice_to_vec("Server did not receive a signature.".as_bytes())),
                    )
                } else {
                    (TaskType::Sign, TaskStatus::Waiting(self.waiting_for()))
                }
            },
        }
    }

    /// Takes a device's round message. Refusals change nothing. Completing
    /// the last round yields the signature, the message of the first device
    /// to the second.
    pub fn update(&mut self, device_id: &[u8], data: &[u8]) -> (r: Result<TaskStatus, TaskError>)
        requires
            old(self).wf(),
        ensures
            final(self).wf(),
            step_ok(old(self).state(), final(self).state(), device_id@, data@),
            !finishes(old(self).state(), device_id@, data@) ==> final(self).result_view()
                == old(self).result_view() && final(self).failed_view() == old(self).failed_view(),
            !old(self).state().awaited().contains(device_id@) ==> r == Err::<TaskStatus, TaskError>(
                TaskError::NotAwaited,
            ),
            old(self).state().awaited().contains(device_id@) && !envelope_fits(
                data@,
                old(self).state().n(),
            ) ==> r == Err::<TaskStatus, TaskError>(TaskError::DecodeError),
            accepted(old(self).state(), device_id@, data@) && !completes(
                old(self).state(),
                device_id@,
                data@,
            ) ==> (r matches Ok(TaskStatus::Waiting(w)) && w.deep_view() == awaited_after(
                old(self).state(),
                device_id@,
                data@,
            )),
            advances(old(self).state(), device_id@, data@) ==> (r matches Ok(
                TaskStatus::Waiting(w),
            ) && w.deep_view() == old(self).state().roster()),
            finishes(old(self).state(), device_id@, data@) && old(self).state().n() >= 2 ==> ({
                let sig = result_cell(old(self).state(), device_id@, data@);
                &&& r matches Ok(TaskStatus::Signed(s)) && s@ == sig
                &&& final(self).result_view() == Some(sig)
            }),
            finishes(old(self).state(), device_id@, data@) && old(self).state().n() < 2 ==> r
                == Err::<TaskStatus, TaskError>(TaskError::IncompleteResult) && final(self).failed_view(),
    {
        match self.state.submit(device_id, data) {
            Err(e) => {
                if e == TaskError::IncompleteResult {
                    self.failed = true;
                }
                Err(e)
            },
            Ok(Progress::Waiting(w)) => Ok(TaskStatus::Waiting(w)),
            Ok(Progress::Complete(sig)) => {
                self.result = Some(slice_to_vec(sig.as_slice()));
                Ok(TaskStatus::Signed(sig))
            },
        }
    }

    /// The payload for `device_id`, while the current round awaits it.
    pub fn get_work(&self, device_id: &[u8]) -> (r: Option<Vec<u8>>)
        requires
            self.wf(),
        ensures
            match r {
                Some(w) => self.state().awaited().contains(device_id@) && w@ == self.state().outbound()[self.state().roster().index_of(device_id@)],
                None => !self.state().awaited().contains(device_id@),
            },
    {
        self.state.work_for(device_id)
    }

    /// Whether `device_id` is in the roster.
    pub fn has_device(&self, device_id: &[u8]) -> (r: bool)
        ensures
            r == self.state().roster().contains(device_id@),
    {
        self.state.has_device(device_id)
    }
}

} // verus!
