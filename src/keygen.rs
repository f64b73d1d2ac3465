//! Distributed key generation: six rounds over a roster, ending in a group.
use vstd::prelude::*;
use vstd::slice::slice_to_vec;
use crate::ceremony::{
    absent_matrix, accepted, advances, awaited_after, completes, finishes, result_cell, step_ok,
    envelope_fits, Ceremony, Progress,
};
use crate::group::{Group, ProtocolType};
use crate::roster::{ids_view, lemma_same_multiset_no_duplicates, sorted, sorted_copy};
use crate::status::{TaskError, TaskStatus, TaskType};
use crate::wire::{encode_keygen_init, keygen_init_bytes};

verus! {

/// The round whose completion ends key generation.
pub const LAST_ROUND_KEYGEN: u16 = 6;

/// The first-round payloads of key generation: each device learns its
/// index, the number of parties and the threshold.
pub open spec fn keygen_init_payloads(n: nat, threshold: nat) -> Seq<Seq<u8>> {
    Seq::new(n, |i: int| keygen_init_bytes(i as nat, n, threshold))
}

/// A key generation ceremony.
pub struct GG18Group {
    name: String,
    threshold: u32,
    state: Ceremony,
    result: Option<Vec<u8>>,
    failed: bool,
}

impl GG18Group {
    /// The rounds: roster, matrix, payloads and round counter.
    pub closed spec fn state(&self) -> Ceremony {
        self.state
    }

    pub closed spec fn name_view(&self) -> Seq<char> {
        self.name@
    }

    pub closed spec fn threshold_view(&self) -> u32 {
        self.threshold
    }

    /// The group public key, once the last round has delivered it.
    pub closed spec fn result_view(&self) -> Option<Seq<u8>> {
        match self.result {
            Some(v) => Some(v@),
            None => None,
        }
    }

    /// The last round completed without a result.
    pub closed spec fn failed_view(&self) -> bool {
        self.failed
    }

    pub open spec fn wf(&self) -> bool {
        &&& self.state().wf()
        &&& self.state().last_round() == LAST_ROUND_KEYGEN
    }

    /// Starts key generation over `ids` with the given threshold: the roster
    /// is sorted once, here, and each device is handed its init message.
    pub fn new(name: &str, ids: &[Vec<u8>], threshold: u32) -> (r: GG18Group)
        requires
            threshold <= ids@.len(),
            ids@.len() <= u32::MAX,
            ids_view(ids@).no_duplicates(),
        ensures
            r.wf(),
            sorted(r.state().roster()),
            r.state().roster().to_multiset() == ids_view(ids@).to_multiset(),
            r.state().cells() == absent_matrix(ids@.len()),
            r.state().outbound() == keygen_init_payloads(ids@.len(), threshold as nat),
            r.state().round() == 1,
            r.name_view() == name@,
            r.threshold_view() == threshold,
            r.result_view() is None,
            !r.failed_view(),
    {
        let sorted_ids = sorted_copy(ids);
        proof {
            lemma_same_multiset_no_duplicates(ids_view(ids@), sorted_ids.deep_view());
            assert(sorted_ids.deep_view().len() == sorted_ids@.len());
            ids_view(ids@).to_multiset_ensures();
            sorted_ids.deep_view().to_multiset_ensures();
        }
        let n = sorted_ids.len();
        let mut first: Vec<Vec<u8>> = Vec::new();
        for i in 0..n
            invariant
                n == ids@.len(),
                n <= u32::MAX,
                first@.len() == i,
                first.deep_view() == keygen_init_payloads(n as nat, threshold as nat).take(i as int),
        {
            let m = encode_keygen_init(i as u32, n as u32, threshold);
            let ghost before = first.deep_view();
            first.push(m);
            assert(first.deep_view()[i as int] =~= m@);
            assert(first.deep_view() =~= keygen_init_payloads(n as nat, threshold as nat).take(i + 1));
        }
        assert(first.deep_view() =~= keygen_init_payloads(n as nat, threshold as nat));
        GG18Group {
            name: name.to_owned(),
            threshold,
            state: Ceremony::new(sorted_ids, first, LAST_ROUND_KEYGEN),
            result: None,
            failed: false,
        }
    }

    /// The devices the current round waits for, in roster order.
    pub fn waiting_for(&self) -> (r: Vec<Vec<u8>>)
        requires
            self.wf(),
        ensures
            r.deep_view() == self.state().awaited(),
    {
        self.state.waiting_for()
    }

    /// The task's kind and what it reports: who is awaited, or the group
    /// public key once established, or the failure.
    pub fn get_status(&self) -> (r: (TaskType, TaskStatus))
        requires
            self.wf(),
        ensures
            r.0 == TaskType::GG18Group,
            self.result_view() is None && !self.failed_view() ==> (r.1 matches TaskStatus::Waiting(
                w,
            ) && w.deep_view() == self.state().awaited()),
            self.result_view() matches Some(pk) ==> (r.1 matches TaskStatus::KeysGenerated(k)
                && k@ == pk),
            self.result_view() is None && self.failed_view() ==> r.1 is Failed,
    {
        match &self.result {
            Some(pk) => (TaskType::GG18Group, TaskStatus::KeysGenerated(slice_to_vec(pk.as_slice()))),
            None => {
                if self.failed {
                    (
                        TaskType::GG18Group,
                        TaskStatus::Failed(slice_to_vec("Server did not receive a public key.".as_bytes())),
                    )
                } else {
                    (TaskType::GG18Group, TaskStatus::Waiting(self.waiting_for()))
                }
            },
        }
    }

    /// Takes a device's round message. Refusals change nothing. Completing
    /// the last round establishes the group, whose public key is the
    /// message of the first device to the second.
    pub fn update(&mut self, device_id: &[u8], data: &[u8]) -> (r: Result<TaskStatus, TaskError>)
        requires
            old(self).wf(),
        ensures
            final(self).wf(),
            step_ok(old(self).state(), final(self).state(), device_id@, data@),
            final(self).name_view() == old(self).name_view(),
            final(self).threshold_view() == old(self).threshold_view(),
            !finishes(old(self).state(), device_id@, data@) ==> final(self).result_view()
                == old(self).result_view() && final(self).failed_view() == old(self).failed_view(),
            !old(self).state().awaited().contains(device_id@) ==> r == Err::<TaskStatus, TaskError>(
                TaskError::NotAwaited,
            ),
            old(self).state().awaited().contains(device_id@) && !envelope_fits(
                data@,
                old(self).state().n(),
            ) ==> r == Err::<TaskStatus, TaskError>(TaskError::DecodeError),
            accepted(old(self).state(), device_id@, data@) && !completes(
                old(self).state(),
                device_id@,
                data@,
            ) ==> (r matches Ok(TaskStatus::Waiting(w)) && w.deep_view() == awaited_after(
                old(self).state(),
                device_id@,
                data@,
            )),
            advances(old(self).state(), device_id@, data@) ==> (r matches Ok(
                TaskStatus::Waiting(w),
            ) && w.deep_view() == old(self).state().roster()),
            finishes(old(self).state(), device_id@, data@) && old(self).state().n() >= 2 ==> ({
                let pk = result_cell(old(self).state(), device_id@, data@);
                &&& r matches Ok(TaskStatus::GroupEstablished(g)) && g.identifier_view() == pk
                    && g.name_view() == old(self).name_view() && g.devices_view() == old(self).state().roster() && g.threshold_view() == old(self).threshold_view()
                    && g.protocol_view() == ProtocolType::GG18
                &&& final(self).result_view() == Some(pk)
            }),
            finishes(old(self).state(), device_id@, data@) && old(self).state().n() < 2 ==> r
                == Err::<TaskStatus, TaskError>(TaskError::IncompleteResult) && final(self).failed_view(),
    {
        match self.state.submit(device_id, data) {
            Err(e) => {
                if e == TaskError::IncompleteResult {
                    self.failed = true;
                }
                Err(e)
            },
            Ok(Progress::Waiting(w)) => Ok(TaskStatus::Waiting(w)),
            Ok(Progress::Complete(pk)) => {
                self.result = Some(slice_to_vec(pk.as_slice()));
                let group = Group::new(
                    pk,
                    self.name.clone(),
                    self.state.roster_ids(),
                    self.threshold,
                    ProtocolType::GG18,
                );
                Ok(TaskStatus::GroupEstablished(group))
            },
        }
    }

    /// The payload for `device_id`, while the current round awaits it.
    pub fn get_work(&self, device_id: &[u8]) -> (r: Option<Vec<u8>>)
        requires
            self.wf(),
        ensures
            match r {
                Some(w) => self.state().awaited().contains(device_id@) && w@ == self.state().outbound()[self.state().roster().index_of(device_id@)],
                None => !self.state().awaited().contains(device_id@),
            },
    {
        self.state.work_for(device_id)
    }

    /// Whether `device_id` is in the roster.
    pub fn has_device(&self, device_id: &[u8]) -> (r: bool)
        ensures
            r == self.state().roster().contains(device_id@),
    {
        self.state.has_device(device_id)
    }
}

} // verus!
