//! The round engine shared by key generation and signing: the matrix of
//! round messages, the readiness query, and the relay that turns a complete
//! round into the next round's payloads.
use vstd::prelude::*;
use vstd::slice::slice_to_vec;
use crate::roster::{contains_id, index_of, sorted};
use crate::status::TaskError;
use crate::wire::{decode_envelope, encode_envelope, envelope_bytes, parse_envelope};

verus! {

/// A row of the matrix: what one sender sent to each recipient.
pub type RowView = Seq<Option<Seq<u8>>>;

/// The matrix of round messages, indexed by (sender, recipient).
pub type CellsView = Seq<RowView>;

/// No cell of the row holds a message.
pub open spec fn row_absent(row: RowView) -> bool {
    forall|j: int| 0 <= j < row.len() ==> #[trigger] row[j] is None
}

/// The row of sender `i` of an `n`-device round: either still absent, or
/// filled, with a message for every recipient but `i` itself.
pub open spec fn row_ok(row: RowView, i: int, n: nat) -> bool {
    &&& row.len() == n
    &&& row_absent(row) || forall|j: int| 0 <= j < n ==> (#[trigger] row[j] is None <==> j == i)
}

/// The devices among the first `k` of the roster whose rows are absent, in
/// roster order.
pub open spec fn awaited_in(ids: Seq<Seq<u8>>, cells: CellsView, k: int) -> Seq<Seq<u8>>
    decreases k,
{
    if k <= 0 {
        seq![]
    } else {
        let p = awaited_in(ids, cells, k - 1);
        if row_absent(cells[k - 1]) {
            p.push(ids[k - 1])
        } else {
            p
        }
    }
}

/// The row that sender `i` fills with `ms`, its messages to every other
/// device in roster order: its own cell stays absent.
pub open spec fn filled_row(ms: Seq<Seq<u8>>, i: int) -> RowView {
    Seq::new(
        ms.len() + 1,
        |j: int|
            if j == i {
                None
            } else if j < i {
                Some(ms[j])
            } else {
                Some(ms[j - 1])
            },
    )
}

/// The sender whose message stands at position `p` of recipient `k`'s
/// payload: the roster, with `k` itself left out.
pub open spec fn sender(k: int, p: int) -> int {
    if p < k {
        p
    } else {
        p + 1
    }
}

/// The bytes of a cell, empty where it is absent.
pub open spec fn cell_bytes(c: Option<Seq<u8>>) -> Seq<u8> {
    match c {
        Some(b) => b,
        None => seq![],
    }
}

/// What recipient `k` receives from a complete round: the message of every
/// other sender to it, in roster order.
pub open spec fn route(cells: CellsView, n: nat, k: int) -> Seq<Seq<u8>> {
    Seq::new((n - 1) as nat, |p: int| cell_bytes(cells[sender(k, p)][k]))
}

/// The next round's payload of each device.
pub open spec fn routed_payloads(cells: CellsView, n: nat) -> Seq<Seq<u8>> {
    Seq::new(n, |k: int| envelope_bytes(route(cells, n, k)))
}

/// The all-absent matrix of an `n`-device round.
pub open spec fn absent_matrix(n: nat) -> CellsView {
    Seq::new(n, |i: int| Seq::new(n, |j: int| None))
}

/// `data` is a round envelope with one message for each of the other
/// `n - 1` devices.
pub open spec fn envelope_fits(data: Seq<u8>, n: nat) -> bool {
    parse_envelope(data) matches Some(ms) && ms.len() + 1 == n
}

/// The matrix once device `i` has filled its row from `data`.
pub open spec fn cells_after(cells: CellsView, i: int, data: Seq<u8>) -> CellsView {
    cells.update(i, filled_row(parse_envelope(data).unwrap(), i))
}

/// Membership in the awaited list: a device is awaited exactly when some
/// roster position holding it has an absent row.
pub proof fn lemma_awaited_members(ids: Seq<Seq<u8>>, cells: CellsView, k: int, x: Seq<u8>)
    requires
        0 <= k <= ids.len(),
        k <= cells.len(),
    ensures
        awaited_in(ids, cells, k).contains(x) <==> exists|i: int|
            0 <= i < k && ids[i] == x && row_absent(#[trigger] cells[i]),
        awaited_in(ids, cells, k).len() <= k,
    decreases k,
{
    if k > 0 {
        lemma_awaited_members(ids, cells, k - 1, x);
        let p = awaited_in(ids, cells, k - 1);
        if row_absent(cells[k - 1]) {
            assert(p.push(ids[k - 1])[p.len() as int] == ids[k - 1]);
            if p.push(ids[k - 1]).contains(x) {
                let j = choose|j: int| 0 <= j < p.len() + 1 && #[trigger] p.push(ids[k - 1])[j] == x;
                if j < p.len() {
                    assert(p[j] == x);
                }
            }
            if exists|i: int| 0 <= i < k && ids[i] == x && row_absent(#[trigger] cells[i]) {
                let i = choose|i: int| 0 <= i < k && ids[i] == x && row_absent(#[trigger] cells[i]);
                if i < k - 1 {
                    let j = choose|j: int| 0 <= j < p.len() && #[trigger] p[j] == x;
                    assert(p.push(ids[k - 1])[j] == x);
                }
            }
        }
    }
}

/// In an all-absent matrix every device is awaited.
pub proof fn lemma_awaited_all(ids: Seq<Seq<u8>>, n: nat, k: int)
    requires
        0 <= k <= n,
        ids.len() == n,
    ensures
        awaited_in(ids, absent_matrix(n), k) == ids.take(k),
    decreases k,
{
    if k > 0 {
        lemma_awaited_all(ids, n, k - 1);
        assert(row_absent(absent_matrix(n)[k - 1]));
        assert(ids.take(k - 1).push(ids[k - 1]) =~= ids.take(k));
    } else {
        assert(ids.take(0) =~= Seq::<Seq<u8>>::empty());
    }
}

/// Filling an absent row removes exactly one device from the awaited list.
pub proof fn lemma_fill_shrinks(ids: Seq<Seq<u8>>, cells: CellsView, i: int, row: RowView, k: int)
    requires
        0 <= i < cells.len(),
        0 <= k <= ids.len(),
        k <= cells.len(),
        row_absent(cells[i]),
        !row_absent(row),
    ensures
        awaited_in(ids, cells.update(i, row), k).len() + (if k > i { 1int } else { 0 })
            == awaited_in(ids, cells, k).len(),
    decreases k,
{
    if k > 0 {
        lemma_fill_shrinks(ids, cells, i, row, k - 1);
    }
}

/// A filled row of a round of two or more devices is not absent.
pub proof fn lemma_filled_not_absent(ms: Seq<Seq<u8>>, i: int)
    requires
        0 <= i <= ms.len(),
        ms.len() >= 1,
    ensures
        !row_absent(filled_row(ms, i)),
{
    let j: int = if i == 0 { 1 } else { 0 };
    assert(filled_row(ms, i)[j] is Some);
}

/// What a submission that was taken led to.
#[derive(Debug)]
pub enum Progress {
    /// The ceremony goes on; these devices are awaited, in roster order.
    Waiting(Vec<Vec<u8>>),
    /// The last round completed; this is the cell that carries the result.
    Complete(Vec<u8>),
}

/// The state of one ceremony: its roster, the current round's matrix, the
/// payload each device is handed next, and the round counter.
pub struct Ceremony {
    sorted_ids: Vec<Vec<u8>>,
    messages_in: Vec<Vec<Option<Vec<u8>>>>,
    messages_out: Vec<Vec<u8>>,
    round: u16,
    last_round: u16,
}

impl Ceremony {
    /// The sorted roster: the index space of every round.
    pub closed spec fn roster(&self) -> Seq<Seq<u8>> {
        self.sorted_ids.deep_view()
    }

    /// The current round's matrix.
    pub closed spec fn cells(&self) -> CellsView {
        self.messages_in.deep_view()
    }

    /// The payload each device is handed when it asks for work.
    pub closed spec fn outbound(&self) -> Seq<Seq<u8>> {
        self.messages_out.deep_view()
    }

    pub closed spec fn round(&self) -> nat {
        self.round as nat
    }

    pub closed spec fn last_round(&self) -> nat {
        self.last_round as nat
    }

    pub open spec fn n(&self) -> nat {
        self.roster().len()
    }

    /// The devices the current round waits for, in roster order.
    pub open spec fn awaited(&self) -> Seq<Seq<u8>> {
        awaited_in(self.roster(), self.cells(), self.n() as int)
    }

    /// The roster is sorted and free of repeats; the matrix is square, each
    /// row absent or filled; the round lies between the first and the last.
    pub open spec fn wf(&self) -> bool {
        &&& sorted(self.roster())
        &&& self.roster().no_duplicates()
        &&& self.cells().len() == self.n()
        &&& forall|i: int| 0 <= i < self.n() ==> row_ok(#[trigger] self.cells()[i], i, self.n())
        &&& self.outbound().len() == self.n()
        &&& 1 <= self.round() <= self.last_round()
    }

    /// Starts round one over a sorted roster, each device to be handed its
    /// entry of `first`.
    pub fn new(ids: Vec<Vec<u8>>, first: Vec<Vec<u8>>, last_round: u16) -> (r: Ceremony)
        requires
            sorted(ids.deep_view()),
            ids.deep_view().no_duplicates(),
            first@.len() == ids@.len(),
            last_round >= 1,
        ensures
            r.wf(),
            r.roster() == ids.deep_view(),
            r.cells() == absent_matrix(ids@.len()),
            r.outbound() == first.deep_view(),
            r.round() == 1,
            r.last_round() == last_round,
    {
        let messages_in = absent_rows(ids.len());
        let r = Ceremony { sorted_ids: ids, messages_in, messages_out: first, round: 1, last_round };
        assert forall|i: int| 0 <= i < r.n() implies row_ok(#[trigger] r.cells()[i], i, r.n()) by {
            assert(row_absent(absent_matrix(r.n())[i]));
        }
        r
    }

    /// The devices the current round waits for, in roster order: those whose
    /// whole row is absent.
    pub fn waiting_for(&self) -> (r: Vec<Vec<u8>>)
        requires
            self.wf(),
        ensures
            r.deep_view() == self.awaited(),
    {
        let n = self.sorted_ids.len();
        let mut out: Vec<Vec<u8>> = Vec::new();
        for i in 0..n
            invariant
                n == self.n(),
                self.wf(),
                out.deep_view() == awaited_in(self.roster(), self.cells(), i as int),
        {
            let row = &self.messages_in[i];
            let mut absent = true;
            for j in 0..row.len()
                invariant
                    n == self.n(),
                    i < n,
                    self.wf(),
                    row.deep_view() == self.cells()[i as int],
                    absent == forall|m: int| 0 <= m < j ==> #[trigger] self.cells()[i as int][m] is None,
            {
                assert(row.deep_view()[j as int] is None <==> row@[j as int] is None);
                if row[j].is_some() {
                    absent = false;
                }
            }
            if absent {
                let ghost before = out.deep_view();
                out.push(slice_to_vec(self.sorted_ids[i].as_slice()));
                assert(out.deep_view() =~= before.push(self.roster()[i as int]));
            }
        }
        out
    }

    /// The roster position of `device_id`.
    pub fn id_to_index(&self, device_id: &[u8]) -> (r: Option<usize>)
        requires
            self.wf(),
        ensures
            match r {
                Some(i) => i < self.n() && self.roster()[i as int] == device_id@,
                None => !self.roster().contains(device_id@),
            },
    {
        index_of(&self.sorted_ids, device_id)
    }

    /// Whether `device_id` is in the roster.
    pub fn has_device(&self, device_id: &[u8]) -> (r: bool)
        ensures
            r == self.roster().contains(device_id@),
    {
        contains_id(&self.sorted_ids, device_id)
    }

    /// The payload for `device_id`, while the current round awaits it.
    pub fn work_for(&self, device_id: &[u8]) -> (r: Option<Vec<u8>>)
        requires
            self.wf(),
        ensures
            match r {
                Some(w) => self.awaited().contains(device_id@) && w@ == self.outbound()[self.roster().index_of(device_id@)],
                None => !self.awaited().contains(device_id@),
            },
    {
        let waiting = self.waiting_for();
        if !contains_id(&waiting, device_id) {
            return None;
        }
        proof {
            lemma_awaited_members(self.roster(), self.cells(), self.n() as int, device_id@);
        }
        match self.id_to_index(device_id) {
            Some(i) => {
                proof { self.lemma_index_of(i as int); }
                Some(slice_to_vec(self.messages_out[i].as_slice()))
            },
            None => None,
        }
    }

    /// Once no device is awaited, every sender has a message for every
    /// other device.
    proof fn lemma_complete(&self)
        requires
            self.wf(),
            self.awaited().len() == 0,
        ensures
            forall|j: int, k: int|
                0 <= j < self.n() && 0 <= k < self.n() && j != k ==> #[trigger] self.cells()[j][k] is Some,
    {
        assert forall|j: int, k: int|
            0 <= j < self.n() && 0 <= k < self.n() && j != k implies #[trigger] self.cells()[j][k] is Some by {
            lemma_awaited_members(self.roster(), self.cells(), self.n() as int, self.roster()[j]);
            if row_absent(self.cells()[j]) {
                assert(self.awaited().contains(self.roster()[j]));
            }
            assert(row_ok(self.cells()[j], j, self.n()));
        }
    }

    /// Relays a complete round: each device's next payload is the envelope
    /// of what every other device sent it, in roster order; then the matrix
    /// is cleared for the next round.
    pub fn new_round(&mut self)
        requires
            old(self).wf(),
            old(self).awaited().len() == 0,
        ensures
            final(self).wf(),
            final(self).roster() == old(self).roster(),
            final(self).cells() == absent_matrix(old(self).n()),
            final(self).outbound() == routed_payloads(old(self).cells(), old(self).n()),
            final(self).round() == old(self).round(),
            final(self).last_round() == old(self).last_round(),
    {
        proof {
            self.lemma_complete();
        }
        let ghost cells = self.cells();
        let n = self.sorted_ids.len();
        let mut out: Vec<Vec<u8>> = Vec::new();
        for k in 0..n
            invariant
                n == self.n(),
                self.wf(),
                cells == self.cells(),
                forall|j: int, m: int|
                    0 <= j < n && 0 <= m < n && j != m ==> #[trigger] cells[j][m] is Some,
                out@.len() == k,
                out.deep_view() == routed_payloads(cells, n as nat).take(k as int),
        {
            let mut msg: Vec<Vec<u8>> = Vec::new();
            for j in 0..n
                invariant
                    n == self.n(),
                    k < n,
                    self.wf(),
                    cells == self.cells(),
                    forall|a: int, m: int|
                        0 <= a < n && 0 <= m < n && a != m ==> #[trigger] cells[a][m] is Some,
                    msg.deep_view() == route(cells, n as nat, k as int).take(
                        if j <= k { j as int } else { j - 1 },
                    ),
            {
                if j != k {
                    let ghost p: int = if j < k { j as int } else { j - 1 };
                    assert(sender(k as int, p) == j);
                    assert(self.cells()[j as int].len() == n);
                    assert(self.messages_in@[j as int]@.len() == n);
                    match &self.messages_in[j][k] {
                        Some(b) => {
                            let ghost before = msg.deep_view();
                            assert(self.messages_in@[j as int].deep_view()[k as int] == cells[j as int][k as int]);
                            let v = slice_to_vec(b.as_slice());
                            msg.push(v);
                            assert(msg.deep_view()[before.len() as int] =~= b@);
                            assert(msg.deep_view() =~= before.push(b@));
                            assert(msg.deep_view() =~= route(cells, n as nat, k as int).take(p + 1));
                        },
                        None => {
                            assert(self.messages_in@[j as int].deep_view()[k as int] == cells[j as int][k as int]);
                        },
                    }
                }
            }
            assert(route(cells, n as nat, k as int).take(n - 1) =~= route(cells, n as nat, k as int));
            let e = encode_envelope(&msg);
            let ghost before = out.deep_view();
            out.push(e);
            assert(out.deep_view()[k as int] =~= e@);
            assert(out.deep_view() =~= before.push(e@));
            assert(out.deep_view() =~= routed_payloads(cells, n as nat).take(k + 1));
        }
        assert(out.deep_view() =~= routed_payloads(cells, n as nat));
        self.messages_in = absent_rows(n);
        self.messages_out = out;
        assert forall|i: int| 0 <= i < self.n() implies row_ok(#[trigger] self.cells()[i], i, self.n()) by {
            assert(row_absent(absent_matrix(self.n())[i]));
        }
    }

    /// Takes `data` from `device_id` as its row of the current round.
    ///
    /// Refused with `NotAwaited` unless the round awaits the device, and with
    /// `DecodeError` unless `data` is an envelope with one message for each
    /// other device; a refusal changes nothing. Otherwise the row is filled.
    /// A round left incomplete reports who is still awaited. A completed
    /// round that is not the last is relayed, and the next round awaits
    /// everyone. A completed last round yields the message of the first
    /// device to the second.
    pub fn submit(&mut self, device_id: &[u8], data: &[u8]) -> (r: Result<Progress, TaskError>)
        requires
            old(self).wf(),
        ensures
            final(self).wf(),
            step_ok(*old(self), *final(self), device_id@, data@),
            !old(self).awaited().contains(device_id@) ==> r == Err::<Progress, TaskError>(
                TaskError::NotAwaited,
            ),
            old(self).awaited().contains(device_id@) && !envelope_fits(data@, old(self).n())
                ==> r == Err::<Progress, TaskError>(TaskError::DecodeError),
            accepted(*old(self), device_id@, data@) && !completes(*old(self), device_id@, data@)
                ==> (r matches Ok(Progress::Waiting(w)) && w.deep_view() == awaited_after(
                *old(self),
                device_id@,
                data@,
            )),
            advances(*old(self), device_id@, data@) ==> (r matches Ok(Progress::Waiting(w))
                && w.deep_view() == old(self).roster()),
            finishes(*old(self), device_id@, data@) ==> (if old(self).n() >= 2 {
                r matches Ok(Progress::Complete(w)) && w@ == result_cell(
                    *old(self),
                    device_id@,
                    data@,
                )
            } else {
                r == Err::<Progress, TaskError>(TaskError::IncompleteResult)
            }),
            accepted(*old(self), device_id@, data@) && old(self).n() >= 2 ==> awaited_after(
                *old(self),
                device_id@,
                data@,
            ).len() + 1 == old(self).awaited().len() && !awaited_after(
                *old(self),
                device_id@,
                data@,
            ).contains(device_id@),
    {
        let ghost o = *self;
        let ghost d = device_id@;
        let waiting = self.waiting_for();
        if !contains_id(&waiting, device_id) {
            return Err(TaskError::NotAwaited);
        }
        proof {
            lemma_awaited_members(o.roster(), o.cells(), o.n() as int, d);
        }
        let n = self.sorted_ids.len();
        let ms = match decode_envelope(data) {
            Some(ms) => ms,
            None => {
                return Err(TaskError::DecodeError);
            },
        };
        if ms.len() != n - 1 {
            return Err(TaskError::DecodeError);
        }
        let i = match self.id_to_index(device_id) {
            Some(i) => i,
            None => {
                return Err(TaskError::UnknownDevice);
            },
        };
        proof {
            self.lemma_index_of(i as int);
            let i0 = choose|i0: int| 0 <= i0 < o.n() && o.roster()[i0] == d && row_absent(#[trigger] o.cells()[i0]);
            assert(o.roster()[i0] == o.roster()[i as int]);
        }
        let ghost msv = ms.deep_view();
        let mut row: Vec<Option<Vec<u8>>> = Vec::new();
        for j in 0..n
            invariant
                n == o.n(),
                i < n,
                ms.deep_view() == msv,
                msv.len() + 1 == n,
                row@.len() == j,
                row.deep_view() == filled_row(msv, i as int).take(j as int),
        {
            let ghost before = row.deep_view();
            let cell: Option<Vec<u8>> = if j == i {
                None
            } else if j < i {
                Some(slice_to_vec(ms[j].as_slice()))
            } else {
                Some(slice_to_vec(ms[j - 1].as_slice()))
            };
            assert(cell.deep_view() == filled_row(msv, i as int)[j as int]);
            row.push(cell);
            assert(row.deep_view()[j as int] == cell.deep_view());
            assert(row.deep_view() =~= filled_row(msv, i as int).take(j + 1));
        }
        assert(filled_row(msv, i as int).take(n as int) =~= filled_row(msv, i as int));
        let ghost filled = cells_after(o.cells(), i as int, data@);
        self.messages_in[i] = row;
        proof {
            assert(self.cells() =~= filled);
            assert(row_ok(filled_row(msv, i as int), i as int, n as nat));
            assert forall|a: int| 0 <= a < self.n() implies row_ok(#[trigger] self.cells()[a], a, self.n()) by {
                if a != i {
                    assert(self.cells()[a] == o.cells()[a]);
                }
            }
            if n >= 2 {
                lemma_accepted(o, d, data@);
            }
        }
        let w = self.waiting_for();
        if w.len() == 0 {
            if self.round == self.last_round {
                if n < 2 {
                    return Err(TaskError::IncompleteResult);
                }
                proof {
                    self.lemma_complete();
                }
                assert(self.cells()[0].len() == n);
                assert(self.messages_in@[0]@.len() == n);
                assert(self.messages_in@[0].deep_view()[1] == self.cells()[0][1]);
                return match &self.messages_in[0][1] {
                    Some(b) => Ok(Progress::Complete(slice_to_vec(b.as_slice()))),
                    None => Err(TaskError::IncompleteResult),
                };
            }
            self.new_round();
            self.round = self.round + 1;
            proof {
                lemma_awaited_all(self.roster(), n as nat, n as int);
                assert(self.roster().take(n as int) =~= self.roster());
            }
            return Ok(Progress::Waiting(self.waiting_for()));
        }
        Ok(Progress::Waiting(w))
    }

    /// A copy of the sorted roster.
    pub fn roster_ids(&self) -> (r: Vec<Vec<u8>>)
        ensures
            r.deep_view() == self.roster(),
    {
        let mut out: Vec<Vec<u8>> = Vec::new();
        for i in 0..self.sorted_ids.len()
            invariant
                out@.len() == i,
                i <= self.sorted_ids@.len(),
                out.deep_view() == self.roster().take(i as int),
        {
            let ghost before = out.deep_view();
            out.push(slice_to_vec(self.sorted_ids[i].as_slice()));
            assert(out.deep_view()[i as int] =~= self.roster()[i as int]);
            assert(out.deep_view() =~= self.roster().take(i + 1));
        }
        assert(self.roster().take(self.sorted_ids@.len() as int) =~= self.roster());
        out
    }

    /// The position that holds an identity is the one `index_of` names.
    proof fn lemma_index_of(&self, i: int)
        requires
            self.wf(),
            0 <= i < self.n(),
        ensures
            self.roster().index_of(self.roster()[i]) == i,
    {
        let d = self.roster()[i];
        let j = self.roster().index_of(d);
        assert(self.roster().contains(d)) by { assert(self.roster()[i] == d); }
        assert(self.roster()[j] == d);
    }
}

/// `n` rows of `n` absent cells.
fn absent_rows(n: usize) -> (r: Vec<Vec<Option<Vec<u8>>>>)
    ensures
        r.deep_view() == absent_matrix(n as nat),
{
    let mut rows: Vec<Vec<Option<Vec<u8>>>> = Vec::new();
    for i in 0..n
        invariant
            rows.deep_view() == absent_matrix(n as nat).take(i as int),
    {
        let mut row: Vec<Option<Vec<u8>>> = Vec::new();
        for j in 0..n
            invariant
                row@.len() == j,
                forall|b: int| 0 <= b < j ==> #[trigger] row@[b] is None,
        {
            row.push(None);
        }
        assert(row.deep_view() =~= absent_matrix(n as nat)[i as int]);
        let ghost before = rows.deep_view();
        rows.push(row);
        assert(rows.deep_view() =~= before.push(row.deep_view()));
        assert(rows.deep_view() =~= absent_matrix(n as nat).take(i + 1));
    }
    assert(rows.deep_view() =~= absent_matrix(n as nat));
    rows
}

/// The device is awaited and `data` is an envelope of the right size: the
/// submission is taken.
pub open spec fn accepted(o: Ceremony, d: Seq<u8>, data: Seq<u8>) -> bool {
    o.awaited().contains(d) && envelope_fits(data, o.n())
}

/// The matrix once `d` has filled its row from `data`.
pub open spec fn filled_cells(o: Ceremony, d: Seq<u8>, data: Seq<u8>) -> CellsView {
    cells_after(o.cells(), o.roster().index_of(d), data)
}

/// Who is awaited once `d` has filled its row from `data`.
pub open spec fn awaited_after(o: Ceremony, d: Seq<u8>, data: Seq<u8>) -> Seq<Seq<u8>> {
    awaited_in(o.roster(), filled_cells(o, d, data), o.n() as int)
}

/// The submission is taken and completes the round.
pub open spec fn completes(o: Ceremony, d: Seq<u8>, data: Seq<u8>) -> bool {
    accepted(o, d, data) && awaited_after(o, d, data).len() == 0
}

/// The submission completes the last round.
pub open spec fn finishes(o: Ceremony, d: Seq<u8>, data: Seq<u8>) -> bool {
    completes(o, d, data) && o.round() == o.last_round()
}

/// The submission completes a round before the last.
pub open spec fn advances(o: Ceremony, d: Seq<u8>, data: Seq<u8>) -> bool {
    completes(o, d, data) && o.round() < o.last_round()
}

/// The cell that carries a ceremony's result: first device to second.
pub open spec fn result_cell(o: Ceremony, d: Seq<u8>, data: Seq<u8>) -> Seq<u8> {
    cell_bytes(filled_cells(o, d, data)[0][1])
}

/// How a submission of `data` by `d` takes the ceremony from `o` to `f`.
/// The roster and the last round never change. A refused submission
/// changes nothing. A taken one fills the device's row; a completed round
/// before the last is relayed, the matrix cleared and the round counter
/// moved on.
pub open spec fn step_ok(o: Ceremony, f: Ceremony, d: Seq<u8>, data: Seq<u8>) -> bool {
    &&& f.roster() == o.roster()
    &&& f.last_round() == o.last_round()
    &&& !accepted(o, d, data) ==> f == o
    &&& accepted(o, d, data) && !advances(o, d, data) ==> f.cells() == filled_cells(o, d, data)
        && f.outbound() == o.outbound() && f.round() == o.round()
    &&& advances(o, d, data) ==> f.cells() == absent_matrix(o.n()) && f.outbound()
        == routed_payloads(filled_cells(o, d, data), o.n()) && f.round() == o.round() + 1
}

/// An accepted submission in a round of two or more devices removes exactly
/// the submitting device from those awaited.
pub proof fn lemma_accepted(o: Ceremony, d: Seq<u8>, data: Seq<u8>)
    requires
        o.wf(),
        accepted(o, d, data),
        o.n() >= 2,
    ensures
        awaited_after(o, d, data).len() + 1 == o.awaited().len(),
        !awaited_after(o, d, data).contains(d),
{
    let n = o.n();
    lemma_awaited_members(o.roster(), o.cells(), n as int, d);
    let i0 = choose|i0: int| 0 <= i0 < n && o.roster()[i0] == d && row_absent(#[trigger] o.cells()[i0]);
    let i = o.roster().index_of(d);
    assert(o.roster().contains(d));
    assert(o.roster()[i] == o.roster()[i0]);
    let ms = parse_envelope(data).unwrap();
    let filled = filled_cells(o, d, data);
    lemma_filled_not_absent(ms, i);
    lemma_fill_shrinks(o.roster(), o.cells(), i, filled_row(ms, i), n as int);
    lemma_awaited_members(o.roster(), filled, n as int, d);
    if awaited_in(o.roster(), filled, n as int).contains(d) {
        let i1 = choose|i1: int| 0 <= i1 < n && o.roster()[i1] == d && row_absent(#[trigger] filled[i1]);
        assert(o.roster()[i1] == o.roster()[i]);
    }
}

/// Within a round of two or more devices, each accepted submission that
/// does not end the round leaves one device fewer awaited, and never the
/// submitter again. The awaited list empties only when the round completes;
/// the next round then awaits the whole roster again.
pub proof fn law_awaited_shrinks(o: Ceremony, f: Ceremony, d: Seq<u8>, data: Seq<u8>)
    requires
        o.wf(),
        step_ok(o, f, d, data),
        accepted(o, d, data),
        o.n() >= 2,
    ensures
        !completes(o, d, data) ==> f.awaited().len() + 1 == o.awaited().len() && f.awaited().len() > 0
            && !f.awaited().contains(d),
        advances(o, d, data) ==> f.awaited() == o.roster(),
{
    lemma_accepted(o, d, data);
    if advances(o, d, data) {
        lemma_awaited_all(o.roster(), o.n(), o.n() as int);
        assert(o.roster().take(o.n() as int) =~= o.roster());
    }
}

/// Once a round completes and the next begins, every cell of the matrix is
/// absent: nothing of the finished round remains.
pub proof fn law_reset_after_round(o: Ceremony, f: Ceremony, d: Seq<u8>, data: Seq<u8>)
    requires
        step_ok(o, f, d, data),
        advances(o, d, data),
    ensures
        f.cells().len() == o.n(),
        forall|i: int, j: int|
            0 <= i < o.n() && 0 <= j < o.n() ==> #[trigger] f.cells()[i][j] is None,
{
}

/// A device's relayed payload holds, at each position, the message of a
/// sender other than the device itself, to that device; the senders run
/// through the roster in order with the device left out.
pub proof fn law_self_excluded(cells: CellsView, n: nat, k: int, p: int)
    requires
        0 <= k < n,
        0 <= p < n - 1,
    ensures
        route(cells, n, k).len() == n - 1,
        route(cells, n, k)[p] == cell_bytes(cells[sender(k, p)][k]),
        sender(k, p) != k,
        0 <= sender(k, p) < n,
        p + 1 < n - 1 ==> sender(k, p) < sender(k, p + 1),
{
}

/// The roster, and so each index's identity, never changes.
pub proof fn law_roster_fixed(o: Ceremony, f: Ceremony, d: Seq<u8>, data: Seq<u8>, i: int)
    requires
        step_ok(o, f, d, data),
        0 <= i < o.n(),
    ensures
        f.roster() == o.roster(),
        f.roster()[i] == o.roster()[i],
{
}

/// A submission from a device the round does not await changes nothing.
pub proof fn law_not_awaited_unchanged(o: Ceremony, f: Ceremony, d: Seq<u8>, data: Seq<u8>)
    requires
        step_ok(o, f, d, data),
        !o.awaited().contains(d),
    ensures
        f == o,
{
}

/// A submission that is not an envelope of the right size changes nothing.
pub proof fn law_undecodable_unchanged(o: Ceremony, f: Ceremony, d: Seq<u8>, data: Seq<u8>)
    requires
        step_ok(o, f, d, data),
        !envelope_fits(data, o.n()),
    ensures
        f == o,
{
}

/// Membership in the roster is that of the identities the ceremony began
/// with, whatever rounds have passed.
pub proof fn law_membership_kept(
    ids: Seq<Seq<u8>>,
    o: Ceremony,
    f: Ceremony,
    d: Seq<u8>,
    data: Seq<u8>,
    x: Seq<u8>,
)
    requires
        o.roster().to_multiset() == ids.to_multiset(),
        step_ok(o, f, d, data),
    ensures
        f.roster().contains(x) == ids.contains(x),
        f.roster().to_multiset() == ids.to_multiset(),
{
    crate::roster::lemma_same_multiset_contains(o.roster(), ids, x);
}

} // verus!
