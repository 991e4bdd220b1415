//! The device registry's state machine: the single authority for which
//! devices are reachable, how the set is mutated safely, and what concurrent
//! readers may observe.
//!
//! Mutations (`put_device`, `delete_device`) go through a command queue and
//! are applied in submission order by the registry's driving loop; reads go
//! through a snapshot that is republished after every applied command, so a
//! read may lag a just-submitted mutation but never sees a partial one.  The
//! driving loop itself — polling real devices, waiting on a real channel —
//! is outside the state machine; it feeds commands and termination events in
//! and performs the stop signals the machine asks for.

use vstd::prelude::*;

use crate::device::DeviceId;
use crate::error::{Error, ErrorKind};

verus! {

/// A registered device plus its termination flag.  The flag is set when the
/// device's own completion future finishes, normally or abnormally, and never
/// otherwise cleared.
pub struct DeviceState<D> {
    /// The device (or the handle standing for it).
    pub device: D,
    /// Whether the device has reached a terminal state.
    pub terminated: bool,
}

/// A queued mutation of the registry.
pub enum Command<D> {
    /// Register a device under an id, replacing any previous holder.
    PutDevice(DeviceId, D),
    /// Remove the device under an id; unknown ids are ignored.
    DeleteDevice(DeviceId),
}

/// First-match lookup of an id among registry entries.
pub open spec fn lookup_entries<D>(
    entries: Seq<(DeviceId, DeviceState<D>)>,
    id: Seq<char>,
) -> Option<DeviceState<D>>
    decreases entries.len(),
{
    if entries.len() == 0 {
        None
    } else if entries[0].0.chars() == id {
        Some(entries[0].1)
    } else {
        lookup_entries(entries.drop_first(), id)
    }
}

/// Lookup distributes over concatenation: the front of the list wins.
pub proof fn lemma_lookup_entries_concat<D>(
    a: Seq<(DeviceId, DeviceState<D>)>,
    b: Seq<(DeviceId, DeviceState<D>)>,
    id: Seq<char>,
)
    ensures
        lookup_entries(a + b, id) == (if lookup_entries(a, id) is Some {
            lookup_entries(a, id)
        } else {
            lookup_entries(b, id)
        }),
    decreases a.len(),
{
    if a.len() == 0 {
        assert(a + b =~= b);
    } else {
        assert((a + b).drop_first() =~= a.drop_first() + b);
        lemma_lookup_entries_concat(a.drop_first(), b, id);
    }
}

/// A successful lookup names some entry of the list.
pub proof fn lemma_lookup_entries_index<D>(
    entries: Seq<(DeviceId, DeviceState<D>)>,
    id: Seq<char>,
)
    requires
        lookup_entries(entries, id) is Some,
    ensures
        exists|i: int|
            0 <= i < entries.len() && entries[i].0.chars() == id && entries[i].1
                == lookup_entries(entries, id).unwrap(),
    decreases entries.len(),
{
    if entries[0].0.chars() == id {
        assert(entries[0].0.chars() == id && entries[0].1 == lookup_entries(
            entries,
            id,
        ).unwrap());
    } else {
        lemma_lookup_entries_index(entries.drop_first(), id);
        let j = choose|j: int|
            0 <= j < entries.drop_first().len() && entries.drop_first()[j].0.chars() == id
                && entries.drop_first()[j].1 == lookup_entries(
                entries.drop_first(),
                id,
            ).unwrap();
        assert(entries[j + 1].0.chars() == id && entries[j + 1].1 == lookup_entries(
            entries,
            id,
        ).unwrap());
    }
}

/// No two entries carry the same id.
pub open spec fn unique_ids<D>(entries: Seq<(DeviceId, DeviceState<D>)>) -> bool {
    forall|i: int, j: int|
        0 <= i < j < entries.len() ==> entries[i].0.chars() != entries[j].0.chars()
}

/// No two ids in a list name the same device.
pub open spec fn distinct_ids(ids: Seq<DeviceId>) -> bool {
    forall|i: int, j: int| 0 <= i < j < ids.len() ==> ids[i].chars() != ids[j].chars()
}

/// Whether a list of ids contains `id`.
pub open spec fn contains_id(ids: Seq<DeviceId>, id: Seq<char>) -> bool
    decreases ids.len(),
{
    if ids.len() == 0 {
        false
    } else if ids[0].chars() == id {
        true
    } else {
        contains_id(ids.drop_first(), id)
    }
}

/// One step of the registry's command loop on the map of registered devices:
/// a put inserts a fresh, non-terminated entry — unless the registry is
/// being stopped, in which case the command is ignored — and a delete
/// removes whatever is there.
pub open spec fn step_command<D>(
    m: Map<Seq<char>, (D, bool)>,
    stopping: bool,
    cmd: Command<D>,
) -> Map<Seq<char>, (D, bool)> {
    match cmd {
        Command::PutDevice(id, d) => if stopping {
            m
        } else {
            m.insert(id.chars(), (d, false))
        },
        Command::DeleteDevice(id) => m.remove(id.chars()),
    }
}

/// The registry's command loop applied to a whole queue, in submission
/// order.
pub open spec fn run_queue<D>(
    m: Map<Seq<char>, (D, bool)>,
    stopping: bool,
    q: Seq<Command<D>>,
) -> Map<Seq<char>, (D, bool)>
    decreases q.len(),
{
    if q.len() == 0 {
        m
    } else {
        run_queue(step_command(m, stopping, q[0]), stopping, q.drop_first())
    }
}

/// Registry consistency: once the driving loop applies a `put_device`, the
/// id maps to exactly that device, not yet terminated; once it applies a
/// `delete_device`, the id maps to nothing.
pub proof fn lemma_registry_consistency<D>(
    m: Map<Seq<char>, (D, bool)>,
    id: DeviceId,
    d: D,
)
    ensures
        step_command(m, false, Command::PutDevice(id, d)).dom().contains(id.chars()),
        step_command(m, false, Command::PutDevice(id, d))[id.chars()] == (d, false),
        !step_command(m, false, Command::DeleteDevice(id)).dom().contains(id.chars()),
{
}

/// Registry shutdown, first half: once the registry is being stopped, an
/// accepted `put_device` command changes nothing when applied — the device
/// never becomes visible.
pub proof fn lemma_stopping_ignores_put<D>(m: Map<Seq<char>, (D, bool)>, id: DeviceId, d: D)
    ensures
        step_command(m, true, Command::PutDevice(id, d)) == m,
{
}

/// The device registry.  The owner drives it: drains the command queue,
/// feeds in device-termination events, and asks whether shutdown has
/// completed.
pub struct DeviceRegistry<D> {
    devices: Vec<(DeviceId, DeviceState<D>)>,
    snapshot: Vec<DeviceId>,
    queue: Vec<Command<D>>,
    being_stopped: bool,
    closed: bool,
}

impl<D> DeviceRegistry<D> {
    /// The registered devices, as a map from id to device and termination
    /// flag.
    pub closed spec fn devices_map(&self) -> Map<Seq<char>, (D, bool)> {
        Map::new(
            |q: Seq<char>| lookup_entries(self.devices@, q) is Some,
            |q: Seq<char>|
                (
                    lookup_entries(self.devices@, q).unwrap().device,
                    lookup_entries(self.devices@, q).unwrap().terminated,
                ),
        )
    }

    /// The registered devices, entry by entry, in registration order.
    pub closed spec fn entries(&self) -> Seq<(DeviceId, DeviceState<D>)> {
        self.devices@
    }

    /// The ids a reader can currently see.
    pub closed spec fn snapshot_ids(&self) -> Seq<DeviceId> {
        self.snapshot@
    }

    /// Whether a reader can currently see `id`.
    pub open spec fn visible(&self, id: Seq<char>) -> bool {
        contains_id(self.snapshot_ids(), id)
    }

    /// The mutation commands submitted but not yet applied.
    pub closed spec fn queue_view(&self) -> Seq<Command<D>> {
        self.queue@
    }

    /// Whether `stop` has been called.
    pub closed spec fn is_stopping(&self) -> bool {
        self.being_stopped
    }

    /// Whether the registry's owner is gone: mutations are refused and the
    /// snapshot stays empty.
    pub closed spec fn is_closed(&self) -> bool {
        self.closed
    }

    /// Internal consistency: ids are unique on both sides — the snapshot
    /// shows each id at most once — and the snapshot shows exactly the
    /// registered ids, or nothing once the registry is closed.
    pub closed spec fn wf(&self) -> bool {
        &&& unique_ids(self.devices@)
        &&& distinct_ids(self.snapshot@)
        &&& if self.closed {
            self.snapshot@.len() == 0
        } else {
            forall|q: Seq<char>|
                contains_id(self.snapshot@, q) == lookup_entries(self.devices@, q) is Some
        }
    }

    /// A fresh registry: nothing registered, nothing visible, nothing
    /// queued, running.
    pub fn new() -> (r: Self)
        ensures
            r.wf(),
            r.devices_map() == Map::<Seq<char>, (D, bool)>::empty(),
            r.queue_view() == Seq::<Command<D>>::empty(),
            !r.is_stopping(),
            !r.is_closed(),
            forall|q: Seq<char>| !r.visible(q),
    {
        let r = DeviceRegistry {
            devices: Vec::new(),
            snapshot: Vec::new(),
            queue: Vec::new(),
            being_stopped: false,
            closed: false,
        };
        proof {
            assert(r.devices_map() =~= Map::<Seq<char>, (D, bool)>::empty());
        }
        r
    }

    /// Submits a registration: the device will replace any current holder of
    /// the id when the driving loop applies the command — unless the
    /// registry has begun stopping, in which case the command is accepted
    /// but will be ignored.  Fails with an *other* error only when the
    /// registry itself is gone.
    pub fn put_device(&mut self, device_id: DeviceId, device: D) -> (r: Result<(), Error>)
        requires
            old(self).wf(),
        ensures
            final(self).wf(),
            final(self).devices_map() == old(self).devices_map(),
            final(self).snapshot_ids() == old(self).snapshot_ids(),
            final(self).is_stopping() == old(self).is_stopping(),
            final(self).is_closed() == old(self).is_closed(),
            old(self).is_closed() ==> (r matches Err(e) && e.kind == ErrorKind::Other
                && final(self).queue_view() == old(self).queue_view()),
            !old(self).is_closed() ==> (r is Ok && final(self).queue_view() == old(
                self,
            ).queue_view().push(Command::PutDevice(device_id, device))),
    {
        if self.closed {
            return Err(Error::new(ErrorKind::Other, "device registry is gone".to_owned()));
        }
        self.queue.push(Command::PutDevice(device_id, device));
        Ok(())
    }

    /// Submits a removal; unknown ids will simply be ignored when applied.
    /// Fails with an *other* error only when the registry itself is gone.
    pub fn delete_device(&mut self, device_id: DeviceId) -> (r: Result<(), Error>)
        requires
            old(self).wf(),
        ensures
            final(self).wf(),
            final(self).devices_map() == old(self).devices_map(),
            final(self).snapshot_ids() == old(self).snapshot_ids(),
            final(self).is_stopping() == old(self).is_stopping(),
            final(self).is_closed() == old(self).is_closed(),
            old(self).is_closed() ==> (r matches Err(e) && e.kind == ErrorKind::Other
                && final(self).queue_view() == old(self).queue_view()),
            !old(self).is_closed() ==> (r is Ok && final(self).queue_view() == old(
                self,
            ).queue_view().push(Command::DeleteDevice(device_id))),
    {
        if self.closed {
            return Err(Error::new(ErrorKind::Other, "device registry is gone".to_owned()));
        }
        self.queue.push(Command::DeleteDevice(device_id));
        Ok(())
    }

    /// Finds the position of `id` among the registered devices.
    fn find_index(&self, id: &DeviceId) -> (r: Option<usize>)
        ensures
            match r {
                Some(i) => i < self.devices@.len() && self.devices@[i as int].0.chars()
                    == id.chars() && (forall|j: int|
                    0 <= j < i ==> self.devices@[j].0.chars() != id.chars()),
                None => forall|j: int|
                    0 <= j < self.devices@.len() ==> self.devices@[j].0.chars() != id.chars(),
            },
    {
        let mut i: usize = 0;
        while i < self.devices.len()
            invariant
                i <= self.devices@.len(),
                forall|j: int| 0 <= j < i ==> self.devices@[j].0.chars() != id.chars(),
            decreases self.devices@.len() - i,
        {
            if self.devices[i].0.eq_id(id) {
                return Some(i);
            }
            i = i + 1;
        }
        None
    }

    /// Whether an absent-from-every-index id is absent from the lookup.
    proof fn lemma_lookup_absent(entries: Seq<(DeviceId, DeviceState<D>)>, id: Seq<char>)
        requires
            forall|j: int| 0 <= j < entries.len() ==> entries[j].0.chars() != id,
        ensures
            lookup_entries(entries, id) is None,
        decreases entries.len(),
    {
        if entries.len() > 0 {
            assert(forall|j: int|
                0 <= j < entries.drop_first().len() ==> entries.drop_first()[j] == entries[j + 1]);
            Self::lemma_lookup_absent(entries.drop_first(), id);
        }
    }

    /// Lookup at the first index that holds an id.
    proof fn lemma_lookup_at(entries: Seq<(DeviceId, DeviceState<D>)>, id: Seq<char>, i: int)
        requires
            0 <= i < entries.len(),
            entries[i].0.chars() == id,
            forall|j: int| 0 <= j < i ==> entries[j].0.chars() != id,
        ensures
            lookup_entries(entries, id) == Some(entries[i].1),
        decreases i,
    {
        if i > 0 {
            assert(forall|j: int|
                0 <= j < entries.drop_first().len() ==> entries.drop_first()[j] == entries[j + 1]);
            Self::lemma_lookup_at(entries.drop_first(), id, i - 1);
        }
    }

    /// Membership among ids aligned entry-for-entry with a device list
    /// matches lookup success in that list.
    proof fn lemma_contains_matches_lookup(
        ids: Seq<DeviceId>,
        entries: Seq<(DeviceId, DeviceState<D>)>,
        q: Seq<char>,
    )
        requires
            ids.len() == entries.len(),
            forall|j: int| 0 <= j < ids.len() ==> ids[j].chars() == entries[j].0.chars(),
        ensures
            contains_id(ids, q) == lookup_entries(entries, q) is Some,
        decreases ids.len(),
    {
        if ids.len() > 0 {
            assert(forall|j: int|
                0 <= j < ids.drop_first().len() ==> ids.drop_first()[j] == ids[j + 1]
                    && entries.drop_first()[j] == entries[j + 1]);
            Self::lemma_contains_matches_lookup(ids.drop_first(), entries.drop_first(), q);
        }
    }

    /// Rebuilds the published snapshot from the registered devices: one id
    /// per registered device, in registration order.
    fn refresh_snapshot(&mut self)
        ensures
            final(self).devices@ == old(self).devices@,
            final(self).queue@ == old(self).queue@,
            final(self).being_stopped == old(self).being_stopped,
            final(self).closed == old(self).closed,
            final(self).snapshot@.len() == final(self).devices@.len(),
            forall|j: int|
                0 <= j < final(self).snapshot@.len() ==> final(self).snapshot@[j].chars()
                    == final(self).devices@[j].0.chars(),
            forall|q: Seq<char>|
                contains_id(final(self).snapshot@, q) == lookup_entries(final(self).devices@, q)
                    is Some,
    {
        let mut ids: Vec<DeviceId> = Vec::new();
        let mut i: usize = 0;
        while i < self.devices.len()
            invariant
                i <= self.devices@.len(),
                ids@.len() == i,
                forall|j: int| 0 <= j < i ==> ids@[j].chars() == self.devices@[j].0.chars(),
            decreases self.devices@.len() - i,
        {
            let id = self.devices[i].0.clone();
            ids.push(id);
            i = i + 1;
        }
        proof {
            assert forall|q: Seq<char>|
                contains_id(ids@, q) == lookup_entries(self.devices@, q) is Some by {
                Self::lemma_contains_matches_lookup(ids@, self.devices@, q);
            }
        }
        self.snapshot = ids;
    }

    /// Lookup is unchanged by replacing an entry that does not match the id
    /// looked up with another entry that does not match it either.
    proof fn lemma_lookup_update_other(
        entries: Seq<(DeviceId, DeviceState<D>)>,
        i: int,
        e: (DeviceId, DeviceState<D>),
        q: Seq<char>,
    )
        requires
            0 <= i < entries.len(),
            entries[i].0.chars() != q,
            e.0.chars() != q,
        ensures
            lookup_entries(entries.update(i, e), q) == lookup_entries(entries, q),
        decreases i,
    {
        if i == 0 {
            assert(entries.update(0, e).drop_first() =~= entries.drop_first());
        } else {
            assert(entries.update(i, e).drop_first() =~= entries.drop_first().update(i - 1, e));
            Self::lemma_lookup_update_other(entries.drop_first(), i - 1, e, q);
        }
    }

    /// Applies one mutation command: a put registers (or replaces) a device
    /// unless the registry is being stopped; a delete removes one.  The
    /// snapshot is republished afterwards.
    fn apply_command(&mut self, cmd: Command<D>)
        requires
            old(self).wf(),
            !old(self).is_closed(),
        ensures
            final(self).wf(),
            final(self).devices_map() == step_command(
                old(self).devices_map(),
                old(self).is_stopping(),
                cmd,
            ),
            final(self).queue_view() == old(self).queue_view(),
            final(self).is_stopping() == old(self).is_stopping(),
            final(self).is_closed() == old(self).is_closed(),
            forall|q: Seq<char>|
                final(self).visible(q) == final(self).devices_map().dom().contains(q),
    {
        let ghost m0 = self.devices_map();
        match cmd {
            Command::PutDevice(id, d) => {
                if self.being_stopped {
                    self.refresh_snapshot();
                    proof {
                        assert forall|q: Seq<char>|
                            self.visible(q) == self.devices_map().dom().contains(q) by {}
                    }
                    return ;
                }
                let ghost idc = id.chars();
                match self.find_index(&id) {
                    Some(i) => {
                        let ghost before = self.devices@;
                        self.devices[i] = (
                            id,
                            DeviceState { device: d, terminated: false },
                        );
                        proof {
                            Self::lemma_lookup_at(self.devices@, idc, i as int);
                            assert forall|q: Seq<char>| q != idc implies lookup_entries(
                                self.devices@,
                                q,
                            ) == lookup_entries(before, q) by {
                                Self::lemma_lookup_update_other(
                                    before,
                                    i as int,
                                    self.devices@[i as int],
                                    q,
                                );
                            }
                            assert(self.devices_map() =~= m0.insert(idc, (d, false)));
                        }
                        self.refresh_snapshot();
                    },
                    None => {
                        let ghost before = self.devices@;
                        proof {
                            Self::lemma_lookup_absent(before, idc);
                        }
                        self.devices.push((id, DeviceState { device: d, terminated: false }));
                        proof {
                            let e = self.devices@.last();
                            assert(e.0.chars() == idc);
                            assert(self.devices@ =~= before + seq![e]);
                            assert forall|q: Seq<char>|
                                #[trigger] lookup_entries(self.devices@, q) == (if q == idc {
                                    Some(e.1)
                                } else {
                                    lookup_entries(before, q)
                                }) by {
                                lemma_lookup_entries_concat(before, seq![e], q);
                                assert(seq![e].drop_first() =~= Seq::<(
                                    DeviceId,
                                    DeviceState<D>,
                                )>::empty());
                                assert(lookup_entries(
                                    Seq::<(DeviceId, DeviceState<D>)>::empty(),
                                    q,
                                ) is None);
                                assert(lookup_entries(seq![e], q) == (if e.0.chars() == q {
                                    Some(e.1)
                                } else {
                                    None::<DeviceState<D>>
                                }));
                                assert(lookup_entries(self.devices@, q) == lookup_entries(
                                    before + seq![e],
                                    q,
                                ));
                            }
                            assert(self.devices_map() =~= m0.insert(idc, (d, false)));
                        }
                        self.refresh_snapshot();
                    },
                }
            },
            Command::DeleteDevice(id) => {
                let ghost idc = id.chars();
                match self.find_index(&id) {
                    Some(i) => {
                        let ghost before = self.devices@;
                        let removed = self.devices.remove(i);
                        proof {
                            assert(before =~= before.take(i as int) + (seq![
                                before[i as int],
                            ] + before.skip(i as int + 1)));
                            assert(self.devices@ =~= before.take(i as int) + before.skip(
                                i as int + 1,
                            ));
                            assert forall|q: Seq<char>|
                                #[trigger] lookup_entries(self.devices@, q) == (if q == idc {
                                    None::<DeviceState<D>>
                                } else {
                                    lookup_entries(before, q)
                                }) by {
                                lemma_lookup_entries_concat(
                                    before.take(i as int),
                                    seq![before[i as int]] + before.skip(i as int + 1),
                                    q,
                                );
                                lemma_lookup_entries_concat(
                                    seq![before[i as int]],
                                    before.skip(i as int + 1),
                                    q,
                                );
                                lemma_lookup_entries_concat(
                                    before.take(i as int),
                                    before.skip(i as int + 1),
                                    q,
                                );
                                assert(seq![before[i as int]].drop_first() =~= Seq::<(
                                    DeviceId,
                                    DeviceState<D>,
                                )>::empty());
                                assert(lookup_entries(
                                    Seq::<(DeviceId, DeviceState<D>)>::empty(),
                                    q,
                                ) is None);
                                assert(lookup_entries(seq![before[i as int]], q) == (if before[
                                    i as int].0.chars() == q {
                                    Some(before[i as int].1)
                                } else {
                                    None::<DeviceState<D>>
                                }));
                                if q == idc {
                                    assert(forall|j: int|
                                        0 <= j < before.take(i as int).len()
                                            ==> before.take(i as int)[j].0.chars() != q);
                                    Self::lemma_lookup_absent(before.take(i as int), q);
                                    assert(forall|j: int|
                                        0 <= j < before.skip(i as int + 1).len()
                                            ==> #[trigger] before.skip(i as int + 1)[j]
                                            == before[j + i + 1]);
                                    assert(forall|j: int|
                                        0 <= j < before.skip(i as int + 1).len()
                                            ==> #[trigger] before.skip(
                                            i as int + 1,
                                        )[j].0.chars() != q);
                                    Self::lemma_lookup_absent(before.skip(i as int + 1), q);
                                }
                            }
                            assert(self.devices_map() =~= m0.remove(idc));
                        }
                        self.refresh_snapshot();
                    },
                    None => {
                        proof {
                            Self::lemma_lookup_absent(self.devices@, idc);
                            assert(self.devices_map() =~= m0.remove(idc));
                        }
                        self.refresh_snapshot();
                    },
                }
            },
        }
    }

    /// Drains the pending command queue, applying every command in
    /// submission order and republishing the snapshot.
    pub fn drain_commands(&mut self)
        requires
            old(self).wf(),
            !old(self).is_closed(),
        ensures
            final(self).wf(),
            final(self).devices_map() == run_queue(
                old(self).devices_map(),
                old(self).is_stopping(),
                old(self).queue_view(),
            ),
            final(self).queue_view() == Seq::<Command<D>>::empty(),
            final(self).is_stopping() == old(self).is_stopping(),
            final(self).is_closed() == old(self).is_closed(),
            forall|q: Seq<char>|
                final(self).visible(q) == final(self).devices_map().dom().contains(q),
    {
        let ghost target = run_queue(
            self.devices_map(),
            self.is_stopping(),
            self.queue_view(),
        );
        while self.queue.len() > 0
            invariant
                self.wf(),
                !self.is_closed(),
                self.is_stopping() == old(self).is_stopping(),
                self.is_closed() == old(self).is_closed(),
                target == run_queue(self.devices_map(), self.is_stopping(), self.queue_view()),
            decreases self.queue@.len(),
        {
            let ghost q0 = self.queue_view();
            let cmd = self.queue.remove(0);
            assert(self.queue@ =~= q0.drop_first());
            self.apply_command(cmd);
        }
        self.refresh_snapshot();
    }

    /// The devices a `stop` call asks to be signalled: every registered,
    /// not-yet-terminated device, in registration order.
    pub closed spec fn stop_targets(entries: Seq<(DeviceId, DeviceState<D>)>) -> Seq<DeviceId>
        decreases entries.len(),
    {
        if entries.len() == 0 {
            Seq::empty()
        } else if entries[0].1.terminated {
            Self::stop_targets(entries.drop_first())
        } else {
            seq![entries[0].0] + Self::stop_targets(entries.drop_first())
        }
    }

    /// Begins the stop sequence: from here on, applied `put_device` commands
    /// are ignored.  Returns the ids of every registered device that has not
    /// yet terminated, so that the driving loop can signal each to stop at
    /// the most urgent deadline.
    pub fn stop(&mut self) -> (r: Vec<DeviceId>)
        requires
            old(self).wf(),
        ensures
            final(self).wf(),
            final(self).is_stopping(),
            final(self).devices_map() == old(self).devices_map(),
            final(self).snapshot_ids() == old(self).snapshot_ids(),
            final(self).queue_view() == old(self).queue_view(),
            final(self).is_closed() == old(self).is_closed(),
            r@.len() == Self::stop_targets(old(self).entries()).len(),
            forall|j: int|
                0 <= j < r@.len() ==> r@[j].chars() == Self::stop_targets(
                    old(self).entries(),
                )[j].chars(),
    {
        self.being_stopped = true;
        let mut out: Vec<DeviceId> = Vec::new();
        let mut i: usize = 0;
        proof {
            assert(self.devices@.skip(0) =~= self.devices@);
            assert(Self::stop_targets(self.devices@.skip(0)) =~= Self::stop_targets(
                self.devices@,
            ));
        }
        while i < self.devices.len()
            invariant
                i <= self.devices@.len(),
                Self::stop_targets(self.devices@) =~= Self::stop_targets(
                    self.devices@.take(i as int),
                ) + Self::stop_targets(self.devices@.skip(i as int)),
                out@.len() == Self::stop_targets(self.devices@.take(i as int)).len(),
                forall|j: int|
                    0 <= j < out@.len() ==> out@[j].chars() == Self::stop_targets(
                        self.devices@.take(i as int),
                    )[j].chars(),
            decreases self.devices@.len() - i,
        {
            proof {
                Self::lemma_stop_targets_take_step(self.devices@, i as int);
            }
            if !self.devices[i].1.terminated {
                let id = self.devices[i].0.clone();
                out.push(id);
            }
            i = i + 1;
        }
        proof {
            assert(self.devices@.take(self.devices@.len() as int) =~= self.devices@);
        }
        out
    }

    /// Taking one more entry extends the stop targets by that entry's id
    /// exactly when it has not terminated.
    proof fn lemma_stop_targets_take_step(entries: Seq<(DeviceId, DeviceState<D>)>, i: int)
        requires
            0 <= i < entries.len(),
        ensures
            Self::stop_targets(entries.take(i + 1)) =~= Self::stop_targets(entries.take(i)) + (
            if entries[i].1.terminated {
                Seq::<DeviceId>::empty()
            } else {
                seq![entries[i].0]
            }),
            Self::stop_targets(entries) =~= Self::stop_targets(entries.take(i + 1))
                + Self::stop_targets(entries.skip(i + 1)),
        decreases entries.len() + i,
    {
        Self::lemma_stop_targets_concat(entries.take(i), entries.subrange(i, i + 1));
        assert(entries.take(i + 1) =~= entries.take(i) + entries.subrange(i, i + 1));
        assert(Self::stop_targets(entries.subrange(i, i + 1)) =~= (if entries[i].1.terminated {
            Seq::<DeviceId>::empty()
        } else {
            seq![entries[i].0]
        })) by {
            assert(entries.subrange(i, i + 1)[0] == entries[i]);
            assert(entries.subrange(i, i + 1).drop_first() =~= Seq::<(
                DeviceId,
                DeviceState<D>,
            )>::empty());
            assert(Self::stop_targets(Seq::<(DeviceId, DeviceState<D>)>::empty())
                =~= Seq::<DeviceId>::empty());
        }
        Self::lemma_stop_targets_concat(entries.take(i + 1), entries.skip(i + 1));
        assert(entries =~= entries.take(i + 1) + entries.skip(i + 1));
    }

    /// Stop targets distribute over concatenation.
    proof fn lemma_stop_targets_concat(
        a: Seq<(DeviceId, DeviceState<D>)>,
        b: Seq<(DeviceId, DeviceState<D>)>,
    )
        ensures
            Self::stop_targets(a + b) =~= Self::stop_targets(a) + Self::stop_targets(b),
        decreases a.len(),
    {
        if a.len() == 0 {
            assert(a + b =~= b);
        } else {
            assert((a + b).drop_first() =~= a.drop_first() + b);
            Self::lemma_stop_targets_concat(a.drop_first(), b);
        }
    }

    /// Looks one device up for stopping: the device and its termination
    /// flag, or `None` when no such device is registered.
    pub fn stop_device(&self, device_id: &DeviceId) -> (r: Option<(&D, bool)>)
        ensures
            match r {
                Some((d, term)) => self.devices_map().dom().contains(device_id.chars()) && *d
                    == self.devices_map()[device_id.chars()].0 && term == self.devices_map()[
                    device_id.chars()].1,
                None => !self.devices_map().dom().contains(device_id.chars()),
            },
    {
        match self.find_index(device_id) {
            Some(i) => {
                proof {
                    Self::lemma_lookup_at(self.devices@, device_id.chars(), i as int);
                }
                Some((&self.devices[i].1.device, self.devices[i].1.terminated))
            },
            None => {
                proof {
                    Self::lemma_lookup_absent(self.devices@, device_id.chars());
                }
                None
            },
        }
    }

    /// Records that a device's own completion future finished (normally or
    /// abnormally): the device is marked terminated and stays registered
    /// until explicitly deleted.
    pub fn on_device_terminated(&mut self, device_id: &DeviceId)
        requires
            old(self).wf(),
        ensures
            final(self).wf(),
            final(self).devices_map() == (if old(self).devices_map().dom().contains(
                device_id.chars(),
            ) {
                old(self).devices_map().insert(
                    device_id.chars(),
                    (old(self).devices_map()[device_id.chars()].0, true),
                )
            } else {
                old(self).devices_map()
            }),
            final(self).snapshot_ids() == old(self).snapshot_ids(),
            final(self).queue_view() == old(self).queue_view(),
            final(self).is_stopping() == old(self).is_stopping(),
            final(self).is_closed() == old(self).is_closed(),
    {
        let ghost m0 = self.devices_map();
        let ghost idc = device_id.chars();
        match self.find_index(device_id) {
            Some(i) => {
                let ghost before = self.devices@;
                proof {
                    Self::lemma_lookup_at(before, idc, i as int);
                }
                let (eid, st) = self.devices.remove(i);
                self.devices.insert(i, (eid, DeviceState { device: st.device, terminated: true }));
                proof {
                    assert(self.devices@ =~= before.update(
                        i as int,
                        (before[i as int].0, self.devices@[i as int].1),
                    ));
                    Self::lemma_lookup_at(self.devices@, idc, i as int);
                    assert forall|q: Seq<char>| q != idc implies lookup_entries(
                        self.devices@,
                        q,
                    ) == lookup_entries(before, q) by {
                        Self::lemma_lookup_update_other(
                            before,
                            i as int,
                            self.devices@[i as int],
                            q,
                        );
                    }
                    assert(self.devices_map() =~= m0.insert(idc, (m0[idc].0, true)));
                }
            },
            None => {
                proof {
                    Self::lemma_lookup_absent(self.devices@, idc);
                }
            },
        }
    }

    /// Whether every registered device has terminated.
    pub closed spec fn all_terminated(&self) -> bool {
        forall|j: int| 0 <= j < self.devices@.len() ==> self.devices@[j].1.terminated
    }

    /// Every device the map shows is terminated when `all_terminated` holds.
    pub proof fn lemma_all_terminated_map(&self)
        requires
            self.all_terminated(),
        ensures
            forall|q: Seq<char>|
                self.devices_map().dom().contains(q) ==> self.devices_map()[q].1,
    {
        assert forall|q: Seq<char>|
            self.devices_map().dom().contains(q) implies self.devices_map()[q].1 by {
            lemma_lookup_entries_index(self.devices@, q);
        }
    }

    /// Registry shutdown, second half: the driving loop reports completion
    /// exactly when the stop sequence has begun and every registered device
    /// has terminated.
    pub fn is_done(&self) -> (r: bool)
        ensures
            r == (self.is_stopping() && self.all_terminated()),
    {
        if !self.being_stopped {
            return false;
        }
        let mut i: usize = 0;
        while i < self.devices.len()
            invariant
                i <= self.devices@.len(),
                forall|j: int| 0 <= j < i ==> self.devices@[j].1.terminated,
            decreases self.devices@.len() - i,
        {
            if !self.devices[i].1.terminated {
                return false;
            }
            i = i + 1;
        }
        true
    }

    /// Reads the current snapshot: the device registered under `id`, or an
    /// *invalid input* error when the snapshot does not show the id.  The
    /// read does not go through the mutation queue, so it can lag a very
    /// recent `put_device` or `delete_device`.
    pub fn get_device(&self, device_id: &DeviceId) -> (r: Result<&D, Error>)
        requires
            self.wf(),
        ensures
            self.visible(device_id.chars()) ==> (r matches Ok(d) && !self.is_closed() && *d
                == self.devices_map()[device_id.chars()].0),
            !self.visible(device_id.chars()) ==> (r matches Err(e) && e.kind
                == ErrorKind::InvalidInput),
    {
        if !self.contains_device(device_id) {
            return Err(
                Error::new(ErrorKind::InvalidInput, "no such device".to_owned()),
            );
        }
        match self.find_index(device_id) {
            Some(i) => {
                proof {
                    Self::lemma_lookup_at(self.devices@, device_id.chars(), i as int);
                }
                Ok(&self.devices[i].1.device)
            },
            None => {
                proof {
                    Self::lemma_lookup_absent(self.devices@, device_id.chars());
                }
                Err(Error::new(ErrorKind::InvalidInput, "no such device".to_owned()))
            },
        }
    }

    /// Whether the current snapshot shows a device under `id`; a pure
    /// membership check that never fails.
    pub fn contains_device(&self, device_id: &DeviceId) -> (r: bool)
        ensures
            r == self.visible(device_id.chars()),
    {
        let mut i: usize = 0;
        proof {
            assert(self.snapshot@.skip(0) =~= self.snapshot@);
        }
        while i < self.snapshot.len()
            invariant
                i <= self.snapshot@.len(),
                contains_id(self.snapshot@, device_id.chars()) == contains_id(
                    self.snapshot@.skip(i as int),
                    device_id.chars(),
                ),
            decreases self.snapshot@.len() - i,
        {
            proof {
                assert(self.snapshot@.skip(i as int).drop_first() =~= self.snapshot@.skip(
                    i as int + 1,
                ));
            }
            if self.snapshot[i].eq_id(device_id) {
                return true;
            }
            i = i + 1;
        }
        false
    }

    /// Reads the current snapshot's whole id list: one entry per visible
    /// device, no id twice.
    pub fn list_devices(&self) -> (r: Vec<DeviceId>)
        requires
            self.wf(),
        ensures
            r@.len() == self.snapshot_ids().len(),
            forall|j: int|
                0 <= j < r@.len() ==> r@[j].chars() == self.snapshot_ids()[j].chars(),
            distinct_ids(r@),
    {
        let mut out: Vec<DeviceId> = Vec::new();
        let mut i: usize = 0;
        while i < self.snapshot.len()
            invariant
                i <= self.snapshot@.len(),
                out@.len() == i,
                forall|j: int| 0 <= j < i ==> out@[j].chars() == self.snapshot@[j].chars(),
            decreases self.snapshot@.len() - i,
        {
            let id = self.snapshot[i].clone();
            out.push(id);
            i = i + 1;
        }
        out
    }


    /// A visible id is a registered id, whatever the registry's phase.
    pub proof fn lemma_visible_registered(&self)
        requires
            self.wf(),
        ensures
            forall|q: Seq<char>|
                self.visible(q) ==> self.devices_map().dom().contains(q),
    {
        if self.closed {
            assert forall|q: Seq<char>| !self.visible(q) by {
                assert(self.snapshot@.len() == 0);
            }
        }
    }

    /// Exchanges the device registered under `device_id` with `*device`:
    /// the caller's value goes into the registry and the registered device
    /// comes out, its termination flag untouched.  Returns whether the id
    /// was registered at all; when it was not, both sides stay as they were.
    /// This is how the dispatch layer borrows a device to run one storage
    /// operation.
    pub fn swap_device(&mut self, device_id: &DeviceId, device: &mut D) -> (r: bool)
        requires
            old(self).wf(),
        ensures
            final(self).wf(),
            r == old(self).devices_map().dom().contains(device_id.chars()),
            final(self).snapshot_ids() == old(self).snapshot_ids(),
            final(self).queue_view() == old(self).queue_view(),
            final(self).is_stopping() == old(self).is_stopping(),
            final(self).is_closed() == old(self).is_closed(),
            r ==> final(self).devices_map() == old(self).devices_map().insert(
                device_id.chars(),
                (*old(device), old(self).devices_map()[device_id.chars()].1),
            ) && *final(device) == old(self).devices_map()[device_id.chars()].0,
            !r ==> final(self).devices_map() == old(self).devices_map() && *final(device) == *old(
                device,
            ),
    {
        let ghost m0 = self.devices_map();
        let ghost idc = device_id.chars();
        match self.find_index(device_id) {
            Some(i) => {
                let ghost before = self.devices@;
                proof {
                    Self::lemma_lookup_at(before, idc, i as int);
                }
                let (eid, mut st) = self.devices.remove(i);
                core::mem::swap(device, &mut st.device);
                self.devices.insert(i, (eid, st));
                proof {
                    assert(self.devices@ =~= before.update(i as int, self.devices@[i as int]));
                    assert(self.devices@[i as int].0.chars() == idc);
                    Self::lemma_lookup_at(self.devices@, idc, i as int);
                    assert forall|q: Seq<char>| q != idc implies lookup_entries(
                        self.devices@,
                        q,
                    ) == lookup_entries(before, q) by {
                        Self::lemma_lookup_update_other(
                            before,
                            i as int,
                            self.devices@[i as int],
                            q,
                        );
                    }
                    assert(self.devices_map() =~= m0.insert(idc, (*old(device), m0[idc].1)));
                }
                true
            },
            None => {
                proof {
                    Self::lemma_lookup_absent(self.devices@, idc);
                }
                false
            },
        }
    }

    /// Tears the registry down: the published snapshot is cleared, so any
    /// held handle immediately observes an empty registry, and later
    /// mutations are refused.
    pub fn close(&mut self)
        requires
            old(self).wf(),
        ensures
            final(self).wf(),
            final(self).is_closed(),
            final(self).devices_map() == old(self).devices_map(),
            final(self).is_stopping() == old(self).is_stopping(),
            forall|q: Seq<char>| !final(self).visible(q),
    {
        self.closed = true;
        self.snapshot = Vec::new();
    }
}

} // verus!
