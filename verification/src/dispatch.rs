//! Server-side dispatch: resolves the device a request addresses from the
//! registry, runs the storage operation on it, and wraps the outcome.  A
//! missing device never panics; every operation against an unregistered
//! device id fails with an *invalid input* error.

use vstd::prelude::*;

use crate::device::DeviceId;
use crate::error::{Error, ErrorKind};
use crate::lump::{LumpData, LumpHeader, LumpId, StorageUsage};
use crate::registry::DeviceRegistry;
use crate::rpc::{DeviceRequest, LumpRequest, PutLumpRequest, UsageRangeRequest};
use crate::store::LumpStore;

verus! {

/// The model of one storage device: its block size and its lump store.
pub struct ModelDevice {
    /// The device's block size in bytes.
    pub block_size: u16,
    /// The lumps the device holds.
    pub store: LumpStore,
}

impl ModelDevice {
    /// The store obeys its invariants.
    pub open spec fn wf(&self) -> bool {
        self.store.wf()
    }

    /// A fresh, empty device with the given block size.
    pub fn new(block_size: u16) -> (r: Self)
        ensures
            r.wf(),
            r.block_size == block_size,
            r.store.contents() == Map::<u128, Seq<u8>>::empty(),
    {
        ModelDevice { block_size, store: LumpStore::new() }
    }
}

/// A registry of model devices, as the server dispatch uses it.
pub type ModelRegistry = DeviceRegistry<ModelDevice>;

/// Every registered model device obeys its invariants.
pub open spec fn stores_wf(reg: &ModelRegistry) -> bool {
    forall|q: Seq<char>|
        #[trigger] reg.devices_map().dom().contains(q) ==> reg.devices_map()[q].0.wf()
}

/// The lump contents of the device registered under `id`.
pub open spec fn device_contents(reg: &ModelRegistry, id: Seq<char>) -> Map<u128, Seq<u8>> {
    reg.devices_map()[id].0.store.contents()
}

/// The stored byte count of the device registered under `id`, over the key
/// range `[start, end)`.
pub open spec fn device_usage(reg: &ModelRegistry, id: Seq<char>, start: u128, end: u128) -> int {
    reg.devices_map()[id].0.store.usage_of(start, end)
}

/// Whether `ids` is exactly the ascending enumeration of the keys of
/// `contents`.
pub open spec fn ids_match_contents(ids: Seq<LumpId>, contents: Map<u128, Seq<u8>>) -> bool {
    &&& (forall|j: int, k: int| 0 <= j < k < ids.len() ==> ids[j].spec_u128() < ids[k].spec_u128())
    &&& (forall|q: u128|
        contents.dom().contains(q) <==> exists|j: int|
            0 <= j < ids.len() && #[trigger] ids[j].spec_u128() == q)
}

/// Whether `ids` is exactly the ascending enumeration of the keys of
/// `contents` that fall in `[start, end)`.
pub open spec fn ids_match_range(
    ids: Seq<LumpId>,
    contents: Map<u128, Seq<u8>>,
    start: u128,
    end: u128,
) -> bool {
    &&& (forall|j: int, k: int| 0 <= j < k < ids.len() ==> ids[j].spec_u128() < ids[k].spec_u128())
    &&& (forall|q: u128|
        (contents.dom().contains(q) && start <= q < end) <==> exists|j: int|
            0 <= j < ids.len() && #[trigger] ids[j].spec_u128() == q)
}

/// Everything a dispatch call leaves alone: the reader snapshot, the command
/// queue, and the registry's phase.
pub open spec fn frame_unchanged(pre: &ModelRegistry, post: &ModelRegistry) -> bool {
    &&& post.snapshot_ids() == pre.snapshot_ids()
    &&& post.queue_view() == pre.queue_view()
    &&& post.is_stopping() == pre.is_stopping()
    &&& post.is_closed() == pre.is_closed()
    &&& post.devices_map().dom() == pre.devices_map().dom()
    &&& forall|q: Seq<char>|
        #[trigger] post.devices_map().dom().contains(q) ==> post.devices_map()[q].1
            == pre.devices_map()[q].1 && post.devices_map()[q].0.block_size
            == pre.devices_map()[q].0.block_size
}

/// Borrows the device a request addresses out of the registry.  Returns the
/// device when the id is visible; otherwise leaves everything unchanged.
fn resolve(reg: &mut ModelRegistry, device_id: &DeviceId) -> (r: Option<ModelDevice>)
    requires
        old(reg).wf(),
        stores_wf(old(reg)),
    ensures
        final(reg).wf(),
        match r {
            Some(d) => {
                &&& old(reg).visible(device_id.chars())
                &&& old(reg).devices_map().dom().contains(device_id.chars())
                &&& d == old(reg).devices_map()[device_id.chars()].0
                &&& d.wf()
                &&& final(reg).devices_map() == old(reg).devices_map().insert(
                    device_id.chars(),
                    (
                        final(reg).devices_map()[device_id.chars()].0,
                        old(reg).devices_map()[device_id.chars()].1,
                    ),
                )
            },
            None => !old(reg).visible(device_id.chars()) && *final(reg) == *old(reg),
        },
        final(reg).snapshot_ids() == old(reg).snapshot_ids(),
        final(reg).queue_view() == old(reg).queue_view(),
        final(reg).is_stopping() == old(reg).is_stopping(),
        final(reg).is_closed() == old(reg).is_closed(),
{
    if !reg.contains_device(device_id) {
        return None;
    }
    proof {
        reg.lemma_visible_registered();
    }
    let mut dev = ModelDevice::new(0);
    let found = reg.swap_device(device_id, &mut dev);
    if found {
        Some(dev)
    } else {
        // A visible id is always registered; this path cannot be taken.
        None
    }
}

/// Returns a borrowed device to the registry.
fn restore(reg: &mut ModelRegistry, device_id: &DeviceId, dev: ModelDevice)
    requires
        old(reg).wf(),
        old(reg).devices_map().dom().contains(device_id.chars()),
    ensures
        final(reg).wf(),
        final(reg).devices_map() == old(reg).devices_map().insert(
            device_id.chars(),
            (dev, old(reg).devices_map()[device_id.chars()].1),
        ),
        final(reg).snapshot_ids() == old(reg).snapshot_ids(),
        final(reg).queue_view() == old(reg).queue_view(),
        final(reg).is_stopping() == old(reg).is_stopping(),
        final(reg).is_closed() == old(reg).is_closed(),
{
    let mut dev = dev;
    let found = reg.swap_device(device_id, &mut dev);
}

/// The error every operation against an unregistered device id fails with.
fn unknown_device() -> (r: Error)
    ensures
        r.kind == ErrorKind::InvalidInput,
{
    Error::new(ErrorKind::InvalidInput, "no such device".to_owned())
}

/// Serves a get-lump request: the payload stored under the lump id, or
/// `None` when the lump is absent.
pub fn handle_get_lump(reg: &mut ModelRegistry, req: &LumpRequest) -> (r: Result<
    Option<LumpData>,
    Error,
>)
    requires
        old(reg).wf(),
        stores_wf(old(reg)),
    ensures
        final(reg).wf(),
        stores_wf(final(reg)),
        frame_unchanged(old(reg), final(reg)),
        !old(reg).visible(req.device_id.chars()) ==> (r matches Err(e) && e.kind
            == ErrorKind::InvalidInput && final(reg).devices_map() == old(reg).devices_map()),
        old(reg).visible(req.device_id.chars()) ==> {
            let contents = device_contents(old(reg), req.device_id.chars());
            &&& final(reg).devices_map() == old(reg).devices_map()
            &&& (if contents.dom().contains(req.lump_id.spec_u128()) {
                r matches Ok(Some(d)) && d.data() == contents[req.lump_id.spec_u128()]
            } else {
                r matches Ok(None)
            })
        },
{
    let dev = match resolve(reg, &req.device_id) {
        None => {
            return Err(unknown_device());
        },
        Some(d) => d,
    };
    let found = dev.store.get(req.lump_id.as_u128());
    let ghost m0 = old(reg).devices_map();
    restore(reg, &req.device_id, dev);
    proof {
        assert(reg.devices_map() =~= m0);
    }
    match found {
        None => Ok(None),
        Some(bytes) => match LumpData::new(bytes) {
            Ok(d) => Ok(Some(d)),
            Err(e) => Err(e),
        },
    }
}

/// Serves a head-lump request: the approximate size of the lump, or `None`
/// when it is absent.
pub fn handle_head_lump(reg: &mut ModelRegistry, req: &LumpRequest) -> (r: Result<
    Option<LumpHeader>,
    Error,
>)
    requires
        old(reg).wf(),
        stores_wf(old(reg)),
    ensures
        final(reg).wf(),
        stores_wf(final(reg)),
        frame_unchanged(old(reg), final(reg)),
        !old(reg).visible(req.device_id.chars()) ==> (r matches Err(e) && e.kind
            == ErrorKind::InvalidInput && final(reg).devices_map() == old(reg).devices_map()),
        old(reg).visible(req.device_id.chars()) ==> {
            let contents = device_contents(old(reg), req.device_id.chars());
            &&& final(reg).devices_map() == old(reg).devices_map()
            &&& (if contents.dom().contains(req.lump_id.spec_u128()) {
                r matches Ok(Some(h)) && h.approximate_data_size == contents[
                    req.lump_id.spec_u128()].len()
            } else {
                r matches Ok(None)
            })
        },
{
    let dev = match resolve(reg, &req.device_id) {
        None => {
            return Err(unknown_device());
        },
        Some(d) => d,
    };
    let found = dev.store.head(req.lump_id.as_u128());
    let ghost m0 = old(reg).devices_map();
    restore(reg, &req.device_id, dev);
    proof {
        assert(reg.devices_map() =~= m0);
    }
    match found {
        None => Ok(None),
        Some(n) => Ok(Some(LumpHeader { approximate_data_size: n })),
    }
}

/// Serves a put-lump request: stores the payload under the lump id.  `true`
/// means the lump was created, `false` that it was overwritten.
pub fn handle_put_lump(reg: &mut ModelRegistry, req: PutLumpRequest) -> (r: Result<bool, Error>)
    requires
        old(reg).wf(),
        stores_wf(old(reg)),
        req.lump_data.wf(),
    ensures
        final(reg).wf(),
        stores_wf(final(reg)),
        frame_unchanged(old(reg), final(reg)),
        !old(reg).visible(req.device_id.chars()) ==> (r matches Err(e) && e.kind
            == ErrorKind::InvalidInput && final(reg).devices_map() == old(reg).devices_map()),
        old(reg).visible(req.device_id.chars()) ==> {
            let contents = device_contents(old(reg), req.device_id.chars());
            &&& r == Ok::<bool, Error>(!contents.dom().contains(req.lump_id.spec_u128()))
            &&& device_contents(final(reg), req.device_id.chars()) == contents.insert(
                req.lump_id.spec_u128(),
                req.lump_data.data(),
            )
            &&& forall|q: Seq<char>|
                q != req.device_id.chars() && #[trigger] final(reg).devices_map().dom().contains(
                    q,
                ) ==> final(reg).devices_map()[q] == old(reg).devices_map()[q]
        },
{
    let mut dev = match resolve(reg, &req.device_id) {
        None => {
            return Err(unknown_device());
        },
        Some(d) => d,
    };
    let created = dev.store.put(req.lump_id.as_u128(), req.lump_data.into_bytes());
    restore(reg, &req.device_id, dev);
    proof {
        assert(reg.devices_map().dom() =~= old(reg).devices_map().dom());
        assert forall|q: Seq<char>|
            #[trigger] reg.devices_map().dom().contains(q) implies (reg.devices_map()[q].1
            == old(reg).devices_map()[q].1 && reg.devices_map()[q].0.block_size
            == old(reg).devices_map()[q].0.block_size) by {}
    }
    Ok(created)
}

/// Serves a delete-lump request: `true` means the lump was deleted, `false`
/// that no lump was stored under the id.
pub fn handle_delete_lump(reg: &mut ModelRegistry, req: &LumpRequest) -> (r: Result<bool, Error>)
    requires
        old(reg).wf(),
        stores_wf(old(reg)),
    ensures
        final(reg).wf(),
        stores_wf(final(reg)),
        frame_unchanged(old(reg), final(reg)),
        !old(reg).visible(req.device_id.chars()) ==> (r matches Err(e) && e.kind
            == ErrorKind::InvalidInput && final(reg).devices_map() == old(reg).devices_map()),
        old(reg).visible(req.device_id.chars()) ==> {
            let contents = device_contents(old(reg), req.device_id.chars());
            &&& r == Ok::<bool, Error>(contents.dom().contains(req.lump_id.spec_u128()))
            &&& device_contents(final(reg), req.device_id.chars()) == contents.remove(
                req.lump_id.spec_u128(),
            )
            &&& forall|q: Seq<char>|
                q != req.device_id.chars() && #[trigger] final(reg).devices_map().dom().contains(
                    q,
                ) ==> final(reg).devices_map()[q] == old(reg).devices_map()[q]
        },
{
    let mut dev = match resolve(reg, &req.device_id) {
        None => {
            return Err(unknown_device());
        },
        Some(d) => d,
    };
    let deleted = dev.store.delete(req.lump_id.as_u128());
    restore(reg, &req.device_id, dev);
    proof {
        assert(reg.devices_map().dom() =~= old(reg).devices_map().dom());
        assert forall|q: Seq<char>|
            #[trigger] reg.devices_map().dom().contains(q) implies (reg.devices_map()[q].1
            == old(reg).devices_map()[q].1 && reg.devices_map()[q].0.block_size
            == old(reg).devices_map()[q].0.block_size) by {}
    }
    Ok(deleted)
}

/// Serves a list-lumps request: every stored lump id, in ascending order.
pub fn handle_list_lumps(reg: &mut ModelRegistry, req: &DeviceRequest) -> (r: Result<
    Vec<LumpId>,
    Error,
>)
    requires
        old(reg).wf(),
        stores_wf(old(reg)),
    ensures
        final(reg).wf(),
        stores_wf(final(reg)),
        frame_unchanged(old(reg), final(reg)),
        !old(reg).visible(req.device_id.chars()) ==> (r matches Err(e) && e.kind
            == ErrorKind::InvalidInput && final(reg).devices_map() == old(reg).devices_map()),
        old(reg).visible(req.device_id.chars()) ==> {
            &&& final(reg).devices_map() == old(reg).devices_map()
            &&& (r matches Ok(ids) && ids_match_contents(
                ids@,
                device_contents(old(reg), req.device_id.chars()),
            ))
        },
{
    let dev = match resolve(reg, &req.device_id) {
        None => {
            return Err(unknown_device());
        },
        Some(d) => d,
    };
    let raw = dev.store.list();
    let ghost m0 = old(reg).devices_map();
    let ghost contents = dev.store.contents();
    restore(reg, &req.device_id, dev);
    proof {
        assert(reg.devices_map() =~= m0);
    }
    let mut ids: Vec<LumpId> = Vec::new();
    let mut i: usize = 0;
    while i < raw.len()
        invariant
            i <= raw@.len(),
            ids@.len() == i,
            forall|j: int| 0 <= j < i ==> ids@[j].spec_u128() == raw@[j],
        decreases raw@.len() - i,
    {
        ids.push(LumpId::new(raw[i]));
        i = i + 1;
    }
    proof {
        assert(contents =~= device_contents(old(reg), req.device_id.chars()));
        assert forall|q: u128|
            device_contents(old(reg), req.device_id.chars()).dom().contains(q) <==> exists|j: int|
                0 <= j < ids@.len() && #[trigger] ids@[j].spec_u128() == q by {
            if contents.dom().contains(q) {
                assert(raw@.contains(q));
                let j = choose|j: int| 0 <= j < raw@.len() && raw@[j] == q;
                assert(ids@[j].spec_u128() == q);
            }
            if exists|j: int| 0 <= j < ids@.len() && #[trigger] ids@[j].spec_u128() == q {
                let j = choose|j: int| 0 <= j < ids@.len() && ids@[j].spec_u128() == q;
                assert(raw@[j] == q);
                assert(raw@.contains(q));
            }
        }
        assert forall|j: int, k: int|
            0 <= j < k < ids@.len() implies ids@[j].spec_u128() < ids@[k].spec_u128() by {
            assert(raw@[j] < raw@[k]);
        }
        assert(reg.devices_map() == old(reg).devices_map());
        assert(ids_match_contents(ids@, device_contents(old(reg), req.device_id.chars())));
    }
    Ok(ids)
}

/// Serves a usage-range request: the approximate byte count of the lumps in
/// `[start, end)`.
pub fn handle_usage_range(reg: &mut ModelRegistry, req: &UsageRangeRequest) -> (r: Result<
    StorageUsage,
    Error,
>)
    requires
        old(reg).wf(),
        stores_wf(old(reg)),
    ensures
        final(reg).wf(),
        stores_wf(final(reg)),
        frame_unchanged(old(reg), final(reg)),
        !old(reg).visible(req.device_id.chars()) ==> (r matches Err(e) && e.kind
            == ErrorKind::InvalidInput && final(reg).devices_map() == old(reg).devices_map()),
        old(reg).visible(req.device_id.chars()) ==> {
            let usage = device_usage(
                old(reg),
                req.device_id.chars(),
                req.start.spec_u128(),
                req.end.spec_u128(),
            );
            &&& final(reg).devices_map() == old(reg).devices_map()
            &&& r == Ok::<StorageUsage, Error>(
                StorageUsage::Approximate(
                    (if usage > u64::MAX {
                        u64::MAX as int
                    } else {
                        usage
                    }) as u64,
                ),
            )
        },
{
    let dev = match resolve(reg, &req.device_id) {
        None => {
            return Err(unknown_device());
        },
        Some(d) => d,
    };
    let usage = dev.store.usage_range(req.start.as_u128(), req.end.as_u128());
    let ghost m0 = old(reg).devices_map();
    restore(reg, &req.device_id, dev);
    proof {
        assert(reg.devices_map() =~= m0);
    }
    Ok(StorageUsage::Approximate(usage))
}

/// Serves a delete-range request: deletes every lump in `[start, end)` and
/// returns the deleted ids, in ascending order.
pub fn handle_delete_range(reg: &mut ModelRegistry, req: &UsageRangeRequest) -> (r: Result<
    Vec<LumpId>,
    Error,
>)
    requires
        old(reg).wf(),
        stores_wf(old(reg)),
    ensures
        final(reg).wf(),
        stores_wf(final(reg)),
        frame_unchanged(old(reg), final(reg)),
        !old(reg).visible(req.device_id.chars()) ==> (r matches Err(e) && e.kind
            == ErrorKind::InvalidInput && final(reg).devices_map() == old(reg).devices_map()),
        old(reg).visible(req.device_id.chars()) ==> {
            let contents = device_contents(old(reg), req.device_id.chars());
            let post = device_contents(final(reg), req.device_id.chars());
            &&& (r matches Ok(ids) && ids_match_range(
                ids@,
                contents,
                req.start.spec_u128(),
                req.end.spec_u128(),
            ))
            &&& (forall|q: u128|
                post.dom().contains(q) == (contents.dom().contains(q) && !(
                req.start.spec_u128() <= q < req.end.spec_u128())))
            &&& (forall|q: u128| post.dom().contains(q) ==> post[q] == contents[q])
            &&& forall|q: Seq<char>|
                q != req.device_id.chars() && #[trigger] final(reg).devices_map().dom().contains(
                    q,
                ) ==> final(reg).devices_map()[q] == old(reg).devices_map()[q]
        },
{
    let mut dev = match resolve(reg, &req.device_id) {
        None => {
            return Err(unknown_device());
        },
        Some(d) => d,
    };
    let ghost contents0 = dev.store.contents();
    let raw = dev.store.delete_range(req.start.as_u128(), req.end.as_u128());
    restore(reg, &req.device_id, dev);
    proof {
        assert(reg.devices_map().dom() =~= old(reg).devices_map().dom());
        assert forall|q: Seq<char>|
            #[trigger] reg.devices_map().dom().contains(q) implies (reg.devices_map()[q].1
            == old(reg).devices_map()[q].1 && reg.devices_map()[q].0.block_size
            == old(reg).devices_map()[q].0.block_size) by {}
    }
    let mut ids: Vec<LumpId> = Vec::new();
    let mut i: usize = 0;
    while i < raw.len()
        invariant
            i <= raw@.len(),
            ids@.len() == i,
            forall|j: int| 0 <= j < i ==> ids@[j].spec_u128() == raw@[j],
        decreases raw@.len() - i,
    {
        ids.push(LumpId::new(raw[i]));
        i = i + 1;
    }
    proof {
        if old(reg).visible(req.device_id.chars()) {
            assert(contents0 =~= device_contents(old(reg), req.device_id.chars()));
            assert forall|j: int, k: int|
                0 <= j < k < ids@.len() implies ids@[j].spec_u128() < ids@[k].spec_u128() by {
                assert(raw@[j] < raw@[k]);
            }
            assert forall|q: u128|
                (device_contents(old(reg), req.device_id.chars()).dom().contains(q)
                    && req.start.spec_u128() <= q < req.end.spec_u128()) <==> exists|j: int|
                    0 <= j < ids@.len() && #[trigger] ids@[j].spec_u128() == q by {
                if contents0.dom().contains(q) && req.start.spec_u128() <= q
                    < req.end.spec_u128() {
                    assert(raw@.contains(q));
                    let j = choose|j: int| 0 <= j < raw@.len() && raw@[j] == q;
                    assert(ids@[j].spec_u128() == q);
                }
                if exists|j: int| 0 <= j < ids@.len() && #[trigger] ids@[j].spec_u128() == q {
                    let j = choose|j: int| 0 <= j < ids@.len() && ids@[j].spec_u128() == q;
                    assert(raw@[j] == q);
                    assert(raw@.contains(q));
                }
            }
            assert(ids_match_range(
                ids@,
                device_contents(old(reg), req.device_id.chars()),
                req.start.spec_u128(),
                req.end.spec_u128(),
            ));
        }
    }
    Ok(ids)
}

} // verus!
