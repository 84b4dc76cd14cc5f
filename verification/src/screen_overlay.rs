use vstd::prelude::*;

verus! {

/// One physical display as the backend reports it. A zero width or
/// height means the backend has not reported valid geometry yet.
#[derive(Debug)]
pub struct DisplayInfo {
    pub id: u32,
    pub width: u32,
    pub height: u32,
    pub scale_factor: i32,
    pub name: String,
}

impl Clone for DisplayInfo {
    fn clone(&self) -> (res: Self)
        ensures
            res == *self,
    {
        DisplayInfo {
            id: self.id,
            width: self.width,
            height: self.height,
            scale_factor: self.scale_factor,
            name: self.name.clone(),
        }
    }
}

/// Whether the backend has reported usable geometry for a display.
pub open spec fn valid_geometry(info: DisplayInfo) -> bool {
    info.width > 0 && info.height > 0
}

/// Lifecycle of the overlay surface on one display. `Configuring`
/// surfaces wait for the backend's explicit configure acknowledgement;
/// attaching a buffer earlier is a protocol violation. `Closed` is
/// terminal.
#[derive(Debug, Clone, Copy, PartialEq, Eq, Structural)]
pub enum SurfacePhase {
    Unbound,
    Configuring,
    Ready,
    Closed,
}

/// The manager's record for one display: its reported info, its
/// surface lifecycle phase, the number of live leases on it, and the
/// surface geometry from the last configure acknowledgement.
#[derive(Debug)]
pub struct SurfaceItem {
    pub info: DisplayInfo,
    pub phase: SurfacePhase,
    pub ref_count: u32,
    pub surf_width: u32,
    pub surf_height: u32,
}

/// A caller's reference-counted claim on one display's overlay
/// surface. The count lives in the manager, not in the handle.
#[derive(Debug, Clone, Copy, PartialEq, Eq, Structural)]
pub struct SurfaceLease {
    pub lease_id: u64,
    pub display_id: u32,
}

/// The manager's ledger entry for one live lease.
#[derive(Debug, Clone, Copy, PartialEq, Eq, Structural)]
pub struct LeaseRecord {
    pub lease_id: u64,
    pub display_id: u32,
}

/// A drawable target on a surface that has reached `Ready`.
#[derive(Debug, Clone, Copy, PartialEq, Eq, Structural)]
pub struct SurfaceRef {
    pub display_id: u32,
    pub width: u32,
    pub height: u32,
}

/// Lease-manager failures, returned as typed results, never used as
/// hot-path control flow.
#[derive(Debug, Clone, Copy, PartialEq, Eq, Structural)]
pub enum LeaseError {
    NoDisplayAvailable,
    SurfaceGone,
    ProtocolViolation,
}

/// The manager's configured policies: whether an empty pool may be
/// served by sharing an already-leased display, whether callers wait
/// for a display instead of failing, and whether a surface is torn
/// down when its last lease goes.
#[derive(Debug, Clone, Copy, PartialEq, Eq, Structural)]
pub struct LeaseConfig {
    pub allow_shared: bool,
    pub wait_when_empty: bool,
    pub teardown_on_release: bool,
}

/// What the backend owes the manager after an operation: nothing, a
/// fresh overlay surface on a display, or the teardown of one.
#[derive(Debug, Clone, Copy, PartialEq, Eq, Structural)]
pub enum BackendAction {
    NoBackendCall,
    CreateSurface(u32),
    DestroySurface(u32),
}

/// How an acquire request ended when it did not fail: a lease, or a
/// queued ticket that a later grant will serve.
#[derive(Debug, Clone, Copy, PartialEq, Eq, Structural)]
pub enum AcquireOutcome {
    Granted(SurfaceLease),
    Queued(u64),
}

/// A successful buffer request: a drawable target, or word that the
/// surface still awaits its configure acknowledgement — a buffer must
/// not be attached before that.
#[derive(Debug, Clone, Copy, PartialEq, Eq, Structural)]
pub enum BufferReply {
    Buffer(SurfaceRef),
    NotReadyYet,
}

/// How a configure acknowledgement was taken: it made the surface
/// ready, refreshed an already-ready surface, or hit a closed surface
/// and was ignored.
#[derive(Debug, Clone, Copy, PartialEq, Eq, Structural)]
pub enum ConfigureOutcome {
    BecameReady,
    Refreshed,
    Ignored,
}

/// The mathematical shape of the lease manager.
pub struct OverlayModel {
    pub items: Seq<SurfaceItem>,
    pub available: Seq<u32>,
    pub leases: Seq<LeaseRecord>,
    pub waiters: Seq<u64>,
    pub next_lease: u64,
    pub next_ticket: u64,
    pub config: LeaseConfig,
}

/// The position of the item for display `d` at or after `i`, or -1.
pub open spec fn item_idx_from(s: Seq<SurfaceItem>, d: u32, i: int) -> int
    decreases s.len() - i,
{
    if i < 0 || i >= s.len() {
        -1
    } else if s[i].info.id == d {
        i
    } else {
        item_idx_from(s, d, i + 1)
    }
}

/// The position of the item for display `d`, or -1 when absent.
pub open spec fn item_idx(s: Seq<SurfaceItem>, d: u32) -> int {
    item_idx_from(s, d, 0)
}

/// The position of the record for lease `l` at or after `i`, or -1.
pub open spec fn lease_idx_from(s: Seq<LeaseRecord>, l: u64, i: int) -> int
    decreases s.len() - i,
{
    if i < 0 || i >= s.len() {
        -1
    } else if s[i].lease_id == l {
        i
    } else {
        lease_idx_from(s, l, i + 1)
    }
}

/// The position of the record for lease `l`, or -1 when absent.
pub open spec fn lease_idx(s: Seq<LeaseRecord>, l: u64) -> int {
    lease_idx_from(s, l, 0)
}

/// The position of `x` in a pool list at or after `i`, or -1.
pub open spec fn pool_idx_from(s: Seq<u32>, x: u32, i: int) -> int
    decreases s.len() - i,
{
    if i < 0 || i >= s.len() {
        -1
    } else if s[i] == x {
        i
    } else {
        pool_idx_from(s, x, i + 1)
    }
}

/// The position of `x` in a pool list, or -1 when absent.
pub open spec fn pool_idx(s: Seq<u32>, x: u32) -> int {
    pool_idx_from(s, x, 0)
}

/// The position of a ticket in the waiter queue at or after `i`.
pub open spec fn ticket_idx_from(s: Seq<u64>, x: u64, i: int) -> int
    decreases s.len() - i,
{
    if i < 0 || i >= s.len() {
        -1
    } else if s[i] == x {
        i
    } else {
        ticket_idx_from(s, x, i + 1)
    }
}

/// The position of a ticket in the waiter queue, or -1 when absent.
pub open spec fn ticket_idx(s: Seq<u64>, x: u64) -> int {
    ticket_idx_from(s, x, 0)
}

/// How many live leases the ledger holds on display `d`.
pub open spec fn count_leases(s: Seq<LeaseRecord>, d: u32) -> nat
    decreases s.len(),
{
    if s.len() == 0 {
        0
    } else {
        (if s[0].display_id == d {
            1nat
        } else {
            0nat
        }) + count_leases(s.drop_first(), d)
    }
}

/// The ledger with every lease on display `d` struck out.
pub open spec fn purge_leases(s: Seq<LeaseRecord>, d: u32) -> Seq<LeaseRecord>
    decreases s.len(),
{
    if s.len() == 0 {
        Seq::empty()
    } else if s[0].display_id == d {
        purge_leases(s.drop_first(), d)
    } else {
        seq![s[0]] + purge_leases(s.drop_first(), d)
    }
}

/// The reference-counted overlay-surface pool. Displays partition
/// into an available pool (reference count zero, FIFO) and a leased
/// set; a display re-enters the available pool exactly when its count
/// returns to zero, never mid-count. The display backend itself is
/// driven elsewhere, from a single execution context, and owes the
/// manager only the `BackendAction`s these operations hand out.
pub struct OverlayManager {
    pub items: Vec<SurfaceItem>,
    pub available: Vec<u32>,
    pub leases: Vec<LeaseRecord>,
    pub waiters: Vec<u64>,
    pub next_lease: u64,
    pub next_ticket: u64,
    pub config: LeaseConfig,
}

impl View for OverlayManager {
    type V = OverlayModel;

    open spec fn view(&self) -> OverlayModel {
        OverlayModel {
            items: self.items@,
            available: self.available@,
            leases: self.leases@,
            waiters: self.waiters@,
            next_lease: self.next_lease,
            next_ticket: self.next_ticket,
            config: self.config,
        }
    }
}

/// The manager's invariant: display ids are unique; the available
/// pool lists exactly the leasable displays (known, unleased, not
/// closed, with valid geometry) without duplicates; lease ids are
/// unique, fresh, and name non-closed displays; every reference count
/// equals the ledger's count for that display; a leased display's
/// surface is configuring or ready; waiter tickets are unique and
/// fresh.
pub open spec fn inv(m: OverlayModel) -> bool {
    &&& forall|i: int, j: int|
        0 <= i < j < m.items.len() ==> m.items[i].info.id != m.items[j].info.id
    &&& forall|i: int, j: int| 0 <= i < j < m.available.len() ==> m.available[i] != m.available[j]
    &&& forall|i: int|
        0 <= i < m.available.len() ==> {
            let k = item_idx(m.items, #[trigger] m.available[i]);
            &&& k >= 0
            &&& m.items[k].ref_count == 0
            &&& m.items[k].phase != SurfacePhase::Closed
            &&& valid_geometry(m.items[k].info)
        }
    &&& forall|k: int|
        0 <= k < m.items.len() && (#[trigger] m.items[k]).ref_count == 0 && m.items[k].phase
            != SurfacePhase::Closed && valid_geometry(m.items[k].info) ==> m.available.contains(
            m.items[k].info.id,
        )
    &&& forall|i: int, j: int|
        0 <= i < j < m.leases.len() ==> m.leases[i].lease_id != m.leases[j].lease_id
    &&& forall|i: int|
        0 <= i < m.leases.len() ==> {
            let k = item_idx(m.items, (#[trigger] m.leases[i]).display_id);
            &&& k >= 0
            &&& m.items[k].phase != SurfacePhase::Closed
        }
    &&& forall|i: int| 0 <= i < m.leases.len() ==> (#[trigger] m.leases[i]).lease_id < m.next_lease
    &&& forall|k: int|
        0 <= k < m.items.len() ==> (#[trigger] m.items[k]).ref_count == count_leases(
            m.leases,
            m.items[k].info.id,
        )
    &&& forall|k: int|
        0 <= k < m.items.len() && (#[trigger] m.items[k]).ref_count > 0 ==> (m.items[k].phase
            == SurfacePhase::Configuring || m.items[k].phase == SurfacePhase::Ready)
    &&& forall|i: int, j: int| 0 <= i < j < m.waiters.len() ==> m.waiters[i] != m.waiters[j]
    &&& forall|i: int| 0 <= i < m.waiters.len() ==> (#[trigger] m.waiters[i]) < m.next_ticket
}

impl OverlayManager {
    /// A fresh manager with the given policies and no displays.
    pub fn new(config: LeaseConfig) -> (r: OverlayManager)
        ensures
            inv(r@),
            r@.items =~= Seq::<SurfaceItem>::empty(),
            r@.available =~= Seq::<u32>::empty(),
            r@.leases =~= Seq::<LeaseRecord>::empty(),
            r@.waiters =~= Seq::<u64>::empty(),
            r@.next_lease == 0,
            r@.next_ticket == 0,
            r@.config == config,
    {
        OverlayManager {
            items: Vec::new(),
            available: Vec::new(),
            leases: Vec::new(),
            waiters: Vec::new(),
            next_lease: 0,
            next_ticket: 0,
            config,
        }
    }
}

/// What an item index means: -1 exactly when no item at or after `i`
/// names the display, and otherwise a position that does.
proof fn lemma_item_idx_props(s: Seq<SurfaceItem>, d: u32, i: int)
    requires
        0 <= i <= s.len(),
    ensures
        item_idx_from(s, d, i) == -1 ==> forall|k: int|
            i <= k < s.len() ==> (#[trigger] s[k]).info.id != d,
        item_idx_from(s, d, i) != -1 ==> i <= item_idx_from(s, d, i) < s.len() && s[item_idx_from(
            s,
            d,
            i,
        )].info.id == d,
    decreases s.len() - i,
{
    if i < s.len() {
        if s[i].info.id != d {
            lemma_item_idx_props(s, d, i + 1);
        }
    }
}

/// What a lease index means, like `lemma_item_idx_props`.
proof fn lemma_lease_idx_props(s: Seq<LeaseRecord>, l: u64, i: int)
    requires
        0 <= i <= s.len(),
    ensures
        lease_idx_from(s, l, i) == -1 ==> forall|k: int|
            i <= k < s.len() ==> (#[trigger] s[k]).lease_id != l,
        lease_idx_from(s, l, i) != -1 ==> i <= lease_idx_from(s, l, i) < s.len() && s[lease_idx_from(
            s,
            l,
            i,
        )].lease_id == l,
    decreases s.len() - i,
{
    if i < s.len() {
        if s[i].lease_id != l {
            lemma_lease_idx_props(s, l, i + 1);
        }
    }
}

/// What a pool position means, like `lemma_item_idx_props`; a found
/// position is the first, and -1 coincides with non-membership.
proof fn lemma_pool_idx_props(s: Seq<u32>, x: u32, i: int)
    requires
        0 <= i <= s.len(),
    ensures
        pool_idx_from(s, x, i) == -1 ==> forall|k: int| i <= k < s.len() ==> s[k] != x,
        pool_idx_from(s, x, i) != -1 ==> i <= pool_idx_from(s, x, i) < s.len() && s[pool_idx_from(
            s,
            x,
            i,
        )] == x,
    decreases s.len() - i,
{
    if i < s.len() {
        if s[i] != x {
            lemma_pool_idx_props(s, x, i + 1);
        }
    }
}

/// Pushing a ledger record raises exactly its display's count.
proof fn lemma_count_push(s: Seq<LeaseRecord>, r: LeaseRecord, d: u32)
    ensures
        count_leases(s.push(r), d) == count_leases(s, d) + (if r.display_id == d {
            1nat
        } else {
            0nat
        }),
    decreases s.len(),
{
    if s.len() == 0 {
        assert(s.push(r)[0] == r);
        assert(s.push(r).drop_first() =~= Seq::<LeaseRecord>::empty());
        assert(count_leases(s, d) == 0);
        assert(count_leases(Seq::<LeaseRecord>::empty(), d) == 0);
        assert(count_leases(s.push(r), d) == (if r.display_id == d {
            1nat
        } else {
            0nat
        }) + count_leases(Seq::<LeaseRecord>::empty(), d));
    } else {
        assert(s.push(r)[0] == s[0]);
        assert(s.push(r).drop_first() =~= s.drop_first().push(r));
        lemma_count_push(s.drop_first(), r, d);
        assert(count_leases(s, d) == (if s[0].display_id == d {
            1nat
        } else {
            0nat
        }) + count_leases(s.drop_first(), d));
        assert(count_leases(s.push(r), d) == (if s[0].display_id == d {
            1nat
        } else {
            0nat
        }) + count_leases(s.drop_first().push(r), d));
    }
}

/// Removing the ledger record at `j` lowers exactly its display's
/// count.
proof fn lemma_count_remove(s: Seq<LeaseRecord>, j: int, d: u32)
    requires
        0 <= j < s.len(),
    ensures
        count_leases(s.remove(j), d) == count_leases(s, d) - (if s[j].display_id == d {
            1nat
        } else {
            0nat
        }),
    decreases j,
{
    if j == 0 {
        assert(s.remove(0) =~= s.drop_first());
    } else {
        assert(s.remove(j).drop_first() =~= s.drop_first().remove(j - 1));
        lemma_count_remove(s.drop_first(), j - 1, d);
    }
}

/// A display's count is zero exactly when no ledger record names it.
proof fn lemma_count_zero(s: Seq<LeaseRecord>, d: u32)
    ensures
        (count_leases(s, d) == 0) <==> (forall|i: int|
            0 <= i < s.len() ==> (#[trigger] s[i]).display_id != d),
    decreases s.len(),
{
    if s.len() > 0 {
        lemma_count_zero(s.drop_first(), d);
        if count_leases(s, d) == 0 {
            assert forall|i: int| 0 <= i < s.len() implies (#[trigger] s[i]).display_id != d by {
                if i > 0 {
                    assert(s.drop_first()[i - 1] == s[i]);
                }
            }
        }
        if forall|i: int| 0 <= i < s.len() ==> (#[trigger] s[i]).display_id != d {
            assert forall|i: int|
                0 <= i < s.drop_first().len() implies (#[trigger] s.drop_first()[i]).display_id
                != d by {
                assert(s.drop_first()[i] == s[i + 1]);
            }
            assert(count_leases(s.drop_first(), d) == 0);
        }
    }
}

/// What purging a display from the ledger leaves: only records of
/// other displays, all drawn from the original ledger, with every
/// other display's count intact.
proof fn lemma_purge_props(s: Seq<LeaseRecord>, d: u32)
    ensures
        forall|k: int|
            0 <= k < purge_leases(s, d).len() ==> (#[trigger] purge_leases(s, d)[k]).display_id
                != d,
        forall|k: int|
            0 <= k < purge_leases(s, d).len() ==> s.contains(#[trigger] purge_leases(s, d)[k]),
        forall|d2: u32|
            d2 != d ==> #[trigger] count_leases(purge_leases(s, d), d2) == count_leases(s, d2),
        count_leases(purge_leases(s, d), d) == 0,
    decreases s.len(),
{
    if s.len() == 0 {
        assert(purge_leases(s, d) =~= Seq::<LeaseRecord>::empty());
        assert forall|d2: u32| d2 != d implies #[trigger] count_leases(purge_leases(s, d), d2)
            == count_leases(s, d2) by {
            assert(count_leases(purge_leases(s, d), d2) == 0);
            assert(count_leases(s, d2) == 0);
        }
        assert(count_leases(purge_leases(s, d), d) == 0);
    } else {
        lemma_purge_props(s.drop_first(), d);
        if s[0].display_id != d {
            let p = seq![s[0]] + purge_leases(s.drop_first(), d);
            assert(purge_leases(s, d) == p);
            assert(p.drop_first() =~= purge_leases(s.drop_first(), d));
            assert(p[0] == s[0]);
            assert forall|d2: u32| d2 != d implies #[trigger] count_leases(purge_leases(s, d), d2)
                == count_leases(s, d2) by {
                assert(count_leases(p, d2) == (if p[0].display_id == d2 {
                    1nat
                } else {
                    0nat
                }) + count_leases(p.drop_first(), d2));
                assert(count_leases(s, d2) == (if s[0].display_id == d2 {
                    1nat
                } else {
                    0nat
                }) + count_leases(s.drop_first(), d2));
            }
            assert(count_leases(p, d) == (if p[0].display_id == d {
                1nat
            } else {
                0nat
            }) + count_leases(p.drop_first(), d));
            assert forall|k: int| 0 <= k < p.len() implies s.contains(#[trigger] p[k]) by {
                if k == 0 {
                    assert(s[0] == p[0]);
                } else {
                    let j = choose|j: int|
                        0 <= j < s.drop_first().len() && s.drop_first()[j] == p[k];
                    assert(s[j + 1] == p[k]);
                }
            }
        } else {
            assert(purge_leases(s, d) == purge_leases(s.drop_first(), d));
            assert forall|d2: u32| d2 != d implies #[trigger] count_leases(purge_leases(s, d), d2)
                == count_leases(s, d2) by {
                assert(count_leases(s, d2) == (if s[0].display_id == d2 {
                    1nat
                } else {
                    0nat
                }) + count_leases(s.drop_first(), d2));
            }
            assert forall|k: int| 0 <= k < purge_leases(s, d).len() implies s.contains(
                #[trigger] purge_leases(s, d)[k],
            ) by {
                let j = choose|j: int|
                    0 <= j < s.drop_first().len() && s.drop_first()[j] == purge_leases(s, d)[k];
                assert(s[j + 1] == purge_leases(s, d)[k]);
            }
        }
    }
}

/// Purging keeps lease ids unique.
proof fn lemma_purge_unique(s: Seq<LeaseRecord>, d: u32)
    requires
        forall|i: int, j: int| 0 <= i < j < s.len() ==> s[i].lease_id != s[j].lease_id,
    ensures
        forall|i: int, j: int|
            0 <= i < j < purge_leases(s, d).len() ==> purge_leases(s, d)[i].lease_id
                != purge_leases(s, d)[j].lease_id,
    decreases s.len(),
{
    if s.len() > 0 {
        assert(forall|i: int, j: int|
            0 <= i < j < s.drop_first().len() ==> #[trigger] s.drop_first()[i].lease_id
                != #[trigger] s.drop_first()[j].lease_id);
        lemma_purge_unique(s.drop_first(), d);
        lemma_purge_props(s.drop_first(), d);
        if s[0].display_id != d {
            let rest = purge_leases(s.drop_first(), d);
            let p = seq![s[0]] + rest;
            assert forall|i: int, j: int| 0 <= i < j < p.len() implies p[i].lease_id
                != p[j].lease_id by {
                if i == 0 {
                    let w = choose|w: int|
                        0 <= w < s.drop_first().len() && s.drop_first()[w] == rest[j - 1];
                    assert(s[w + 1] == rest[j - 1]);
                } else {
                    assert(p[i] == rest[i - 1] && p[j] == rest[j - 1]);
                }
            }
        }
    }
}

/// Purging a display strikes out every lease that named it: a lease
/// whose record pointed at the purged display is gone from the
/// ledger afterwards.
proof fn lemma_purge_drops_lease(s: Seq<LeaseRecord>, d: u32, l: u64)
    requires
        forall|i: int, j: int| 0 <= i < j < s.len() ==> s[i].lease_id != s[j].lease_id,
        lease_idx(s, l) >= 0,
        s[lease_idx(s, l)].display_id == d,
    ensures
        lease_idx(purge_leases(s, d), l) == -1,
{
    lemma_purge_props(s, d);
    lemma_lease_idx_props(s, l, 0);
    let p = purge_leases(s, d);
    if lease_idx(p, l) != -1 {
        lemma_lease_idx_props(p, l, 0);
        let k = lease_idx(p, l);
        let j = choose|j: int| 0 <= j < s.len() && s[j] == p[k];
        assert(s[j].lease_id == l);
        assert(j == lease_idx(s, l));
        assert(false);
    }
}

/// How pushing an item moves the display index, mirroring the shape
/// of the ledger and pool lemmas.
proof fn lemma_item_idx_push(s: Seq<SurfaceItem>, e: SurfaceItem, d: u32, i: int)
    requires
        0 <= i <= s.len(),
    ensures
        item_idx_from(s.push(e), d, i) == if item_idx_from(s, d, i) >= 0 {
            item_idx_from(s, d, i)
        } else if e.info.id == d {
            s.len() as int
        } else {
            -1
        },
    decreases s.len() - i,
{
    if i < s.len() {
        if s[i].info.id != d {
            lemma_item_idx_push(s, e, d, i + 1);
        }
    } else {
        assert(item_idx_from(s, d, i) == -1);
        if e.info.id == d {
            assert(s.push(e)[i] == e);
        } else {
            assert(item_idx_from(s.push(e), d, i + 1) == -1);
        }
    }
}

/// Replacing an item with one for the same display moves no index.
proof fn lemma_item_idx_update(s: Seq<SurfaceItem>, k: int, e: SurfaceItem, d: u32, i: int)
    requires
        0 <= k < s.len(),
        e.info.id == s[k].info.id,
        0 <= i <= s.len(),
    ensures
        item_idx_from(s.update(k, e), d, i) == item_idx_from(s, d, i),
    decreases s.len() - i,
{
    if i < s.len() {
        if s[i].info.id != d {
            lemma_item_idx_update(s, k, e, d, i + 1);
        }
    }
}

/// In a ledger of unique display ids, `item_idx` finds exactly the
/// position that carries the id.
proof fn lemma_item_idx_finds(s: Seq<SurfaceItem>, j: int)
    requires
        forall|a: int, b: int| 0 <= a < b < s.len() ==> s[a].info.id != s[b].info.id,
        0 <= j < s.len(),
    ensures
        item_idx(s, s[j].info.id) == j,
{
    lemma_item_idx_props(s, s[j].info.id, 0);
}

/// In a ledger of unique lease ids, `lease_idx` finds exactly the
/// position that carries the id.
proof fn lemma_lease_idx_finds(s: Seq<LeaseRecord>, j: int)
    requires
        forall|a: int, b: int| 0 <= a < b < s.len() ==> s[a].lease_id != s[b].lease_id,
        0 <= j < s.len(),
    ensures
        lease_idx(s, s[j].lease_id) == j,
{
    lemma_lease_idx_props(s, s[j].lease_id, 0);
}

/// The first display that can take one more shared lease: it is
/// leased already and its count has room, at or after `i`.
pub open spec fn shared_idx_from(s: Seq<SurfaceItem>, i: int) -> int
    decreases s.len() - i,
{
    if i < 0 || i >= s.len() {
        -1
    } else if 0 < s[i].ref_count < u32::MAX {
        i
    } else {
        shared_idx_from(s, i + 1)
    }
}

/// The first display that can take one more shared lease, or -1.
pub open spec fn shared_idx(s: Seq<SurfaceItem>) -> int {
    shared_idx_from(s, 0)
}

/// Finds the first shareable display, agreeing with `shared_idx`.
fn find_shared(s: &Vec<SurfaceItem>) -> (r: Option<usize>)
    ensures
        match r {
            Some(i) => shared_idx(s@) == i && i < s@.len() && 0 < s@[i as int].ref_count < u32::MAX,
            None => shared_idx(s@) == -1,
        },
{
    let mut i: usize = 0;
    while i < s.len()
        invariant
            0 <= i <= s@.len(),
            shared_idx(s@) == shared_idx_from(s@, i as int),
        decreases s@.len() - i,
    {
        if s[i].ref_count > 0 && s[i].ref_count < u32::MAX {
            return Some(i);
        }
        i += 1;
    }
    None
}

/// The displays a caller may see: those with valid geometry, in the
/// manager's order.
pub open spec fn visible_displays(items: Seq<SurfaceItem>) -> Seq<DisplayInfo>
    decreases items.len(),
{
    if items.len() == 0 {
        Seq::empty()
    } else if valid_geometry(items[0].info) {
        seq![items[0].info] + visible_displays(items.drop_first())
    } else {
        visible_displays(items.drop_first())
    }
}

/// Finds the item for display `d`, agreeing with `item_idx`.
fn find_item(s: &Vec<SurfaceItem>, d: u32) -> (r: Option<usize>)
    ensures
        match r {
            Some(i) => item_idx(s@, d) == i && i < s@.len() && s@[i as int].info.id == d,
            None => item_idx(s@, d) == -1,
        },
{
    let mut i: usize = 0;
    while i < s.len()
        invariant
            0 <= i <= s@.len(),
            item_idx(s@, d) == item_idx_from(s@, d, i as int),
        decreases s@.len() - i,
    {
        if s[i].info.id == d {
            return Some(i);
        }
        i += 1;
    }
    None
}

/// Finds the record for lease `l`, agreeing with `lease_idx`.
fn find_lease(s: &Vec<LeaseRecord>, l: u64) -> (r: Option<usize>)
    ensures
        match r {
            Some(i) => lease_idx(s@, l) == i && i < s@.len() && s@[i as int].lease_id == l,
            None => lease_idx(s@, l) == -1,
        },
{
    let mut i: usize = 0;
    while i < s.len()
        invariant
            0 <= i <= s@.len(),
            lease_idx(s@, l) == lease_idx_from(s@, l, i as int),
        decreases s@.len() - i,
    {
        if s[i].lease_id == l {
            return Some(i);
        }
        i += 1;
    }
    None
}

/// Finds `x` in a pool list, agreeing with `pool_idx`.
fn find_pool(s: &Vec<u32>, x: u32) -> (r: Option<usize>)
    ensures
        match r {
            Some(i) => pool_idx(s@, x) == i && i < s@.len() && s@[i as int] == x,
            None => pool_idx(s@, x) == -1,
        },
{
    let mut i: usize = 0;
    while i < s.len()
        invariant
            0 <= i <= s@.len(),
            pool_idx(s@, x) == pool_idx_from(s@, x, i as int),
        decreases s@.len() - i,
    {
        if s[i] == x {
            return Some(i);
        }
        i += 1;
    }
    None
}

/// Finds a ticket in the waiter queue, agreeing with `ticket_idx`.
fn find_ticket(s: &Vec<u64>, x: u64) -> (r: Option<usize>)
    ensures
        match r {
            Some(i) => ticket_idx(s@, x) == i && i < s@.len() && s@[i as int] == x,
            None => ticket_idx(s@, x) == -1,
        },
{
    let mut i: usize = 0;
    while i < s.len()
        invariant
            0 <= i <= s@.len(),
            ticket_idx(s@, x) == ticket_idx_from(s@, x, i as int),
        decreases s@.len() - i,
    {
        if s[i] == x {
            return Some(i);
        }
        i += 1;
    }
    None
}

/// Granting the head of the available pool preserves the invariant.
proof fn lease_pool_grant_inv(m0: OverlayModel, m1: OverlayModel, k: int, d: u32)
    requires
        inv(m0),
        m0.next_lease < u64::MAX,
        m0.available.len() > 0,
        d == m0.available[0],
        k == item_idx(m0.items, d),
        0 <= k < m0.items.len(),
        m1.items == m0.items.update(
            k,
            (SurfaceItem {
                info: m0.items[k].info,
                phase: if m0.items[k].phase == SurfacePhase::Unbound {
                    SurfacePhase::Configuring
                } else {
                    m0.items[k].phase
                },
                ref_count: 1,
                surf_width: m0.items[k].surf_width,
                surf_height: m0.items[k].surf_height,
            }),
        ),
        m1.available == m0.available.drop_first(),
        m1.leases == m0.leases.push(
            (LeaseRecord { lease_id: m0.next_lease, display_id: d }),
        ),
        m1.next_lease == m0.next_lease + 1,
        m1.waiters == m0.waiters || (m0.waiters.len() > 0 && m1.waiters == m0.waiters.drop_first()),
        m1.next_ticket == m0.next_ticket,
    ensures
        inv(m1),
{
    lemma_item_idx_props(m0.items, d, 0);
    let rec = LeaseRecord { lease_id: m0.next_lease, display_id: d };
    assert forall|a: int, b: int| 0 <= a < b < m1.waiters.len() implies m1.waiters[a]
        != m1.waiters[b] by {
        if m1.waiters != m0.waiters {
            assert(m1.waiters[a] == m0.waiters[a + 1] && m1.waiters[b] == m0.waiters[b + 1]);
        }
    }
    assert forall|a: int| 0 <= a < m1.waiters.len() implies (#[trigger] m1.waiters[a])
        < m1.next_ticket by {
        if m1.waiters != m0.waiters {
            assert(m1.waiters[a] == m0.waiters[a + 1]);
        }
    }
    assert forall|d2: u32| true implies #[trigger] item_idx(m1.items, d2) == item_idx(
        m0.items,
        d2,
    ) by {
        lemma_item_idx_update(m0.items, k, m1.items[k], d2, 0);
    }
    assert forall|x: u32| true implies #[trigger] count_leases(m1.leases, x) == count_leases(
        m0.leases,
        x,
    ) + (if x == d {
        1nat
    } else {
        0nat
    }) by {
        lemma_count_push(m0.leases, rec, x);
    }
    assert forall|i: int| 0 <= i < m1.available.len() implies {
        let k3 = item_idx(m1.items, #[trigger] m1.available[i]);
        &&& k3 >= 0
        &&& m1.items[k3].ref_count == 0
        &&& m1.items[k3].phase != SurfacePhase::Closed
        &&& valid_geometry(m1.items[k3].info)
    } by {
        let x = m1.available[i];
        assert(x == m0.available[i + 1]);
        assert(item_idx(m0.items, x) >= 0);
        lemma_item_idx_props(m0.items, x, 0);
        assert(x != d);
        assert(m1.items[item_idx(m0.items, x)] == m0.items[item_idx(m0.items, x)]);
    }
    assert forall|k2: int|
        0 <= k2 < m1.items.len() && (#[trigger] m1.items[k2]).ref_count == 0 && m1.items[k2].phase
            != SurfacePhase::Closed && valid_geometry(m1.items[k2].info) implies m1.available.contains(
        m1.items[k2].info.id,
    ) by {
        assert(k2 != k);
        let x = m1.items[k2].info.id;
        assert(m1.items[k2] == m0.items[k2]);
        assert(m0.available.contains(x));
        let w = choose|w: int| 0 <= w < m0.available.len() && m0.available[w] == x;
        if x == d {
            assert(m0.items[k2].info.id == m0.items[k].info.id);
            assert(false);
        }
        assert(w != 0);
        assert(m1.available[w - 1] == x);
    }
    assert forall|i: int| 0 <= i < m1.leases.len() implies {
        let k3 = item_idx(m1.items, (#[trigger] m1.leases[i]).display_id);
        &&& k3 >= 0
        &&& m1.items[k3].phase != SurfacePhase::Closed
    } by {
        if i < m0.leases.len() {
            assert(m1.leases[i] == m0.leases[i]);
            lemma_item_idx_props(m0.items, m0.leases[i].display_id, 0);
        } else {
            assert(m1.leases[i] == rec);
        }
    }
    assert forall|i: int, j: int| 0 <= i < j < m1.leases.len() implies m1.leases[i].lease_id
        != m1.leases[j].lease_id by {
        if j == m1.leases.len() - 1 {
            assert(m1.leases[i] == m0.leases[i]);
        } else {
            assert(m1.leases[i] == m0.leases[i] && m1.leases[j] == m0.leases[j]);
        }
    }
    assert forall|k2: int| 0 <= k2 < m1.items.len() implies (#[trigger] m1.items[k2]).ref_count
        == count_leases(m1.leases, m1.items[k2].info.id) by {
        if k2 != k {
            assert(m1.items[k2] == m0.items[k2]);
            if m0.items[k2].info.id == d {
                assert(false);
            }
        }
    }
    assert(inv(m1));
}

/// Granting one more shared lease on an already leased display
/// preserves the invariant.
proof fn lease_share_grant_inv(m0: OverlayModel, m1: OverlayModel, k: int, d: u32)
    requires
        inv(m0),
        m0.next_lease < u64::MAX,
        m0.available.len() == 0,
        0 <= k < m0.items.len(),
        0 < m0.items[k].ref_count < u32::MAX,
        d == m0.items[k].info.id,
        m1.items == m0.items.update(
            k,
            (SurfaceItem {
                info: m0.items[k].info,
                phase: m0.items[k].phase,
                ref_count: (m0.items[k].ref_count + 1) as u32,
                surf_width: m0.items[k].surf_width,
                surf_height: m0.items[k].surf_height,
            }),
        ),
        m1.available == m0.available,
        m1.leases == m0.leases.push(
            (LeaseRecord { lease_id: m0.next_lease, display_id: d }),
        ),
        m1.next_lease == m0.next_lease + 1,
        m1.waiters == m0.waiters,
        m1.next_ticket == m0.next_ticket,
    ensures
        inv(m1),
{
    let rec = LeaseRecord { lease_id: m0.next_lease, display_id: d };
    assert forall|d2: u32| true implies #[trigger] item_idx(m1.items, d2) == item_idx(
        m0.items,
        d2,
    ) by {
        lemma_item_idx_update(m0.items, k, m1.items[k], d2, 0);
    }
    assert forall|x: u32| true implies #[trigger] count_leases(m1.leases, x) == count_leases(
        m0.leases,
        x,
    ) + (if x == d {
        1nat
    } else {
        0nat
    }) by {
        lemma_count_push(m0.leases, rec, x);
    }
    assert forall|k2: int|
        0 <= k2 < m1.items.len() && (#[trigger] m1.items[k2]).ref_count == 0 && m1.items[k2].phase
            != SurfacePhase::Closed && valid_geometry(m1.items[k2].info) implies m1.available.contains(
        m1.items[k2].info.id,
    ) by {
        assert(k2 != k);
        assert(m1.items[k2] == m0.items[k2]);
        assert(m0.available.contains(m0.items[k2].info.id));
    }
    assert forall|i: int| 0 <= i < m1.leases.len() implies {
        let k3 = item_idx(m1.items, (#[trigger] m1.leases[i]).display_id);
        &&& k3 >= 0
        &&& m1.items[k3].phase != SurfacePhase::Closed
    } by {
        if i < m0.leases.len() {
            assert(m1.leases[i] == m0.leases[i]);
            lemma_item_idx_props(m0.items, m0.leases[i].display_id, 0);
        } else {
            assert(m1.leases[i] == rec);
            lemma_item_idx_finds(m0.items, k);
        }
    }
    assert forall|i: int, j: int| 0 <= i < j < m1.leases.len() implies m1.leases[i].lease_id
        != m1.leases[j].lease_id by {
        if j == m1.leases.len() - 1 {
            assert(m1.leases[i] == m0.leases[i]);
        } else {
            assert(m1.leases[i] == m0.leases[i] && m1.leases[j] == m0.leases[j]);
        }
    }
    assert forall|k2: int| 0 <= k2 < m1.items.len() implies (#[trigger] m1.items[k2]).ref_count
        == count_leases(m1.leases, m1.items[k2].info.id) by {
        lemma_item_idx_finds(m0.items, k);
        if k2 != k {
            assert(m1.items[k2] == m0.items[k2]);
            if m0.items[k2].info.id == d {
                assert(false);
            }
        }
    }
    assert(inv(m1));
}

/// Retiring a display in place — phase closed, count zero, every
/// lease on it purged, its pool slot gone — preserves the invariant.
proof fn lease_close_inv(m0: OverlayModel, m1: OverlayModel, k: int, d: u32)
    requires
        inv(m0),
        k == item_idx(m0.items, d),
        0 <= k < m0.items.len(),
        m1.items == m0.items.update(k, m1.items[k]),
        m1.items.len() == m0.items.len(),
        m1.items[k].info.id == d,
        m1.items[k].phase == SurfacePhase::Closed,
        m1.items[k].ref_count == 0,
        m1.leases == purge_leases(m0.leases, d),
        m1.available == (if pool_idx(m0.available, d) >= 0 {
            m0.available.remove(pool_idx(m0.available, d))
        } else {
            m0.available
        }),
        m1.waiters == m0.waiters,
        m1.next_lease == m0.next_lease,
        m1.next_ticket == m0.next_ticket,
    ensures
        inv(m1),
{
    lemma_item_idx_props(m0.items, d, 0);
    lemma_purge_props(m0.leases, d);
    lemma_purge_unique(m0.leases, d);
    lemma_pool_idx_props(m0.available, d, 0);
    let p = pool_idx(m0.available, d);
    if p >= 0 {
        m0.available.remove_ensures(p);
    }
    assert forall|d2: u32| true implies #[trigger] item_idx(m1.items, d2) == item_idx(
        m0.items,
        d2,
    ) by {
        lemma_item_idx_update(m0.items, k, m1.items[k], d2, 0);
    }
    assert forall|i2: int| 0 <= i2 < m1.available.len() implies {
        let k3 = item_idx(m1.items, #[trigger] m1.available[i2]);
        &&& k3 >= 0
        &&& m1.items[k3].ref_count == 0
        &&& m1.items[k3].phase != SurfacePhase::Closed
        &&& valid_geometry(m1.items[k3].info)
    } by {
        let x = m1.available[i2];
        if p >= 0 {
            if i2 < p {
                assert(x == m0.available[i2]);
            } else {
                assert(x == m0.available[i2 + 1]);
            }
        } else {
            assert(x == m0.available[i2]);
        }
        assert(m0.available.contains(x));
        assert(item_idx(m0.items, x) >= 0);
        lemma_item_idx_props(m0.items, x, 0);
        assert(x != d);
        assert(m1.items[item_idx(m0.items, x)] == m0.items[item_idx(m0.items, x)]);
    }
    assert forall|k2: int|
        0 <= k2 < m1.items.len() && (#[trigger] m1.items[k2]).ref_count == 0 && m1.items[k2].phase
            != SurfacePhase::Closed && valid_geometry(m1.items[k2].info) implies m1.available.contains(
        m1.items[k2].info.id,
    ) by {
        assert(k2 != k);
        let x = m1.items[k2].info.id;
        assert(m1.items[k2] == m0.items[k2]);
        assert(m0.available.contains(x));
        let w = choose|w: int| 0 <= w < m0.available.len() && m0.available[w] == x;
        if x == d {
            assert(m0.items[k2].info.id == m0.items[k].info.id);
            assert(false);
        }
        if p >= 0 {
            assert(w != p);
            if w < p {
                assert(m1.available[w] == x);
            } else {
                assert(m1.available[w - 1] == x);
            }
        } else {
            assert(m1.available[w] == x);
        }
    }
    assert forall|j: int| 0 <= j < m1.leases.len() implies {
        let k3 = item_idx(m1.items, (#[trigger] m1.leases[j]).display_id);
        &&& k3 >= 0
        &&& m1.items[k3].phase != SurfacePhase::Closed
    } by {
        let rec = m1.leases[j];
        assert(m0.leases.contains(rec));
        let w = choose|w: int| 0 <= w < m0.leases.len() && m0.leases[w] == rec;
        assert(m0.leases[w] == rec);
        lemma_item_idx_props(m0.items, rec.display_id, 0);
        assert(rec.display_id != d);
        assert(m1.items[item_idx(m0.items, rec.display_id)] == m0.items[item_idx(
            m0.items,
            rec.display_id,
        )]);
    }
    assert forall|j: int| 0 <= j < m1.leases.len() implies (#[trigger] m1.leases[j]).lease_id
        < m1.next_lease by {
        let rec = m1.leases[j];
        assert(m0.leases.contains(rec));
        let w = choose|w: int| 0 <= w < m0.leases.len() && m0.leases[w] == rec;
        assert(m0.leases[w] == rec);
    }
    assert forall|k2: int| 0 <= k2 < m1.items.len() implies (#[trigger] m1.items[k2]).ref_count
        == count_leases(m1.leases, m1.items[k2].info.id) by {
        if k2 != k {
            assert(m1.items[k2] == m0.items[k2]);
            if m0.items[k2].info.id == d {
                assert(false);
            }
        }
    }
    assert(inv(m1));
}

/// Strikes every lease on one display from the ledger, agreeing with
/// `purge_leases`.
fn purge_vec(leases: &Vec<LeaseRecord>, display_id: u32) -> (out: Vec<LeaseRecord>)
    ensures
        out@ == purge_leases(leases@, display_id),
{
    let mut out: Vec<LeaseRecord> = Vec::new();
    let mut i: usize = 0;
    proof {
        assert(leases@.skip(0) =~= leases@);
        assert(Seq::<LeaseRecord>::empty() + purge_leases(leases@, display_id) =~= purge_leases(
            leases@,
            display_id,
        ));
    }
    while i < leases.len()
        invariant
            0 <= i <= leases@.len(),
            purge_leases(leases@, display_id) =~= out@ + purge_leases(
                leases@.skip(i as int),
                display_id,
            ),
        decreases leases@.len() - i,
    {
        proof {
            assert(leases@.skip(i as int)[0] == leases@[i as int]);
            assert(leases@.skip(i as int).drop_first() =~= leases@.skip(i as int + 1));
        }
        let rec = leases[i];
        if rec.display_id != display_id {
            out.push(rec);
        }
        i += 1;
    }
    proof {
        assert(leases@.skip(leases@.len() as int) =~= Seq::<LeaseRecord>::empty());
        assert(out@ + Seq::<LeaseRecord>::empty() =~= out@);
    }
    out
}

/// How often a display id occurs in a pool list.
pub open spec fn pool_count(s: Seq<u32>, x: u32) -> nat
    decreases s.len(),
{
    if s.len() == 0 {
        0
    } else {
        (if s[0] == x {
            1nat
        } else {
            0nat
        }) + pool_count(s.drop_first(), x)
    }
}

/// Pushing onto a pool raises exactly the pushed id's count.
proof fn lemma_pool_count_push(s: Seq<u32>, r: u32, x: u32)
    ensures
        pool_count(s.push(r), x) == pool_count(s, x) + (if r == x {
            1nat
        } else {
            0nat
        }),
    decreases s.len(),
{
    if s.len() == 0 {
        assert(s.push(r)[0] == r);
        assert(s.push(r).drop_first() =~= Seq::<u32>::empty());
        assert(pool_count(s, x) == 0);
        assert(pool_count(Seq::<u32>::empty(), x) == 0);
        assert(pool_count(s.push(r), x) == (if r == x {
            1nat
        } else {
            0nat
        }) + pool_count(Seq::<u32>::empty(), x));
    } else {
        assert(s.push(r)[0] == s[0]);
        assert(s.push(r).drop_first() =~= s.drop_first().push(r));
        lemma_pool_count_push(s.drop_first(), r, x);
        assert(pool_count(s, x) == (if s[0] == x {
            1nat
        } else {
            0nat
        }) + pool_count(s.drop_first(), x));
        assert(pool_count(s.push(r), x) == (if s[0] == x {
            1nat
        } else {
            0nat
        }) + pool_count(s.drop_first().push(r), x));
    }
}

/// A display id's pool count is zero exactly when no slot holds it.
proof fn lemma_pool_count_zero(s: Seq<u32>, x: u32)
    ensures
        (pool_count(s, x) == 0) <==> (forall|i: int| 0 <= i < s.len() ==> s[i] != x),
    decreases s.len(),
{
    if s.len() > 0 {
        lemma_pool_count_zero(s.drop_first(), x);
        if pool_count(s, x) == 0 {
            assert forall|i: int| 0 <= i < s.len() implies s[i] != x by {
                if i > 0 {
                    assert(s.drop_first()[i - 1] == s[i]);
                }
            }
        }
        if forall|i: int| 0 <= i < s.len() ==> s[i] != x {
            assert forall|i: int| 0 <= i < s.drop_first().len() implies s.drop_first()[i] != x by {
                assert(s.drop_first()[i] == s[i + 1]);
            }
            assert(pool_count(s.drop_first(), x) == 0);
        }
    }
}

/// Purging a display no lease names leaves the ledger as it was.
proof fn lemma_purge_noop(s: Seq<LeaseRecord>, d: u32)
    requires
        forall|i: int| 0 <= i < s.len() ==> (#[trigger] s[i]).display_id != d,
    ensures
        purge_leases(s, d) == s,
    decreases s.len(),
{
    if s.len() == 0 {
        assert(purge_leases(s, d) =~= s);
    } else {
        assert forall|i: int|
            0 <= i < s.drop_first().len() implies (#[trigger] s.drop_first()[i]).display_id
            != d by {
            assert(s.drop_first()[i] == s[i + 1]);
        }
        lemma_purge_noop(s.drop_first(), d);
        assert(seq![s[0]] + s.drop_first() =~= s);
    }
}

/// A configure acknowledgement that lands on a configuring or ready
/// surface preserves the invariant.
proof fn configure_ready_inv(m0: OverlayModel, m1: OverlayModel, k: int, d: u32)
    requires
        inv(m0),
        k == item_idx(m0.items, d),
        0 <= k < m0.items.len(),
        m0.items[k].phase == SurfacePhase::Configuring || m0.items[k].phase == SurfacePhase::Ready,
        m1.items == m0.items.update(k, m1.items[k]),
        m1.items.len() == m0.items.len(),
        m1.items[k].info == m0.items[k].info,
        m1.items[k].phase == SurfacePhase::Ready,
        m1.items[k].ref_count == m0.items[k].ref_count,
        m1.available == m0.available,
        m1.leases == m0.leases,
        m1.waiters == m0.waiters,
        m1.next_lease == m0.next_lease,
        m1.next_ticket == m0.next_ticket,
    ensures
        inv(m1),
{
    lemma_item_idx_props(m0.items, d, 0);
    assert forall|d2: u32| true implies #[trigger] item_idx(m1.items, d2) == item_idx(
        m0.items,
        d2,
    ) by {
        lemma_item_idx_update(m0.items, k, m1.items[k], d2, 0);
    }
    assert forall|i2: int| 0 <= i2 < m1.available.len() implies {
        let k3 = item_idx(m1.items, #[trigger] m1.available[i2]);
        &&& k3 >= 0
        &&& m1.items[k3].ref_count == 0
        &&& m1.items[k3].phase != SurfacePhase::Closed
        &&& valid_geometry(m1.items[k3].info)
    } by {
        let x = m1.available[i2];
        assert(m0.available[i2] == x);
        assert(item_idx(m0.items, x) >= 0);
        lemma_item_idx_props(m0.items, x, 0);
        if item_idx(m0.items, x) != k {
            assert(m1.items[item_idx(m0.items, x)] == m0.items[item_idx(m0.items, x)]);
        }
    }
    assert forall|k2: int|
        0 <= k2 < m1.items.len() && (#[trigger] m1.items[k2]).ref_count == 0 && m1.items[k2].phase
            != SurfacePhase::Closed && valid_geometry(m1.items[k2].info) implies m1.available.contains(
        m1.items[k2].info.id,
    ) by {
        if k2 != k {
            assert(m1.items[k2] == m0.items[k2]);
        }
        assert(m0.available.contains(m0.items[k2].info.id));
    }
    assert forall|j: int| 0 <= j < m1.leases.len() implies {
        let k3 = item_idx(m1.items, (#[trigger] m1.leases[j]).display_id);
        &&& k3 >= 0
        &&& m1.items[k3].phase != SurfacePhase::Closed
    } by {
        assert(m1.leases[j] == m0.leases[j]);
        lemma_item_idx_props(m0.items, m0.leases[j].display_id, 0);
        if item_idx(m0.items, m0.leases[j].display_id) != k {
            assert(m1.items[item_idx(m0.items, m0.leases[j].display_id)] == m0.items[item_idx(
                m0.items,
                m0.leases[j].display_id,
            )]);
        }
    }
    assert forall|k2: int| 0 <= k2 < m1.items.len() implies (#[trigger] m1.items[k2]).ref_count
        == count_leases(m1.leases, m1.items[k2].info.id) by {
        if k2 != k {
            assert(m1.items[k2] == m0.items[k2]);
        }
    }
    assert(inv(m1));
}

/// What releasing a lease does to the manager, as one function of the
/// model: nothing for an unknown lease; otherwise the ledger loses
/// the record, the display's count drops by one and, exactly at
/// zero, the display re-enters the pool tail — torn down to
/// `Unbound` when the policy says so.
pub open spec fn release_model(m: OverlayModel, l: u64) -> OverlayModel {
    let i = lease_idx(m.leases, l);
    if i < 0 {
        m
    } else {
        let d = m.leases[i].display_id;
        let k = item_idx(m.items, d);
        let freed = m.items[k].ref_count == 1;
        OverlayModel {
            items: m.items.update(
                k,
                SurfaceItem {
                    info: m.items[k].info,
                    phase: if freed && m.config.teardown_on_release {
                        SurfacePhase::Unbound
                    } else {
                        m.items[k].phase
                    },
                    ref_count: (m.items[k].ref_count - 1) as u32,
                    surf_width: m.items[k].surf_width,
                    surf_height: m.items[k].surf_height,
                },
            ),
            available: if freed && valid_geometry(m.items[k].info) {
                m.available.push(d)
            } else {
                m.available
            },
            leases: m.leases.remove(i),
            waiters: m.waiters,
            next_lease: m.next_lease,
            next_ticket: m.next_ticket,
            config: m.config,
        }
    }
}

/// Releasing a live lease preserves the invariant.
proof fn lease_release_inv(m0: OverlayModel, m1: OverlayModel, i: int, k: int, d: u32)
    requires
        inv(m0),
        0 <= i < m0.leases.len(),
        d == m0.leases[i].display_id,
        k == item_idx(m0.items, d),
        0 <= k < m0.items.len(),
        m0.items[k].ref_count > 0,
        m1.items == m0.items.update(
            k,
            (SurfaceItem {
                info: m0.items[k].info,
                phase: if m0.items[k].ref_count == 1 && m0.config.teardown_on_release {
                    SurfacePhase::Unbound
                } else {
                    m0.items[k].phase
                },
                ref_count: (m0.items[k].ref_count - 1) as u32,
                surf_width: m0.items[k].surf_width,
                surf_height: m0.items[k].surf_height,
            }),
        ),
        m1.leases == m0.leases.remove(i),
        m1.available == (if m0.items[k].ref_count == 1 && valid_geometry(m0.items[k].info) {
            m0.available.push(d)
        } else {
            m0.available
        }),
        m1.waiters == m0.waiters,
        m1.next_lease == m0.next_lease,
        m1.next_ticket == m0.next_ticket,
    ensures
        inv(m1),
{
    lemma_item_idx_props(m0.items, d, 0);
    m0.leases.remove_ensures(i);
    let freed = m0.items[k].ref_count == 1;
    assert forall|d2: u32| true implies #[trigger] item_idx(m1.items, d2) == item_idx(
        m0.items,
        d2,
    ) by {
        lemma_item_idx_update(m0.items, k, m1.items[k], d2, 0);
    }
    assert forall|x: u32| true implies #[trigger] count_leases(m1.leases, x) == count_leases(
        m0.leases,
        x,
    ) - (if x == d {
        1nat
    } else {
        0nat
    }) by {
        lemma_count_remove(m0.leases, i, x);
    }
    if m0.available.contains(d) {
        let w = choose|w: int| 0 <= w < m0.available.len() && m0.available[w] == d;
        assert(false);
    }
    assert forall|i2: int| 0 <= i2 < m1.available.len() implies {
        let k3 = item_idx(m1.items, #[trigger] m1.available[i2]);
        &&& k3 >= 0
        &&& m1.items[k3].ref_count == 0
        &&& m1.items[k3].phase != SurfacePhase::Closed
        &&& valid_geometry(m1.items[k3].info)
    } by {
        let x = m1.available[i2];
        if freed && valid_geometry(m0.items[k].info) && i2 == m0.available.len() {
            assert(x == d);
        } else {
            assert(x == m0.available[i2]);
            assert(item_idx(m0.items, x) >= 0);
            lemma_item_idx_props(m0.items, x, 0);
            assert(x != d);
            assert(m1.items[item_idx(m0.items, x)] == m0.items[item_idx(m0.items, x)]);
        }
    }
    assert forall|k2: int|
        0 <= k2 < m1.items.len() && (#[trigger] m1.items[k2]).ref_count == 0 && m1.items[k2].phase
            != SurfacePhase::Closed && valid_geometry(m1.items[k2].info) implies m1.available.contains(
        m1.items[k2].info.id,
    ) by {
        let x = m1.items[k2].info.id;
        if k2 == k {
            assert(x == d);
            assert(freed && valid_geometry(m0.items[k].info));
            assert(m1.available[m0.available.len() as int] == d);
        } else {
            assert(m1.items[k2] == m0.items[k2]);
            assert(m0.available.contains(x));
            let w = choose|w: int| 0 <= w < m0.available.len() && m0.available[w] == x;
            assert(m1.available[w] == x);
        }
    }
    assert forall|j: int| 0 <= j < m1.leases.len() implies {
        let k3 = item_idx(m1.items, (#[trigger] m1.leases[j]).display_id);
        &&& k3 >= 0
        &&& m1.items[k3].phase != SurfacePhase::Closed
    } by {
        let j0: int = if j < i {
            j
        } else {
            j + 1
        };
        assert(m1.leases[j] == m0.leases[j0]);
        lemma_item_idx_props(m0.items, m0.leases[j0].display_id, 0);
    }
    assert forall|a: int, b: int| 0 <= a < b < m1.leases.len() implies m1.leases[a].lease_id
        != m1.leases[b].lease_id by {
        let a0: int = if a < i {
            a
        } else {
            a + 1
        };
        let b0: int = if b < i {
            b
        } else {
            b + 1
        };
        assert(m1.leases[a] == m0.leases[a0] && m1.leases[b] == m0.leases[b0]);
    }
    assert forall|j: int| 0 <= j < m1.leases.len() implies (#[trigger] m1.leases[j]).lease_id
        < m1.next_lease by {
        let j0: int = if j < i {
            j
        } else {
            j + 1
        };
        assert(m1.leases[j] == m0.leases[j0]);
    }
    assert forall|k2: int| 0 <= k2 < m1.items.len() implies (#[trigger] m1.items[k2]).ref_count
        == count_leases(m1.leases, m1.items[k2].info.id) by {
        if k2 != k {
            assert(m1.items[k2] == m0.items[k2]);
            if m0.items[k2].info.id == d {
                assert(false);
            }
        }
    }
    assert(inv(m1));
}

impl OverlayManager {
    /// Takes a hotplug or geometry notification for one display: a
    /// new display is recorded (and pooled once its geometry is
    /// valid), a known one gets the fresh info. Leases, the surface
    /// phase and the waiters are untouched; only the display's
    /// standing in the available pool follows its leasability.
    pub fn update_display(&mut self, info: DisplayInfo)
        requires
            inv(old(self)@),
        ensures
            inv(final(self)@),
            final(self)@.leases == old(self)@.leases,
            final(self)@.waiters == old(self)@.waiters,
            final(self)@.config == old(self)@.config,
            final(self)@.next_lease == old(self)@.next_lease,
            final(self)@.next_ticket == old(self)@.next_ticket,
            item_idx(old(self)@.items, info.id) == -1 ==> final(self)@.items == old(
                self,
            )@.items.push(
                (SurfaceItem {
                    info,
                    phase: SurfacePhase::Unbound,
                    ref_count: 0,
                    surf_width: 0,
                    surf_height: 0,
                }),
            ),
            ({
                let k = item_idx(old(self)@.items, info.id);
                k >= 0 ==> final(self)@.items == old(self)@.items.update(
                    k,
                    (SurfaceItem {
                        info,
                        phase: old(self)@.items[k].phase,
                        ref_count: old(self)@.items[k].ref_count,
                        surf_width: old(self)@.items[k].surf_width,
                        surf_height: old(self)@.items[k].surf_height,
                    }),
                )
            }),
            ({
                let p = pool_idx(old(self)@.available, info.id);
                let k2 = item_idx(final(self)@.items, info.id);
                let now = final(self)@.items[k2].ref_count == 0 && final(self)@.items[k2].phase
                    != SurfacePhase::Closed && valid_geometry(info);
                if p >= 0 && !now {
                    final(self)@.available == old(self)@.available.remove(p)
                } else if p < 0 && now {
                    final(self)@.available == old(self)@.available.push(info.id)
                } else {
                    final(self)@.available == old(self)@.available
                }
            }),
    {
        let ghost m0 = self@;
        let id = info.id;
        match find_item(&self.items, id) {
            None => {
                proof {
                    lemma_item_idx_props(m0.items, id, 0);
                    lemma_pool_idx_props(m0.available, id, 0);
                    if pool_idx(m0.available, id) >= 0 {
                        assert(m0.available[pool_idx(m0.available, id)] == id);
                        assert(false);
                    }
                }
                let valid = info.width > 0 && info.height > 0;
                let item = SurfaceItem {
                    info,
                    phase: SurfacePhase::Unbound,
                    ref_count: 0,
                    surf_width: 0,
                    surf_height: 0,
                };
                let ghost item_g = item;
                self.items.push(item);
                if valid {
                    self.available.push(id);
                }
                proof {
                    assert forall|d2: u32| true implies #[trigger] item_idx(self@.items, d2) == (
                    if item_idx(m0.items, d2) >= 0 {
                        item_idx(m0.items, d2)
                    } else if d2 == id {
                        m0.items.len() as int
                    } else {
                        -1
                    }) by {
                        lemma_item_idx_push(m0.items, item_g, d2, 0);
                    }
                    assert forall|i: int| 0 <= i < m0.leases.len() implies (
                    #[trigger] m0.leases[i]).display_id != id by {
                        if m0.leases[i].display_id == id {
                            assert(item_idx(m0.items, id) >= 0);
                        }
                    }
                    lemma_count_zero(m0.leases, id);
                    assert forall|i: int| 0 <= i < self@.available.len() implies {
                        let k = item_idx(self@.items, #[trigger] self@.available[i]);
                        &&& k >= 0
                        &&& self@.items[k].ref_count == 0
                        &&& self@.items[k].phase != SurfacePhase::Closed
                        &&& valid_geometry(self@.items[k].info)
                    } by {
                        if i < m0.available.len() {
                            assert(self@.available[i] == m0.available[i]);
                            let x = m0.available[i];
                            assert(item_idx(m0.items, x) >= 0);
                            lemma_item_idx_props(m0.items, x, 0);
                            let k0 = item_idx(m0.items, x);
                            assert(self@.items[k0] == m0.items[k0]);
                        } else {
                            assert(self@.available[i] == id);
                            assert(self@.items[m0.items.len() as int] == item_g);
                        }
                    }
                    assert forall|k: int|
                        0 <= k < self@.items.len() && (#[trigger] self@.items[k]).ref_count == 0
                            && self@.items[k].phase != SurfacePhase::Closed && valid_geometry(
                            self@.items[k].info,
                        ) implies self@.available.contains(self@.items[k].info.id) by {
                        if k < m0.items.len() {
                            let x = m0.items[k].info.id;
                            assert(m0.available.contains(x));
                            let w = choose|w: int| 0 <= w < m0.available.len() && m0.available[w] == x;
                            assert(self@.available[w] == x);
                        } else {
                            assert(self@.items[k] == item_g);
                            if valid_geometry(info) {
                                assert(self@.available[self@.available.len() - 1] == id);
                            }
                        }
                    }
                    assert(self@.waiters == m0.waiters);
                    assert(self@.leases == m0.leases);
                    assert(self@.next_ticket == m0.next_ticket);
                    assert(self@.next_lease == m0.next_lease);
                    assert forall|i: int| 0 <= i < self@.leases.len() implies {
                        let k3 = item_idx(self@.items, (#[trigger] self@.leases[i]).display_id);
                        &&& k3 >= 0
                        &&& self@.items[k3].phase != SurfacePhase::Closed
                    } by {
                        let x = self@.leases[i].display_id;
                        assert(m0.leases[i] == self@.leases[i]);
                        assert(item_idx(m0.items, x) >= 0);
                        lemma_item_idx_props(m0.items, x, 0);
                    }
                    assert(inv(self@));
                }
            },
            Some(k) => {
                let ghost item_old = m0.items[k as int];
                let it = &mut self.items[k];
                it.info = info;
                let item_ref = &self.items[k];
                let leasable_now = item_ref.ref_count == 0 && !matches!(
                    item_ref.phase,
                    SurfacePhase::Closed,
                ) && item_ref.info.width > 0 && item_ref.info.height > 0;
                let ghost items1 = self.items@;
                proof {
                    assert(items1 == m0.items.update(
                        k as int,
                        (SurfaceItem {
                            info,
                            phase: item_old.phase,
                            ref_count: item_old.ref_count,
                            surf_width: item_old.surf_width,
                            surf_height: item_old.surf_height,
                        }),
                    ));
                    assert forall|d2: u32| true implies #[trigger] item_idx(items1, d2)
                        == item_idx(m0.items, d2) by {
                        lemma_item_idx_update(
                            m0.items,
                            k as int,
                            items1[k as int],
                            d2,
                            0,
                        );
                    }
                }
                match find_pool(&self.available, id) {
                    Some(p) => {
                        if !leasable_now {
                            self.available.remove(p);
                            proof {
                                m0.available.remove_ensures(p as int);
                            }
                        }
                    },
                    None => {
                        if leasable_now {
                            self.available.push(id);
                        }
                    },
                }
                proof {
                    let p0 = pool_idx(m0.available, id);
                    let now = self@.items[k as int].ref_count == 0 && self@.items[k as int].phase
                        != SurfacePhase::Closed && valid_geometry(info);
                    lemma_pool_idx_props(m0.available, id, 0);
                    assert forall|i: int| 0 <= i < self@.available.len() implies {
                        let k3 = item_idx(self@.items, #[trigger] self@.available[i]);
                        &&& k3 >= 0
                        &&& self@.items[k3].ref_count == 0
                        &&& self@.items[k3].phase != SurfacePhase::Closed
                        &&& valid_geometry(self@.items[k3].info)
                    } by {
                        let x = self@.available[i];
                        if p0 >= 0 && !now {
                            // one slot was removed; the rest carry over shifted
                            if i < p0 {
                                assert(x == m0.available[i]);
                            } else {
                                assert(x == m0.available[i + 1]);
                            }
                            assert(m0.available.contains(x));
                            let k3 = item_idx(m0.items, x);
                            assert(k3 >= 0);
                            lemma_item_idx_props(m0.items, x, 0);
                            if x == id {
                                assert(k3 == k as int);
                                assert(false);
                            }
                            assert(self@.items[k3] == m0.items[k3]);
                        } else if p0 < 0 && now && i == m0.available.len() {
                            assert(x == id);
                            assert(item_idx(self@.items, id) == k as int);
                        } else {
                            assert(x == m0.available[i]);
                            let k3 = item_idx(m0.items, x);
                            assert(k3 >= 0);
                            lemma_item_idx_props(m0.items, x, 0);
                            if x == id {
                                assert(k3 == k as int);
                            } else {
                                assert(self@.items[k3] == m0.items[k3]);
                            }
                        }
                    }
                    assert forall|k2: int|
                        0 <= k2 < self@.items.len() && (#[trigger] self@.items[k2]).ref_count == 0
                            && self@.items[k2].phase != SurfacePhase::Closed && valid_geometry(
                            self@.items[k2].info,
                        ) implies self@.available.contains(self@.items[k2].info.id) by {
                        let x = self@.items[k2].info.id;
                        if k2 == k as int {
                            if pool_idx(m0.available, id) >= 0 {
                                lemma_pool_idx_props(m0.available, id, 0);
                                assert(self@.available == m0.available);
                                assert(self@.available[pool_idx(m0.available, id)] == id);
                            } else {
                                assert(self@.available[self@.available.len() - 1] == id);
                            }
                        } else {
                            assert(m0.items[k2] == self@.items[k2]);
                            assert(m0.available.contains(x));
                            let w = choose|w: int|
                                0 <= w < m0.available.len() && m0.available[w] == x;
                            lemma_pool_idx_props(m0.available, id, 0);
                            if pool_idx(m0.available, id) >= 0 && !(self@.items[k as int].ref_count
                                == 0 && self@.items[k as int].phase != SurfacePhase::Closed
                                && valid_geometry(info)) {
                                let p = pool_idx(m0.available, id);
                                assert(x != id);
                                assert(w != p);
                                if w < p {
                                    assert(self@.available[w] == x);
                                } else {
                                    assert(self@.available[w - 1] == x);
                                }
                            } else {
                                assert(self@.available[w] == x);
                            }
                        }
                    }
                    assert(self@.waiters == m0.waiters);
                    assert(self@.leases == m0.leases);
                    assert(self@.next_ticket == m0.next_ticket);
                    assert(self@.next_lease == m0.next_lease);
                    assert forall|i: int| 0 <= i < self@.leases.len() implies {
                        let k3 = item_idx(self@.items, (#[trigger] self@.leases[i]).display_id);
                        &&& k3 >= 0
                        &&& self@.items[k3].phase != SurfacePhase::Closed
                    } by {
                        let x = self@.leases[i].display_id;
                        assert(m0.leases[i] == self@.leases[i]);
                        assert(item_idx(m0.items, x) >= 0);
                        lemma_item_idx_props(m0.items, x, 0);
                    }
                    assert(inv(self@));
                }
            },
        }
    }

    /// Takes one display from the head of the available pool — FIFO
    /// across the pool — or, with the pool empty: shares an already
    /// leased display when the policy allows it, queues the caller
    /// when the policy is to wait, and otherwise reports
    /// `NoDisplayAvailable`. Never panics. A display leaving the pool
    /// gets its surface created lazily: the returned action says
    /// whether the backend owes one.
    pub fn acquire(&mut self) -> (r: (Result<AcquireOutcome, LeaseError>, BackendAction))
        requires
            inv(old(self)@),
            old(self)@.next_lease < u64::MAX,
            old(self)@.next_ticket < u64::MAX,
        ensures
            inv(final(self)@),
            final(self)@.config == old(self)@.config,
            old(self)@.available.len() > 0 ==> ({
                let d = old(self)@.available[0];
                let k = item_idx(old(self)@.items, d);
                let lease = SurfaceLease { lease_id: old(self)@.next_lease, display_id: d };
                &&& r.0 == Ok::<AcquireOutcome, LeaseError>(AcquireOutcome::Granted(lease))
                &&& r.1 == (if old(self)@.items[k].phase == SurfacePhase::Unbound {
                    BackendAction::CreateSurface(d)
                } else {
                    BackendAction::NoBackendCall
                })
                &&& final(self)@.available == old(self)@.available.drop_first()
                &&& final(self)@.leases == old(self)@.leases.push(
                    (LeaseRecord { lease_id: old(self)@.next_lease, display_id: d }),
                )
                &&& final(self)@.next_lease == old(self)@.next_lease + 1
                &&& final(self)@.items == old(self)@.items.update(
                    k,
                    (SurfaceItem {
                        info: old(self)@.items[k].info,
                        phase: if old(self)@.items[k].phase == SurfacePhase::Unbound {
                            SurfacePhase::Configuring
                        } else {
                            old(self)@.items[k].phase
                        },
                        ref_count: 1,
                        surf_width: old(self)@.items[k].surf_width,
                        surf_height: old(self)@.items[k].surf_height,
                    }),
                )
                &&& final(self)@.waiters == old(self)@.waiters
                &&& final(self)@.next_ticket == old(self)@.next_ticket
            }),
            old(self)@.available.len() == 0 && old(self)@.config.allow_shared && shared_idx(
                old(self)@.items,
            ) >= 0 ==> ({
                let k = shared_idx(old(self)@.items);
                let d = old(self)@.items[k].info.id;
                let lease = SurfaceLease { lease_id: old(self)@.next_lease, display_id: d };
                &&& r.0 == Ok::<AcquireOutcome, LeaseError>(AcquireOutcome::Granted(lease))
                &&& r.1 == BackendAction::NoBackendCall
                &&& final(self)@.available == old(self)@.available
                &&& final(self)@.leases == old(self)@.leases.push(
                    (LeaseRecord { lease_id: old(self)@.next_lease, display_id: d }),
                )
                &&& final(self)@.next_lease == old(self)@.next_lease + 1
                &&& final(self)@.items == old(self)@.items.update(
                    k,
                    (SurfaceItem {
                        info: old(self)@.items[k].info,
                        phase: old(self)@.items[k].phase,
                        ref_count: (old(self)@.items[k].ref_count + 1) as u32,
                        surf_width: old(self)@.items[k].surf_width,
                        surf_height: old(self)@.items[k].surf_height,
                    }),
                )
                &&& final(self)@.waiters == old(self)@.waiters
                &&& final(self)@.next_ticket == old(self)@.next_ticket
            }),
            old(self)@.available.len() == 0 && !(old(self)@.config.allow_shared && shared_idx(
                old(self)@.items,
            ) >= 0) && old(self)@.config.wait_when_empty ==> ({
                &&& r.0 == Ok::<AcquireOutcome, LeaseError>(
                    AcquireOutcome::Queued(old(self)@.next_ticket),
                )
                &&& r.1 == BackendAction::NoBackendCall
                &&& final(self)@.waiters == old(self)@.waiters.push(old(self)@.next_ticket)
                &&& final(self)@.next_ticket == old(self)@.next_ticket + 1
                &&& final(self)@.items == old(self)@.items
                &&& final(self)@.available == old(self)@.available
                &&& final(self)@.leases == old(self)@.leases
                &&& final(self)@.next_lease == old(self)@.next_lease
            }),
            old(self)@.available.len() == 0 && !(old(self)@.config.allow_shared && shared_idx(
                old(self)@.items,
            ) >= 0) && !old(self)@.config.wait_when_empty ==> r.0 == Err::<
                AcquireOutcome,
                LeaseError,
            >(LeaseError::NoDisplayAvailable) && r.1 == BackendAction::NoBackendCall && *final(self)
                == *old(self),
    {
        let ghost m0 = self@;
        if self.available.len() > 0 {
            let d = self.available[0];
            self.available.remove(0);
            proof {
                lemma_item_idx_props(m0.items, d, 0);
                assert(m0.available.remove(0) =~= m0.available.drop_first());
            }
            let k = match find_item(&self.items, d) {
                Some(k) => k,
                None => {
                    proof {
                        assert(false);
                    }
                    0
                },
            };
            let was_unbound = matches!(self.items[k].phase, SurfacePhase::Unbound);
            let it = &mut self.items[k];
            it.ref_count = 1;
            if was_unbound {
                it.phase = SurfacePhase::Configuring;
            }
            let lease = SurfaceLease { lease_id: self.next_lease, display_id: d };
            self.leases.push(LeaseRecord { lease_id: self.next_lease, display_id: d });
            self.next_lease = self.next_lease + 1;
            proof {
                lease_pool_grant_inv(m0, self@, k as int, d);
            }
            let action = if was_unbound {
                BackendAction::CreateSurface(d)
            } else {
                BackendAction::NoBackendCall
            };
            (Ok(AcquireOutcome::Granted(lease)), action)
        } else {
            let shared = if self.config.allow_shared {
                find_shared(&self.items)
            } else {
                None
            };
            match shared {
                Some(k) => {
                    let d = self.items[k].info.id;
                    let it = &mut self.items[k];
                    it.ref_count = it.ref_count + 1;
                    let lease = SurfaceLease { lease_id: self.next_lease, display_id: d };
                    self.leases.push(LeaseRecord { lease_id: self.next_lease, display_id: d });
                    self.next_lease = self.next_lease + 1;
                    proof {
                        lease_share_grant_inv(m0, self@, k as int, d);
                    }
                    (Ok(AcquireOutcome::Granted(lease)), BackendAction::NoBackendCall)
                },
                None => {
                    if self.config.allow_shared {
                        proof {
                            assert(shared_idx(m0.items) == -1);
                        }
                    }
                    if self.config.wait_when_empty {
                        let ticket = self.next_ticket;
                        self.waiters.push(ticket);
                        self.next_ticket = self.next_ticket + 1;
                        proof {
                            assert forall|i: int, j: int|
                                0 <= i < j < self@.waiters.len() implies self@.waiters[i]
                                != self@.waiters[j] by {
                                if j == self@.waiters.len() - 1 {
                                    assert(self@.waiters[i] == m0.waiters[i]);
                                    assert(self@.waiters[j] == m0.next_ticket);
                                } else {
                                    assert(self@.waiters[i] == m0.waiters[i]);
                                    assert(self@.waiters[j] == m0.waiters[j]);
                                }
                            }
                            assert forall|i: int|
                                0 <= i < self@.waiters.len() implies (#[trigger] self@.waiters[i])
                                < self@.next_ticket by {
                                if i < m0.waiters.len() {
                                    assert(self@.waiters[i] == m0.waiters[i]);
                                } else {
                                    assert(self@.waiters[i] == m0.next_ticket);
                                }
                            }
                            assert(inv(self@));
                        }
                        (Ok(AcquireOutcome::Queued(ticket)), BackendAction::NoBackendCall)
                    } else {
                        (Err(LeaseError::NoDisplayAvailable), BackendAction::NoBackendCall)
                    }
                },
            }
        }
    }

    /// Gives one lease back. The display's reference count drops by
    /// one; at zero — and only then — the display re-enters the tail
    /// of the available pool, and its surface is torn down when the
    /// policy says so. The result says whether this release freed the
    /// display. A lease the ledger does not know — released twice, or
    /// dead with its closed or removed display — gets `SurfaceGone`.
    pub fn release(&mut self, lease: SurfaceLease) -> (r: (Result<bool, LeaseError>, BackendAction))
        requires
            inv(old(self)@),
        ensures
            inv(final(self)@),
            final(self)@ == release_model(old(self)@, lease.lease_id),
            final(self)@.config == old(self)@.config,
            lease_idx(old(self)@.leases, lease.lease_id) == -1 ==> ({
                &&& r.0 == Err::<bool, LeaseError>(LeaseError::SurfaceGone)
                &&& r.1 == BackendAction::NoBackendCall
                &&& *final(self) == *old(self)
            }),
            lease_idx(old(self)@.leases, lease.lease_id) >= 0 ==> ({
                let i = lease_idx(old(self)@.leases, lease.lease_id);
                let d = old(self)@.leases[i].display_id;
                let k = item_idx(old(self)@.items, d);
                let freed = old(self)@.items[k].ref_count == 1;
                &&& r.0 == Ok::<bool, LeaseError>(freed)
                &&& r.1 == (if freed && old(self)@.config.teardown_on_release {
                    BackendAction::DestroySurface(d)
                } else {
                    BackendAction::NoBackendCall
                })
                &&& final(self)@.leases == old(self)@.leases.remove(i)
                &&& final(self)@.items == old(self)@.items.update(
                    k,
                    (SurfaceItem {
                        info: old(self)@.items[k].info,
                        phase: if freed && old(self)@.config.teardown_on_release {
                            SurfacePhase::Unbound
                        } else {
                            old(self)@.items[k].phase
                        },
                        ref_count: (old(self)@.items[k].ref_count - 1) as u32,
                        surf_width: old(self)@.items[k].surf_width,
                        surf_height: old(self)@.items[k].surf_height,
                    }),
                )
                &&& final(self)@.available == (if freed && valid_geometry(old(self)@.items[k].info) {
                    old(self)@.available.push(d)
                } else {
                    old(self)@.available
                })
                &&& final(self)@.waiters == old(self)@.waiters
                &&& final(self)@.next_lease == old(self)@.next_lease
                &&& final(self)@.next_ticket == old(self)@.next_ticket
            }),
    {
        let ghost m0 = self@;
        match find_lease(&self.leases, lease.lease_id) {
            None => (Err(LeaseError::SurfaceGone), BackendAction::NoBackendCall),
            Some(i) => {
                let d = self.leases[i].display_id;
                self.leases.remove(i);
                let k = match find_item(&self.items, d) {
                    Some(k) => k,
                    None => {
                        proof {
                            assert(false);
                        }
                        0
                    },
                };
                proof {
                    if m0.items[k as int].ref_count == 0 {
                        lemma_count_zero(m0.leases, d);
                        assert(false);
                    }
                }
                let rc = self.items[k].ref_count;
                let freed = rc == 1;
                let teardown = freed && self.config.teardown_on_release;
                let valid = self.items[k].info.width > 0 && self.items[k].info.height > 0;
                let it = &mut self.items[k];
                it.ref_count = rc - 1;
                if teardown {
                    it.phase = SurfacePhase::Unbound;
                }
                if freed && valid {
                    self.available.push(d);
                }
                proof {
                    lease_release_inv(m0, self@, i as int, k as int, d);
                }
                let action = if teardown {
                    BackendAction::DestroySurface(d)
                } else {
                    BackendAction::NoBackendCall
                };
                (Ok(freed), action)
            },
        }
    }

    /// Takes the backend's word that a display's surface is gone —
    /// the output was unplugged, or the compositor withdrew the
    /// layer. The phase becomes `Closed`, which is terminal: the
    /// display leaves all pools, every lease on it dies, and any
    /// later operation on such a lease fails with `SurfaceGone`
    /// rather than hang. Reports whether the display was known.
    pub fn handle_closed(&mut self, display_id: u32) -> (r: bool)
        requires
            inv(old(self)@),
        ensures
            inv(final(self)@),
            final(self)@.config == old(self)@.config,
            r == (item_idx(old(self)@.items, display_id) >= 0),
            !r ==> *final(self) == *old(self),
            r ==> ({
                let k = item_idx(old(self)@.items, display_id);
                &&& final(self)@.items == old(self)@.items.update(
                    k,
                    (SurfaceItem {
                        info: old(self)@.items[k].info,
                        phase: SurfacePhase::Closed,
                        ref_count: 0,
                        surf_width: old(self)@.items[k].surf_width,
                        surf_height: old(self)@.items[k].surf_height,
                    }),
                )
                &&& final(self)@.leases == purge_leases(old(self)@.leases, display_id)
                &&& final(self)@.available == (if pool_idx(old(self)@.available, display_id) >= 0 {
                    old(self)@.available.remove(pool_idx(old(self)@.available, display_id))
                } else {
                    old(self)@.available
                })
                &&& final(self)@.waiters == old(self)@.waiters
                &&& final(self)@.next_lease == old(self)@.next_lease
                &&& final(self)@.next_ticket == old(self)@.next_ticket
            }),
    {
        let ghost m0 = self@;
        match find_item(&self.items, display_id) {
            None => false,
            Some(k) => {
                let it = &mut self.items[k];
                it.phase = SurfacePhase::Closed;
                it.ref_count = 0;
                let purged = purge_vec(&self.leases, display_id);
                self.leases = purged;
                match find_pool(&self.available, display_id) {
                    Some(p) => {
                        self.available.remove(p);
                    },
                    None => {},
                }
                proof {
                    lease_close_inv(m0, self@, k as int, display_id);
                }
                true
            },
        }
    }

    /// Takes a hotplug-remove for one display. The slot is retired in
    /// place — closed, unleased, geometry zeroed so enumeration skips
    /// it — so that a lease handle outliving the display still fails
    /// cleanly with `SurfaceGone`. Reports whether the display was
    /// known.
    pub fn remove_display(&mut self, display_id: u32) -> (r: bool)
        requires
            inv(old(self)@),
        ensures
            inv(final(self)@),
            final(self)@.config == old(self)@.config,
            r == (item_idx(old(self)@.items, display_id) >= 0),
            !r ==> *final(self) == *old(self),
            r ==> ({
                let k = item_idx(old(self)@.items, display_id);
                &&& final(self)@.items.len() == old(self)@.items.len()
                &&& final(self)@.items == old(self)@.items.update(k, final(self)@.items[k])
                &&& final(self)@.items[k].info.id == display_id
                &&& final(self)@.items[k].info.width == 0
                &&& final(self)@.items[k].info.height == 0
                &&& final(self)@.items[k].phase == SurfacePhase::Closed
                &&& final(self)@.items[k].ref_count == 0
                &&& final(self)@.leases == purge_leases(old(self)@.leases, display_id)
                &&& final(self)@.available == (if pool_idx(old(self)@.available, display_id) >= 0 {
                    old(self)@.available.remove(pool_idx(old(self)@.available, display_id))
                } else {
                    old(self)@.available
                })
                &&& final(self)@.waiters == old(self)@.waiters
                &&& final(self)@.next_lease == old(self)@.next_lease
                &&& final(self)@.next_ticket == old(self)@.next_ticket
            }),
    {
        let ghost m0 = self@;
        match find_item(&self.items, display_id) {
            None => false,
            Some(k) => {
                let it = &mut self.items[k];
                it.phase = SurfacePhase::Closed;
                it.ref_count = 0;
                it.info.width = 0;
                it.info.height = 0;
                let purged = purge_vec(&self.leases, display_id);
                self.leases = purged;
                match find_pool(&self.available, display_id) {
                    Some(p) => {
                        self.available.remove(p);
                    },
                    None => {},
                }
                proof {
                    lease_close_inv(m0, self@, k as int, display_id);
                }
                true
            },
        }
    }

    /// Takes the backend's configure acknowledgement for a display's
    /// surface. Only it moves a surface from `Configuring` to
    /// `Ready`; attaching a buffer before it is a protocol
    /// violation, so `request_buffer` withholds buffers until here. A
    /// repeated acknowledgement refreshes the surface geometry; one
    /// for a closed surface is ignored; one for an unknown display or
    /// an unbound surface is the backend misbehaving — that surface
    /// alone is retired, the rest of the pool is untouched.
    pub fn handle_configured(&mut self, display_id: u32, width: u32, height: u32) -> (r: Result<
        ConfigureOutcome,
        LeaseError,
    >)
        requires
            inv(old(self)@),
        ensures
            inv(final(self)@),
            final(self)@.config == old(self)@.config,
            item_idx(old(self)@.items, display_id) == -1 ==> r == Err::<
                ConfigureOutcome,
                LeaseError,
            >(LeaseError::ProtocolViolation) && *final(self) == *old(self),
            item_idx(old(self)@.items, display_id) >= 0 ==> ({
                let k = item_idx(old(self)@.items, display_id);
                let ph = old(self)@.items[k].phase;
                &&& (ph == SurfacePhase::Configuring || ph == SurfacePhase::Ready) ==> ({
                    &&& r == Ok::<ConfigureOutcome, LeaseError>(
                        if ph == SurfacePhase::Configuring {
                            ConfigureOutcome::BecameReady
                        } else {
                            ConfigureOutcome::Refreshed
                        },
                    )
                    &&& final(self)@.items == old(self)@.items.update(
                        k,
                        (SurfaceItem {
                            info: old(self)@.items[k].info,
                            phase: SurfacePhase::Ready,
                            ref_count: old(self)@.items[k].ref_count,
                            surf_width: width,
                            surf_height: height,
                        }),
                    )
                    &&& final(self)@.available == old(self)@.available
                    &&& final(self)@.leases == old(self)@.leases
                    &&& final(self)@.waiters == old(self)@.waiters
                    &&& final(self)@.next_lease == old(self)@.next_lease
                    &&& final(self)@.next_ticket == old(self)@.next_ticket
                })
                &&& ph == SurfacePhase::Closed ==> r == Ok::<ConfigureOutcome, LeaseError>(
                    ConfigureOutcome::Ignored,
                ) && *final(self) == *old(self)
                &&& ph == SurfacePhase::Unbound ==> ({
                    &&& r == Err::<ConfigureOutcome, LeaseError>(LeaseError::ProtocolViolation)
                    &&& final(self)@.items == old(self)@.items.update(
                        k,
                        (SurfaceItem {
                            info: old(self)@.items[k].info,
                            phase: SurfacePhase::Closed,
                            ref_count: 0,
                            surf_width: old(self)@.items[k].surf_width,
                            surf_height: old(self)@.items[k].surf_height,
                        }),
                    )
                    &&& final(self)@.leases == old(self)@.leases
                    &&& final(self)@.available == (if pool_idx(
                        old(self)@.available,
                        display_id,
                    ) >= 0 {
                        old(self)@.available.remove(pool_idx(old(self)@.available, display_id))
                    } else {
                        old(self)@.available
                    })
                    &&& final(self)@.waiters == old(self)@.waiters
                    &&& final(self)@.next_lease == old(self)@.next_lease
                    &&& final(self)@.next_ticket == old(self)@.next_ticket
                })
            }),
    {
        let ghost m0 = self@;
        match find_item(&self.items, display_id) {
            None => Err(LeaseError::ProtocolViolation),
            Some(k) => {
                let ph = self.items[k].phase;
                match ph {
                    SurfacePhase::Configuring | SurfacePhase::Ready => {
                        let it = &mut self.items[k];
                        it.phase = SurfacePhase::Ready;
                        it.surf_width = width;
                        it.surf_height = height;
                        proof {
                            configure_ready_inv(m0, self@, k as int, display_id);
                        }
                        if matches!(ph, SurfacePhase::Configuring) {
                            Ok(ConfigureOutcome::BecameReady)
                        } else {
                            Ok(ConfigureOutcome::Refreshed)
                        }
                    },
                    SurfacePhase::Closed => Ok(ConfigureOutcome::Ignored),
                    SurfacePhase::Unbound => {
                        proof {
                            if m0.items[k as int].ref_count > 0 {
                                assert(false);
                            }
                            lemma_count_zero(m0.leases, display_id);
                        }
                        let it = &mut self.items[k];
                        it.phase = SurfacePhase::Closed;
                        it.ref_count = 0;
                        match find_pool(&self.available, display_id) {
                            Some(p) => {
                                self.available.remove(p);
                            },
                            None => {},
                        }
                        proof {
                            assert(purge_leases(m0.leases, display_id) =~= m0.leases) by {
                                lemma_purge_noop(m0.leases, display_id);
                            }
                            lease_close_inv(m0, self@, k as int, display_id);
                        }
                        Err(LeaseError::ProtocolViolation)
                    },
                }
            },
        }
    }

    /// The info of the display a lease is bound to, or `SurfaceGone`
    /// when the lease is no longer live.
    pub fn get_info(&self, lease: SurfaceLease) -> (r: Result<DisplayInfo, LeaseError>)
        requires
            inv(self@),
        ensures
            lease_idx(self@.leases, lease.lease_id) == -1 ==> r == Err::<DisplayInfo, LeaseError>(
                LeaseError::SurfaceGone,
            ),
            lease_idx(self@.leases, lease.lease_id) >= 0 ==> ({
                let i = lease_idx(self@.leases, lease.lease_id);
                let k = item_idx(self@.items, self@.leases[i].display_id);
                r == Ok::<DisplayInfo, LeaseError>(self@.items[k].info)
            }),
    {
        match find_lease(&self.leases, lease.lease_id) {
            None => Err(LeaseError::SurfaceGone),
            Some(i) => {
                let d = self.leases[i].display_id;
                match find_item(&self.items, d) {
                    Some(k) => Ok(self.items[k].info.clone()),
                    None => {
                        proof {
                            assert(false);
                        }
                        Err(LeaseError::SurfaceGone)
                    },
                }
            },
        }
    }

    /// A drawable target for a lease: granted once the surface has
    /// reached `Ready`, withheld while the backend's configure
    /// acknowledgement is still out, and `SurfaceGone` for a lease
    /// that is no longer live — it never hangs.
    pub fn request_buffer(&self, lease: SurfaceLease) -> (r: Result<BufferReply, LeaseError>)
        requires
            inv(self@),
        ensures
            lease_idx(self@.leases, lease.lease_id) == -1 ==> r == Err::<BufferReply, LeaseError>(
                LeaseError::SurfaceGone,
            ),
            lease_idx(self@.leases, lease.lease_id) >= 0 ==> ({
                let i = lease_idx(self@.leases, lease.lease_id);
                let k = item_idx(self@.items, self@.leases[i].display_id);
                match self@.items[k].phase {
                    SurfacePhase::Ready => r == Ok::<BufferReply, LeaseError>(
                        BufferReply::Buffer(
                            (SurfaceRef {
                                display_id: self@.leases[i].display_id,
                                width: self@.items[k].surf_width,
                                height: self@.items[k].surf_height,
                            }),
                        ),
                    ),
                    SurfacePhase::Configuring => r == Ok::<BufferReply, LeaseError>(
                        BufferReply::NotReadyYet,
                    ),
                    _ => r == Err::<BufferReply, LeaseError>(LeaseError::ProtocolViolation),
                }
            }),
    {
        match find_lease(&self.leases, lease.lease_id) {
            None => Err(LeaseError::SurfaceGone),
            Some(i) => {
                let d = self.leases[i].display_id;
                match find_item(&self.items, d) {
                    Some(k) => {
                        match self.items[k].phase {
                            SurfacePhase::Ready => Ok(
                                BufferReply::Buffer(
                                    SurfaceRef {
                                        display_id: d,
                                        width: self.items[k].surf_width,
                                        height: self.items[k].surf_height,
                                    },
                                ),
                            ),
                            SurfacePhase::Configuring => Ok(BufferReply::NotReadyYet),
                            _ => Err(LeaseError::ProtocolViolation),
                        }
                    },
                    None => {
                        proof {
                            assert(false);
                        }
                        Err(LeaseError::SurfaceGone)
                    },
                }
            },
        }
    }

    /// Withdraws a queued acquire: a caller abandoning its wait is
    /// struck from the queue and is never granted anything. A ticket
    /// already served or never issued changes nothing.
    pub fn cancel_wait(&mut self, ticket: u64) -> (r: bool)
        requires
            inv(old(self)@),
        ensures
            inv(final(self)@),
            r == (ticket_idx(old(self)@.waiters, ticket) >= 0),
            !r ==> *final(self) == *old(self),
            r ==> final(self)@.waiters == old(self)@.waiters.remove(
                ticket_idx(old(self)@.waiters, ticket),
            ),
            final(self)@.items == old(self)@.items,
            final(self)@.available == old(self)@.available,
            final(self)@.leases == old(self)@.leases,
            final(self)@.config == old(self)@.config,
            final(self)@.next_lease == old(self)@.next_lease,
            final(self)@.next_ticket == old(self)@.next_ticket,
    {
        let ghost m0 = self@;
        match find_ticket(&self.waiters, ticket) {
            None => false,
            Some(p) => {
                self.waiters.remove(p);
                proof {
                    m0.waiters.remove_ensures(p as int);
                    assert forall|a: int, b: int|
                        0 <= a < b < self@.waiters.len() implies self@.waiters[a]
                        != self@.waiters[b] by {
                        let a0: int = if a < p {
                            a
                        } else {
                            a + 1
                        };
                        let b0: int = if b < p {
                            b
                        } else {
                            b + 1
                        };
                        assert(self@.waiters[a] == m0.waiters[a0] && self@.waiters[b]
                            == m0.waiters[b0]);
                    }
                    assert forall|a: int| 0 <= a < self@.waiters.len() implies (
                    #[trigger] self@.waiters[a]) < self@.next_ticket by {
                        let a0: int = if a < p {
                            a
                        } else {
                            a + 1
                        };
                        assert(self@.waiters[a] == m0.waiters[a0]);
                    }
                    assert(inv(self@));
                }
                true
            },
        }
    }

    /// Serves the waiter at the head of the queue once a display is
    /// back in the pool: the oldest wait gets the pool head, exactly
    /// as a fresh acquire would. With no waiter or no free display,
    /// nothing changes — a grant is only ever backed by a display.
    pub fn grant_next_waiter(&mut self) -> (r: (Option<(u64, SurfaceLease)>, BackendAction))
        requires
            inv(old(self)@),
            old(self)@.next_lease < u64::MAX,
        ensures
            inv(final(self)@),
            final(self)@.config == old(self)@.config,
            old(self)@.waiters.len() == 0 || old(self)@.available.len() == 0 ==> r.0 is None && r.1
                == BackendAction::NoBackendCall && *final(self) == *old(self),
            old(self)@.waiters.len() > 0 && old(self)@.available.len() > 0 ==> ({
                let t = old(self)@.waiters[0];
                let d = old(self)@.available[0];
                let k = item_idx(old(self)@.items, d);
                let lease = SurfaceLease { lease_id: old(self)@.next_lease, display_id: d };
                &&& r.0 == Some((t, lease))
                &&& r.1 == (if old(self)@.items[k].phase == SurfacePhase::Unbound {
                    BackendAction::CreateSurface(d)
                } else {
                    BackendAction::NoBackendCall
                })
                &&& final(self)@.waiters == old(self)@.waiters.drop_first()
                &&& final(self)@.available == old(self)@.available.drop_first()
                &&& final(self)@.leases == old(self)@.leases.push(
                    (LeaseRecord { lease_id: old(self)@.next_lease, display_id: d }),
                )
                &&& final(self)@.next_lease == old(self)@.next_lease + 1
                &&& final(self)@.items == old(self)@.items.update(
                    k,
                    (SurfaceItem {
                        info: old(self)@.items[k].info,
                        phase: if old(self)@.items[k].phase == SurfacePhase::Unbound {
                            SurfacePhase::Configuring
                        } else {
                            old(self)@.items[k].phase
                        },
                        ref_count: 1,
                        surf_width: old(self)@.items[k].surf_width,
                        surf_height: old(self)@.items[k].surf_height,
                    }),
                )
                &&& final(self)@.next_ticket == old(self)@.next_ticket
            }),
    {
        let ghost m0 = self@;
        if self.waiters.len() == 0 || self.available.len() == 0 {
            return (None, BackendAction::NoBackendCall);
        }
        let ticket = self.waiters[0];
        self.waiters.remove(0);
        let d = self.available[0];
        self.available.remove(0);
        proof {
            lemma_item_idx_props(m0.items, d, 0);
            assert(m0.available.remove(0) =~= m0.available.drop_first());
            assert(m0.waiters.remove(0) =~= m0.waiters.drop_first());
        }
        let k = match find_item(&self.items, d) {
            Some(k) => k,
            None => {
                proof {
                    assert(false);
                }
                0
            },
        };
        let was_unbound = matches!(self.items[k].phase, SurfacePhase::Unbound);
        let it = &mut self.items[k];
        it.ref_count = 1;
        if was_unbound {
            it.phase = SurfacePhase::Configuring;
        }
        let lease = SurfaceLease { lease_id: self.next_lease, display_id: d };
        self.leases.push(LeaseRecord { lease_id: self.next_lease, display_id: d });
        self.next_lease = self.next_lease + 1;
        proof {
            lease_pool_grant_inv(m0, self@, k as int, d);
        }
        let action = if was_unbound {
            BackendAction::CreateSurface(d)
        } else {
            BackendAction::NoBackendCall
        };
        (Some((ticket, lease)), action)
    }

    /// Whether any known display has reported a usable size yet:
    /// with none, surface creation has nothing to anchor to and the
    /// caller keeps waiting for the backend's geometry reports.
    pub fn has_sized_display(&self) -> (r: bool)
        ensures
            r == exists|k: int|
                0 <= k < self@.items.len() && valid_geometry(#[trigger] self@.items[k].info),
    {
        let mut i: usize = 0;
        while i < self.items.len()
            invariant
                0 <= i <= self@.items.len(),
                forall|j: int| 0 <= j < i ==> !valid_geometry(#[trigger] self@.items[j].info),
            decreases self@.items.len() - i,
        {
            if self.items[i].info.width > 0 && self.items[i].info.height > 0 {
                return true;
            }
            i += 1;
        }
        false
    }

    /// The current displays with valid geometry; a display whose
    /// size the backend has not reported yet is excluded until it is.
    pub fn enumerate(&self) -> (r: Vec<DisplayInfo>)
        ensures
            r@ == visible_displays(self@.items),
    {
        let mut out: Vec<DisplayInfo> = Vec::new();
        let mut i: usize = 0;
        proof {
            assert(self@.items.skip(0) =~= self@.items);
            assert(Seq::<DisplayInfo>::empty() + visible_displays(self@.items) =~= visible_displays(
                self@.items,
            ));
        }
        while i < self.items.len()
            invariant
                0 <= i <= self@.items.len(),
                visible_displays(self@.items) =~= out@ + visible_displays(self@.items.skip(i as int)),
            decreases self@.items.len() - i,
        {
            let item = &self.items[i];
            proof {
                assert(self@.items.skip(i as int)[0] == self@.items[i as int]);
                assert(self@.items.skip(i as int).drop_first() =~= self@.items.skip(i as int + 1));
            }
            if item.info.width > 0 && item.info.height > 0 {
                out.push(item.info.clone());
            }
            i += 1;
        }
        proof {
            assert(self@.items.skip(self@.items.len() as int) =~= Seq::<SurfaceItem>::empty());
            assert(out@ + Seq::<DisplayInfo>::empty() =~= out@);
        }
        out
    }
}

/// The manager after a whole sequence of releases, oldest first.
pub open spec fn release_all(m: OverlayModel, ls: Seq<u64>) -> OverlayModel
    decreases ls.len(),
{
    if ls.len() == 0 {
        m
    } else {
        release_all(release_model(m, ls[0]), ls.drop_first())
    }
}

/// Release called exactly N times for the N leases a display carries
/// returns the display to the available pool exactly once, not N
/// times: while any lease is live the display sits in no pool, and
/// after the last release it holds exactly one pool slot.
pub proof fn lemma_release_returns_display_once(m: OverlayModel, d: u32, ls: Seq<u64>)
    requires
        inv(m),
        ls.len() > 0,
        item_idx(m.items, d) >= 0,
        valid_geometry(m.items[item_idx(m.items, d)].info),
        m.items[item_idx(m.items, d)].ref_count == ls.len(),
        forall|i: int|
            0 <= i < ls.len() ==> lease_idx(m.leases, #[trigger] ls[i]) >= 0 && m.leases[lease_idx(
                m.leases,
                ls[i],
            )].display_id == d,
        forall|i: int, j: int| 0 <= i < j < ls.len() ==> ls[i] != ls[j],
    ensures
        pool_count(m.available, d) == 0,
        pool_count(release_all(m, ls).available, d) == 1,
    decreases ls.len(),
{
    let k = item_idx(m.items, d);
    lemma_item_idx_props(m.items, d, 0);
    assert forall|w: int| 0 <= w < m.available.len() implies m.available[w] != d by {
        if m.available[w] == d {
            assert(item_idx(m.items, m.available[w]) == k);
        }
    }
    lemma_pool_count_zero(m.available, d);
    let l0 = ls[0];
    let i0 = lease_idx(m.leases, l0);
    lemma_lease_idx_props(m.leases, l0, 0);
    let m1 = release_model(m, l0);
    lease_release_inv(m, m1, i0, k, d);
    m.leases.remove_ensures(i0);
    assert(release_all(m, ls) == release_all(m1, ls.drop_first()));
    if ls.len() == 1 {
        assert(m1.available == m.available.push(d));
        lemma_pool_count_push(m.available, d, d);
        assert(release_all(m1, ls.drop_first()) == m1);
    } else {
        assert(m1.available == m.available);
        let rest = ls.drop_first();
        assert forall|d2: u32| true implies #[trigger] item_idx(m1.items, d2) == item_idx(
            m.items,
            d2,
        ) by {
            lemma_item_idx_update(m.items, k, m1.items[k], d2, 0);
        }
        assert(m1.items[k].ref_count == rest.len());
        assert(m1.items[k].info == m.items[k].info);
        assert forall|j: int|
            0 <= j < rest.len() implies lease_idx(m1.leases, #[trigger] rest[j]) >= 0
            && m1.leases[lease_idx(m1.leases, rest[j])].display_id == d by {
            assert(rest[j] == ls[j + 1]);
            let w = lease_idx(m.leases, ls[j + 1]);
            lemma_lease_idx_props(m.leases, ls[j + 1], 0);
            assert(w != i0);
            let w2: int = if w < i0 {
                w
            } else {
                w - 1
            };
            assert(m1.leases[w2] == m.leases[w]);
            lemma_lease_idx_finds(m1.leases, w2);
        }
        assert forall|a: int, b: int| 0 <= a < b < rest.len() implies rest[a] != rest[b] by {
            assert(rest[a] == ls[a + 1] && rest[b] == ls[b + 1]);
        }
        lemma_release_returns_display_once(m1, d, rest);
    }
}

/// A surface that transitions to `Closed` kills every lease on its
/// display: the ledger the close leaves behind — `handle_closed`
/// leaves exactly `purge_leases` — holds no record of such a lease
/// any more, so a pending buffer request re-issued after the close,
/// and every further lease operation, finds the lease gone and gets
/// `SurfaceGone` back rather than hanging.
pub proof fn lemma_close_kills_leases(m: OverlayModel, d: u32, l: u64)
    requires
        inv(m),
        lease_idx(m.leases, l) >= 0,
        m.leases[lease_idx(m.leases, l)].display_id == d,
    ensures
        lease_idx(purge_leases(m.leases, d), l) == -1,
{
    lemma_purge_drops_lease(m.leases, d, l);
}

/// A channel that fades from full to dark as `c` runs from 0 to `n`.
pub open spec fn fade_of(c: int, n: int) -> int {
    (c * 255) / n
}

/// The smaller of two channel values.
pub open spec fn dimmer(a: int, b: int) -> int {
    if a < b {
        a
    } else {
        b
    }
}

/// One fading channel value, bounded so it fits a byte.
fn fade(c: u32, n: u32) -> (r: u8)
    requires
        0 < n,
        c <= n,
    ensures
        r as int == fade_of(c as int, n as int),
{
    let v: u64 = ((c as u64) * 255) / (n as u64);
    proof {
        vstd::arithmetic::mul::lemma_mul_inequality(c as int, n as int, 255);
        vstd::arithmetic::div_mod::lemma_div_is_ordered(
            (c as int) * 255,
            (n as int) * 255,
            n as int,
        );
        vstd::arithmetic::div_mod::lemma_div_multiples_vanish(255, n as int);
        assert((n as int) * 255 == (n as int) * 255int);
        vstd::arithmetic::div_mod::lemma_div_pos_is_pos((c as int) * 255, n as int);
    }
    v as u8
}

/// Fills one buffer with the diagnostic gradient: pixel `p` of a
/// `width` by `height` buffer sits at column `p % width` and row
/// `p / width`, and its four bytes are the blue, green and red
/// fades of its position, then full alpha.
pub fn gradient_pixels(width: u32, height: u32) -> (r: Vec<u8>)
    requires
        width > 0,
        height > 0,
        (width as int) * (height as int) * 4 <= usize::MAX as int,
    ensures
        r@.len() == (width as int) * (height as int) * 4,
        forall|p: int|
            0 <= p < (width as int) * (height as int) ==> {
                let x = p % (width as int);
                let y = p / (width as int);
                &&& #[trigger] r@[4 * p] == dimmer(
                    fade_of(width - x, width as int),
                    fade_of(y, height as int),
                )
                &&& r@[4 * p + 1] == dimmer(
                    fade_of(x, width as int),
                    fade_of(height - y, height as int),
                )
                &&& r@[4 * p + 2] == dimmer(
                    fade_of(width - x, width as int),
                    fade_of(height - y, height as int),
                )
                &&& r@[4 * p + 3] == 0xFF
            },
{
    let pixels: usize = (width as usize) * (height as usize);
    let mut out: Vec<u8> = Vec::new();
    let mut p: usize = 0;
    while p < pixels
        invariant
            0 <= p <= pixels,
            width > 0,
            height > 0,
            pixels == (width as int) * (height as int),
            pixels * 4 <= usize::MAX,
            out@.len() == 4 * p,
            forall|q: int|
                0 <= q < p ==> {
                    let x = q % (width as int);
                    let y = q / (width as int);
                    &&& #[trigger] out@[4 * q] == dimmer(
                        fade_of(width - x, width as int),
                        fade_of(y, height as int),
                    )
                    &&& out@[4 * q + 1] == dimmer(
                        fade_of(x, width as int),
                        fade_of(height - y, height as int),
                    )
                    &&& out@[4 * q + 2] == dimmer(
                        fade_of(width - x, width as int),
                        fade_of(height - y, height as int),
                    )
                    &&& out@[4 * q + 3] == 0xFF
                },
        decreases pixels - p,
    {
        proof {
            vstd::arithmetic::div_mod::lemma_mod_division_less_than_divisor(p as int, width as int);
            vstd::arithmetic::div_mod::lemma_div_pos_is_pos(p as int, width as int);
            vstd::arithmetic::div_mod::lemma_remainder_lower(p as int, width as int);
            // the row index stays under the height
            let q = p as int / (width as int);
            if q >= height as int {
                vstd::arithmetic::mul::lemma_mul_inequality(height as int, q, width as int);
                assert(false) by (nonlinear_arith)
                    requires
                        p as int >= q * (width as int),
                        (height as int) * (width as int) <= q * (width as int),
                        (p as int) < (width as int) * (height as int);
            }
        }
        let x: u32 = (p % (width as usize)) as u32;
        let y_row: u32 = (p / (width as usize)) as u32;
        let fade_left = fade(width - x, width);
        let fade_right = fade(x, width);
        let fade_down = fade(height - y_row, height);
        let fade_up = fade(y_row, height);
        let blue = if fade_left < fade_up {
            fade_left
        } else {
            fade_up
        };
        let green = if fade_right < fade_down {
            fade_right
        } else {
            fade_down
        };
        let red = if fade_left < fade_down {
            fade_left
        } else {
            fade_down
        };
        let ghost pre = out@;
        out.push(blue);
        out.push(green);
        out.push(red);
        out.push(0xFF);
        proof {
            assert(out@ =~= pre + seq![blue, green, red, 0xFFu8]);
            assert forall|q: int| 0 <= q < p + 1 implies {
                let gx = q % (width as int);
                let gy = q / (width as int);
                &&& #[trigger] out@[4 * q] == dimmer(
                    fade_of(width - gx, width as int),
                    fade_of(gy, height as int),
                )
                &&& out@[4 * q + 1] == dimmer(
                    fade_of(gx, width as int),
                    fade_of(height - gy, height as int),
                )
                &&& out@[4 * q + 2] == dimmer(
                    fade_of(width - gx, width as int),
                    fade_of(height - gy, height as int),
                )
                &&& out@[4 * q + 3] == 0xFF
            } by {
                if q < p as int {
                    assert(out@[4 * q] == pre[4 * q]);
                    assert(out@[4 * q + 1] == pre[4 * q + 1]);
                    assert(out@[4 * q + 2] == pre[4 * q + 2]);
                    assert(out@[4 * q + 3] == pre[4 * q + 3]);
                } else {
                    assert(out@[4 * q] == blue);
                    assert(out@[4 * q + 1] == green);
                    assert(out@[4 * q + 2] == red);
                    assert(out@[4 * q + 3] == 0xFFu8);
                }
            }
        }
        p += 1;
    }
    out
}

/// Fills one overlay buffer: for every pixel the four bytes of a
/// half-transparent blue, in the byte order the buffer format wants —
/// blue, green, red, alpha.
pub fn overlay_fill_pixels(width: u32, height: u32) -> (r: Vec<u8>)
    requires
        (width as int) * (height as int) * 4 <= usize::MAX as int,
    ensures
        r@.len() == (width as int) * (height as int) * 4,
        forall|p: int|
            0 <= p < (width as int) * (height as int) ==> #[trigger] r@[4 * p] == 0xFF && r@[4 * p
                + 1] == 0x80 && r@[4 * p + 2] == 0x00 && r@[4 * p + 3] == 0x80,
{
    let pixels: usize = (width as usize) * (height as usize);
    let mut out: Vec<u8> = Vec::new();
    let mut i: usize = 0;
    while i < pixels
        invariant
            0 <= i <= pixels,
            pixels == (width as int) * (height as int),
            pixels * 4 <= usize::MAX,
            out@.len() == 4 * i,
            forall|p: int|
                0 <= p < i ==> #[trigger] out@[4 * p] == 0xFF && out@[4 * p + 1] == 0x80 && out@[4
                    * p + 2] == 0x00 && out@[4 * p + 3] == 0x80,
        decreases pixels - i,
    {
        let ghost pre = out@;
        out.push(0xFF);
        out.push(0x80);
        out.push(0x00);
        out.push(0x80);
        proof {
            assert(out@ =~= pre + seq![0xFFu8, 0x80u8, 0x00u8, 0x80u8]);
            assert forall|p: int|
                0 <= p < i + 1 implies #[trigger] out@[4 * p] == 0xFF && out@[4 * p + 1] == 0x80
                && out@[4 * p + 2] == 0x00 && out@[4 * p + 3] == 0x80 by {
                if p < i as int {
                    assert(out@[4 * p] == pre[4 * p]);
                    assert(out@[4 * p + 1] == pre[4 * p + 1]);
                    assert(out@[4 * p + 2] == pre[4 * p + 2]);
                    assert(out@[4 * p + 3] == pre[4 * p + 3]);
                } else {
                    assert(out@[4 * p] == 0xFF);
                    assert(out@[4 * p + 1] == 0x80);
                    assert(out@[4 * p + 2] == 0x00);
                    assert(out@[4 * p + 3] == 0x80);
                }
            }
        }
        i += 1;
    }
    out
}

} // verus!
