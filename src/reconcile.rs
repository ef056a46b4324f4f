use vstd::prelude::*;
use crate::checkpoint::Checkpoint;
use crate::error::LineageError;
use crate::lineage::{LineageGraph, build_shard_lineage_map, parent_link, string_views, validate_lineage};
use crate::descent::link_fn;
use crate::migration::{is_migration, is_stranded, migrate_checkpoints};
use crate::shard::{Shard, opt_view, shard_ids};
use crate::supervisor::{ConsumerPhase, ConsumerSupervisor};

verus! {

/// The ids of the open shards of a snapshot.
pub open spec fn open_ids(shards: Seq<Shard>) -> Set<Seq<char>> {
    Set::new(|id: Seq<char>| exists|i: int| 0 <= i < shards.len() && (#[trigger] shards[i]).id() == id && !shards[i].closed())
}

/// The ids of the closed shards of a snapshot.
pub open spec fn closed_ids(shards: Seq<Shard>) -> Set<Seq<char>> {
    Set::new(|id: Seq<char>| exists|i: int| 0 <= i < shards.len() && (#[trigger] shards[i]).id() == id && shards[i].closed())
}

pub open spec fn id_set(ids: Seq<String>) -> Set<Seq<char>> {
    Set::new(|id: Seq<char>| exists|i: int| 0 <= i < ids.len() && (#[trigger] ids[i])@ == id)
}

/// The parent-to-child links that a snapshot lists.
pub open spec fn snapshot_link(shards: Seq<Shard>) -> spec_fn(Seq<char>, Seq<char>) -> bool {
    |p: Seq<char>, c: Seq<char>| parent_link(shards, p, c)
}

/// Where a newly started consumer of `s` resumes: its migrated position; or
/// else the position of its parent while that parent is still open; or
/// else, where this is `None`, the start of the stream.
pub open spec fn resume_position(
    shards: Seq<Shard>,
    old: Map<Seq<char>, Seq<char>>,
    new: Map<Seq<char>, Seq<char>>,
    s: Shard,
) -> Option<Seq<char>> {
    if new.contains_key(s.id()) {
        Some(new[s.id()])
    } else {
        match s.parent() {
            Some(p) => if open_ids(shards).contains(p) && old.contains_key(p) {
                Some(old[p])
            } else {
                None
            },
            None => None,
        }
    }
}

/// Whether the set of open shards differs from the set of shards consumed.
pub fn detect_resharding_event(current_shards: &[String], new_shards: &[Shard]) -> (r: bool)
    ensures
        r == (id_set(current_shards@) != open_ids(new_shards@)),
{
    let mut i: usize = 0;
    while i < current_shards.len()
        invariant
            i <= current_shards@.len(),
            forall|j: int| 0 <= j < i ==> open_ids(new_shards@).contains(#[trigger] current_shards@[j]@),
        decreases current_shards@.len() - i,
    {
        if !is_open_in(new_shards, &current_shards[i]) {
            assert(id_set(current_shards@).contains(current_shards@[i as int]@));
            return true;
        }
        i = i + 1;
    }
    let mut k: usize = 0;
    while k < new_shards.len()
        invariant
            k <= new_shards@.len(),
            forall|j: int| 0 <= j < current_shards@.len() ==> open_ids(new_shards@).contains(#[trigger] current_shards@[j]@),
            forall|j: int| 0 <= j < k && !(#[trigger] new_shards@[j]).closed() ==> id_set(current_shards@).contains(new_shards@[j].id()),
        decreases new_shards@.len() - k,
    {
        let s = &new_shards[k];
        if !s.is_closed() && !contains_id(current_shards, &s.shard_id) {
            assert(open_ids(new_shards@).contains(s.id()));
            return true;
        }
        k = k + 1;
    }
    assert(id_set(current_shards@) =~= open_ids(new_shards@)) by {
        assert forall|id: Seq<char>| #[trigger] open_ids(new_shards@).contains(id) implies id_set(current_shards@).contains(id) by {
            let j = choose|j: int| 0 <= j < new_shards@.len() && (#[trigger] new_shards@[j]).id() == id && !new_shards@[j].closed();
        }
    }
    false
}

fn is_open_in(shards: &[Shard], id: &String) -> (r: bool)
    ensures
        r == open_ids(shards@).contains(id@),
{
    let mut i: usize = 0;
    while i < shards.len()
        invariant
            i <= shards@.len(),
            forall|j: int| 0 <= j < i ==> !((#[trigger] shards@[j]).id() == id@ && !shards@[j].closed()),
        decreases shards@.len() - i,
    {
        if !shards[i].is_closed() && shards[i].shard_id == *id {
            return true;
        }
        i = i + 1;
    }
    false
}

fn contains_id(ids: &[String], id: &String) -> (r: bool)
    ensures
        r == id_set(ids@).contains(id@),
{
    let mut i: usize = 0;
    while i < ids.len()
        invariant
            i <= ids@.len(),
            forall|j: int| 0 <= j < i ==> (#[trigger] ids@[j])@ != id@,
        decreases ids@.len() - i,
    {
        if ids[i] == *id {
            return true;
        }
        i = i + 1;
    }
    false
}

proof fn lemma_push_contains<A>(v: Seq<A>, x: A)
    ensures
        forall|t: A| #[trigger] v.push(x).contains(t) <==> v.contains(t) || t == x,
{
    assert forall|t: A| #[trigger] v.push(x).contains(t) <==> v.contains(t) || t == x by {
        if v.push(x).contains(t) {
            let j = choose|j: int| 0 <= j < v.len() + 1 && v.push(x)[j] == t;
            if j < v.len() {
                assert(v[j] == t);
            }
        }
        if v.contains(t) {
            let j = choose|j: int| 0 <= j < v.len() && v[j] == t;
            assert(v.push(x)[j] == t);
        }
        if t == x {
            assert(v.push(x)[v.len() as int] == t);
        }
    }
}

/// Splits a snapshot into its open and its closed shards.
pub fn partition_shards(snapshot: &[Shard]) -> (r: (Vec<Shard>, Vec<Shard>))
    ensures
        forall|s: Shard| #[trigger] r.0@.contains(s) <==> snapshot@.contains(s) && !s.closed(),
        forall|s: Shard| #[trigger] r.1@.contains(s) <==> snapshot@.contains(s) && s.closed(),
{
    let mut active: Vec<Shard> = Vec::new();
    let mut closed: Vec<Shard> = Vec::new();
    let mut i: usize = 0;
    while i < snapshot.len()
        invariant
            i <= snapshot@.len(),
            forall|s: Shard| #[trigger] active@.contains(s) <==> snapshot@.subrange(0, i as int).contains(s) && !s.closed(),
            forall|s: Shard| #[trigger] closed@.contains(s) <==> snapshot@.subrange(0, i as int).contains(s) && s.closed(),
        decreases snapshot@.len() - i,
    {
        let s = snapshot[i].duplicate();
        let ghost a0 = active@;
        let ghost c0 = closed@;
        let ghost pre = snapshot@.subrange(0, i as int);
        let ghost next = snapshot@.subrange(0, i + 1);
        if s.is_closed() {
            closed.push(s);
        } else {
            active.push(s);
        }
        proof {
            assert(next =~= pre.push(s));
            lemma_push_contains(pre, s);
            lemma_push_contains(a0, s);
            lemma_push_contains(c0, s);
        }
        i = i + 1;
    }
    proof {
        assert(snapshot@.subrange(0, snapshot@.len() as int) =~= snapshot@);
    }
    (active, closed)
}

/// An order to start a consumer for a shard at a position, or at the start
/// of the stream where it is `None`.
pub struct StartOrder {
    pub shard_id: String,
    pub from_position: Option<String>,
}

/// What one reconciliation cycle decided.
pub struct CyclePlan {
    /// The checkpoint to persist.
    pub checkpoint: Checkpoint,
    /// Closed shards whose positions had no open successor to go to.
    pub stranded: Vec<String>,
    /// Consumers to start.
    pub to_start: Vec<StartOrder>,
    /// Consumers to drain and stop.
    pub to_stop: Vec<String>,
}

/// `orders` start exactly the open shards of the snapshot that the
/// supervisor does not hold yet, each where it resumes.
pub open spec fn starts_exactly(
    orders: Seq<StartOrder>,
    shards: Seq<Shard>,
    old: Map<Seq<char>, Seq<char>>,
    new: Map<Seq<char>, Seq<char>>,
    sup: ConsumerSupervisor,
) -> bool {
    &&& forall|t: int|
        0 <= t < orders.len() ==> exists|j: int|
            0 <= j < shards.len() && (#[trigger] shards[j]).id() == (#[trigger] orders[t]).shard_id@
                && !shards[j].closed() && !sup.tracks(shards[j].id()) && opt_view(
                orders[t].from_position,
            ) == resume_position(shards, old, new, shards[j])
    &&& forall|j: int|
        0 <= j < shards.len() && !(#[trigger] shards[j]).closed() && !sup.tracks(shards[j].id())
            ==> exists|t: int| 0 <= t < orders.len() && (#[trigger] orders[t]).shard_id@ == shards[j].id()
}

/// `ids` stop exactly the live consumers whose shard is no longer open.
pub open spec fn stops_exactly(ids: Seq<String>, shards: Seq<Shard>, sup: ConsumerSupervisor) -> bool {
    &&& forall|t: int|
        0 <= t < ids.len() ==> sup.active((#[trigger] ids[t])@) && !open_ids(shards).contains(ids[t]@)
    &&& forall|i: int|
        0 <= i < sup.consumers@.len() && (#[trigger] sup.consumers@[i]).live() && !open_ids(
            shards,
        ).contains(sup.consumers@[i].shard_id@) ==> id_set(ids).contains(sup.consumers@[i].shard_id@)
}

/// The start orders of a cycle, given the checkpoint before and after
/// migration.
pub fn start_orders(
    snapshot: &[Shard],
    previous: &Checkpoint,
    migrated: &Checkpoint,
    supervisor: &ConsumerSupervisor,
) -> (r: Vec<StartOrder>)
    requires
        previous.wf(),
        migrated.wf(),
    ensures
        starts_exactly(r@, snapshot@, previous.view(), migrated.view(), *supervisor),
{
    let ghost shards = snapshot@;
    let ghost old_map = previous.view();
    let ghost new_map = migrated.view();
    let ghost src: Seq<int> = Seq::empty();
    let mut orders: Vec<StartOrder> = Vec::new();
    let mut i: usize = 0;
    while i < snapshot.len()
        invariant
            previous.wf(),
            migrated.wf(),
            shards == snapshot@,
            old_map == previous.view(),
            new_map == migrated.view(),
            i <= shards.len(),
            src.len() == orders@.len(),
            forall|t: int|
                0 <= t < orders@.len() ==> {
                    let j = #[trigger] src[t];
                    &&& 0 <= j < shards.len()
                    &&& shards[j].id() == orders@[t].shard_id@
                    &&& !shards[j].closed()
                    &&& !supervisor.tracks(shards[j].id())
                    &&& opt_view(orders@[t].from_position) == resume_position(shards, old_map, new_map, shards[j])
                },
            forall|j: int|
                0 <= j < i && !(#[trigger] shards[j]).closed() && !supervisor.tracks(shards[j].id())
                    ==> exists|t: int| 0 <= t < orders@.len() && (#[trigger] orders@[t]).shard_id@ == shards[j].id(),
        decreases shards.len() - i,
    {
        let s = &snapshot[i];
        if !s.is_closed() && !supervisor.is_tracked(&s.shard_id) {
            let from_position = match migrated.get(&s.shard_id) {
                Some(p) => Some(p.clone()),
                None => match &s.parent_shard_id {
                    Some(parent) => if is_open_in(snapshot, parent) {
                        match previous.get(parent) {
                            Some(p) => Some(p.clone()),
                            None => None,
                        }
                    } else {
                        None
                    },
                    None => None,
                },
            };
            let ghost before = orders@;
            orders.push(StartOrder { shard_id: s.shard_id.clone(), from_position });
            proof {
                src = src.push(i as int);
                assert(shards[i as int] == *s);
                assert(orders@[before.len() as int].shard_id@ == s.id());
                assert forall|t: int| 0 <= t < before.len() implies orders@[t] == before[t] by {}
                assert forall|j: int|
                    0 <= j < i + 1 && !(#[trigger] shards[j]).closed() && !supervisor.tracks(shards[j].id())
                        implies exists|t: int| 0 <= t < orders@.len() && (#[trigger] orders@[t]).shard_id@ == shards[j].id() by {
                    if j < i {
                        let t = choose|t: int| 0 <= t < before.len() && (#[trigger] before[t]).shard_id@ == shards[j].id();
                        assert(orders@[t] == before[t]);
                    } else {
                        assert(orders@[before.len() as int].shard_id@ == shards[j].id());
                    }
                }
            }
        }
        i = i + 1;
    }
    proof {
        assert forall|t: int|
            0 <= t < orders@.len() implies exists|j: int|
                0 <= j < shards.len() && (#[trigger] shards[j]).id() == (
                #[trigger] orders@[t]).shard_id@ && !shards[j].closed() && !supervisor.tracks(
                    shards[j].id(),
                ) && opt_view(orders@[t].from_position) == resume_position(
                    shards,
                    old_map,
                    new_map,
                    shards[j],
                ) by {
            let j = src[t];
            assert(shards[j].id() == orders@[t].shard_id@);
        }
    }
    orders
}

/// The stop orders of a cycle: the live consumers whose shard is not open in
/// the snapshot.
pub fn stop_orders(snapshot: &[Shard], supervisor: &ConsumerSupervisor) -> (r: Vec<String>)
    ensures
        stops_exactly(r@, snapshot@, *supervisor),
{
    let mut ids: Vec<String> = Vec::new();
    let mut i: usize = 0;
    while i < supervisor.consumers.len()
        invariant
            i <= supervisor.consumers@.len(),
            forall|t: int|
                0 <= t < ids@.len() ==> supervisor.active((#[trigger] ids@[t])@) && !open_ids(snapshot@).contains(ids@[t]@),
            forall|k: int|
                0 <= k < i && (#[trigger] supervisor.consumers@[k]).live() && !open_ids(
                    snapshot@,
                ).contains(supervisor.consumers@[k].shard_id@) ==> id_set(ids@).contains(supervisor.consumers@[k].shard_id@),
        decreases supervisor.consumers@.len() - i,
    {
        let c = &supervisor.consumers[i];
        let live = c.phase == ConsumerPhase::Pending || c.phase == ConsumerPhase::Running;
        if live && !is_open_in(snapshot, &c.shard_id) {
            let ghost before = ids@;
            ids.push(c.shard_id.clone());
            proof {
                assert(supervisor.consumers@[i as int] == *c);
                assert forall|t: int| 0 <= t < ids@.len() implies supervisor.active((#[trigger] ids@[t])@) && !open_ids(snapshot@).contains(ids@[t]@) by {
                    if t < before.len() {
                        assert(ids@[t] == before[t]);
                    }
                }
                assert forall|k: int|
                    0 <= k < i + 1 && (#[trigger] supervisor.consumers@[k]).live() && !open_ids(
                        snapshot@,
                    ).contains(supervisor.consumers@[k].shard_id@) implies id_set(ids@).contains(supervisor.consumers@[k].shard_id@) by {
                    if k < i {
                        let t = choose|t: int| 0 <= t < before.len() && (#[trigger] before[t])@ == supervisor.consumers@[k].shard_id@;
                        assert(ids@[t] == before[t]);
                    } else {
                        assert(ids@[before.len() as int]@ == c.shard_id@);
                    }
                }
            }
        }
        i = i + 1;
    }
    ids
}

proof fn lemma_partition_lineage(
    snapshot: Seq<Shard>,
    active: Seq<Shard>,
    closed: Seq<Shard>,
    g: LineageGraph,
)
    requires
        forall|s: Shard| #[trigger] active.contains(s) <==> snapshot.contains(s) && !s.closed(),
        forall|s: Shard| #[trigger] closed.contains(s) <==> snapshot.contains(s) && s.closed(),
        forall|p: Seq<char>, c: Seq<char>|
            #[trigger] g.children(p).contains(c) <==> parent_link(active + closed, p, c),
    ensures
        forall|p: Seq<char>, c: Seq<char>|
            #[trigger] g.children(p).contains(c) <==> parent_link(snapshot, p, c),
        shard_ids(closed) == closed_ids(snapshot),
{
    let both = active + closed;
    assert forall|p: Seq<char>, c: Seq<char>|
        #[trigger] g.children(p).contains(c) <==> parent_link(snapshot, p, c) by {
        if g.children(p).contains(c) {
            let i = choose|i: int|
                0 <= i < both.len() && (#[trigger] both[i]).id() == c && both[i].has_parent(p);
            let s = both[i];
            if i < active.len() {
                assert(active[i] == s);
                assert(active.contains(s));
            } else {
                assert(closed[i - active.len()] == s);
                assert(closed.contains(s));
            }
            let j = choose|j: int| 0 <= j < snapshot.len() && snapshot[j] == s;
            assert(snapshot[j].id() == c);
        }
        if parent_link(snapshot, p, c) {
            let j = choose|j: int|
                0 <= j < snapshot.len() && (#[trigger] snapshot[j]).id() == c && snapshot[j].has_parent(p);
            let s = snapshot[j];
            assert(snapshot.contains(s));
            if s.closed() {
                assert(closed.contains(s));
                let t = choose|t: int| 0 <= t < closed.len() && closed[t] == s;
                assert(both[active.len() + t] == s);
            } else {
                assert(active.contains(s));
                let t = choose|t: int| 0 <= t < active.len() && active[t] == s;
                assert(both[t] == s);
            }
        }
    }
    assert forall|id: Seq<char>| shard_ids(closed).contains(id) <==> closed_ids(snapshot).contains(id) by {
        if shard_ids(closed).contains(id) {
            let t = choose|t: int| 0 <= t < closed.len() && closed[t].id() == id;
            assert(closed.contains(closed[t]));
            let j = choose|j: int| 0 <= j < snapshot.len() && snapshot[j] == closed[t];
            assert(snapshot[j].id() == id);
        }
        if closed_ids(snapshot).contains(id) {
            let j = choose|j: int| 0 <= j < snapshot.len() && (#[trigger] snapshot[j]).id() == id && snapshot[j].closed();
            assert(snapshot.contains(snapshot[j]));
            assert(closed.contains(snapshot[j]));
            let t = choose|t: int| 0 <= t < closed.len() && closed[t] == snapshot[j];
            assert(closed[t].id() == id);
        }
    }
    assert(shard_ids(closed) =~= closed_ids(snapshot));
}

/// One reconciliation cycle on a fresh snapshot: checks its parentage,
/// migrates the checkpoint along its lineage, and decides which consumers
/// to start, at what position, and which to stop. The plan says what to
/// do; the caller persists the checkpoint and drives the supervisor.
pub fn plan_cycle(snapshot: &[Shard], checkpoint: &Checkpoint, supervisor: &ConsumerSupervisor) -> (r:
    Result<CyclePlan, LineageError>)
    requires
        checkpoint.wf(),
    ensures
        r is Ok <==> forall|i: int|
            0 <= i < snapshot@.len() ==> !(#[trigger] snapshot@[i]).has_parent(snapshot@[i].id()),
        r matches Err(LineageError::InvalidLineage(id)) ==> exists|i: int|
            0 <= i < snapshot@.len() && (#[trigger] snapshot@[i]).id() == id@ && snapshot@[i].has_parent(
                id@,
            ),
        r matches Ok(plan) ==> {
            &&& plan.checkpoint.wf()
            &&& is_migration(
                checkpoint.view(),
                snapshot_link(snapshot@),
                closed_ids(snapshot@),
                plan.checkpoint.view(),
            )
            &&& forall|p: Seq<char>|
                #[trigger] string_views(plan.stranded@).contains(p) <==> is_stranded(
                    checkpoint.view(),
                    snapshot_link(snapshot@),
                    closed_ids(snapshot@),
                    p,
                )
            &&& starts_exactly(
                plan.to_start@,
                snapshot@,
                checkpoint.view(),
                plan.checkpoint.view(),
                *supervisor,
            )
            &&& stops_exactly(plan.to_stop@, snapshot@, *supervisor)
        },
{
    match validate_lineage(snapshot) {
        Err(e) => {
            return Err(e);
        },
        Ok(()) => {},
    }
    let (active, closed) = partition_shards(snapshot);
    let graph = build_shard_lineage_map(active.as_slice(), closed.as_slice());
    let migration = migrate_checkpoints(checkpoint, &graph, closed.as_slice());
    proof {
        lemma_partition_lineage(snapshot@, active@, closed@, graph);
        let old = checkpoint.view();
        assert(link_fn(graph) =~= snapshot_link(snapshot@));
    }
    let to_start = start_orders(snapshot, checkpoint, &migration.checkpoint, supervisor);
    let to_stop = stop_orders(snapshot, supervisor);
    Ok(CyclePlan { checkpoint: migration.checkpoint, stranded: migration.stranded, to_start, to_stop })
}

fn copy_position(o: &Option<String>) -> (r: Option<String>)
    ensures
        r == *o,
{
    match o {
        Some(s) => Some(s.clone()),
        None => None,
    }
}

/// Carries out a plan's orders on the supervisor. Consumers held before keep
/// their shard and position, and drain where the plan stops them while
/// live. Each consumer added is one that a start order names, at that
/// order's position, pending, or draining where the plan also stops it.
/// Afterwards a consumer is held for each shard to start, and none is live
/// for a shard to stop.
pub fn apply_plan(supervisor: &mut ConsumerSupervisor, plan: &CyclePlan)
    requires
        old(supervisor).wf(),
    ensures
        final(supervisor).wf(),
        final(supervisor).consumers@.len() >= old(supervisor).consumers@.len(),
        forall|i: int|
            0 <= i < old(supervisor).consumers@.len() ==> {
                let (a, b) = (old(supervisor).consumers@[i], #[trigger] final(supervisor).consumers@[i]);
                &&& b.shard_id == a.shard_id
                &&& b.current_position == a.current_position
                &&& b.last_activity_ms == a.last_activity_ms
                &&& b.phase == if id_set(plan.to_stop@).contains(a.shard_id@) && a.live() {
                    ConsumerPhase::Draining
                } else {
                    a.phase
                }
            },
        forall|i: int|
            old(supervisor).consumers@.len() <= i < final(supervisor).consumers@.len() ==> {
                let b = #[trigger] final(supervisor).consumers@[i];
                &&& exists|t: int|
                    0 <= t < plan.to_start@.len() && (#[trigger] plan.to_start@[t]).shard_id@ == b.shard_id@
                        && b.current_position == plan.to_start@[t].from_position
                &&& b.last_activity_ms == 0
                &&& b.phase == if id_set(plan.to_stop@).contains(b.shard_id@) {
                    ConsumerPhase::Draining
                } else {
                    ConsumerPhase::Pending
                }
            },
        forall|t: int|
            0 <= t < plan.to_start@.len() ==> final(supervisor).tracks((#[trigger] plan.to_start@[t]).shard_id@),
        forall|t: int|
            0 <= t < plan.to_stop@.len() ==> !final(supervisor).active((#[trigger] plan.to_stop@[t])@),
{
    let ghost initial = supervisor.consumers@;
    let mut k: usize = 0;
    while k < plan.to_start.len()
        invariant
            supervisor.wf(),
            k <= plan.to_start@.len(),
            supervisor.consumers@.len() >= initial.len(),
            forall|i: int| 0 <= i < initial.len() ==> #[trigger] supervisor.consumers@[i] == initial[i],
            forall|i: int|
                initial.len() <= i < supervisor.consumers@.len() ==> {
                    let b = #[trigger] supervisor.consumers@[i];
                    &&& exists|t: int|
                        0 <= t < k && (#[trigger] plan.to_start@[t]).shard_id@ == b.shard_id@
                            && b.current_position == plan.to_start@[t].from_position
                    &&& b.last_activity_ms == 0
                    &&& b.phase == ConsumerPhase::Pending
                },
            forall|t: int| 0 <= t < k ==> supervisor.tracks((#[trigger] plan.to_start@[t]).shard_id@),
        decreases plan.to_start@.len() - k,
    {
        let order = &plan.to_start[k];
        let ghost before = *supervisor;
        supervisor.start(&order.shard_id, copy_position(&order.from_position));
        proof {
            if !before.tracks(order.shard_id@) {
                assert forall|i: int| 0 <= i < before.consumers@.len() implies #[trigger] supervisor.consumers@[i]
                    == before.consumers@[i] by {
                    assert(supervisor.consumers@.drop_last()[i] == supervisor.consumers@[i]);
                }
                let last = supervisor.consumers@.len() - 1;
                assert(plan.to_start@[k as int].shard_id@ == supervisor.consumers@[last].shard_id@);
            }
            assert forall|i: int| initial.len() <= i < supervisor.consumers@.len() implies {
                    let b = #[trigger] supervisor.consumers@[i];
                    &&& exists|t: int|
                        0 <= t < k + 1 && (#[trigger] plan.to_start@[t]).shard_id@ == b.shard_id@
                            && b.current_position == plan.to_start@[t].from_position
                    &&& b.last_activity_ms == 0
                    &&& b.phase == ConsumerPhase::Pending
                } by {
                if i < before.consumers@.len() {
                    if !before.tracks(order.shard_id@) {
                        assert(supervisor.consumers@.drop_last()[i] == supervisor.consumers@[i]);
                    }
                    assert(supervisor.consumers@[i] == before.consumers@[i]);
                    let b = before.consumers@[i];
                    let t = choose|t: int|
                        0 <= t < k && (#[trigger] plan.to_start@[t]).shard_id@ == b.shard_id@
                            && b.current_position == plan.to_start@[t].from_position;
                    assert(plan.to_start@[t].shard_id@ == b.shard_id@);
                } else {
                    assert(!before.tracks(order.shard_id@));
                    assert(i == supervisor.consumers@.len() - 1);
                    assert(plan.to_start@[k as int] == *order);
                    assert(supervisor.consumers@[i].current_position == order.from_position);
                    assert(supervisor.consumers@[i].shard_id@ == plan.to_start@[k as int].shard_id@);
                }
            }
            assert forall|t: int| 0 <= t < k + 1 implies supervisor.tracks((#[trigger] plan.to_start@[t]).shard_id@) by {
                let id = plan.to_start@[t].shard_id@;
                if before.tracks(id) {
                    let i = choose|i: int| 0 <= i < before.consumers@.len() && (#[trigger] before.consumers@[i]).shard_id@ == id;
                    assert(supervisor.consumers@[i] == before.consumers@[i]);
                } else {
                    let last = supervisor.consumers@.len() - 1;
                    assert(supervisor.consumers@[last].shard_id@ == id);
                }
            }
        }
        k = k + 1;
    }
    let ghost mid = supervisor.consumers@;
    let mut k: usize = 0;
    while k < plan.to_stop.len()
        invariant
            supervisor.wf(),
            k <= plan.to_stop@.len(),
            supervisor.consumers@.len() == mid.len(),
            forall|i: int|
                0 <= i < mid.len() ==> {
                    let (a, b) = (mid[i], #[trigger] supervisor.consumers@[i]);
                    &&& b.shard_id == a.shard_id
                    &&& b.current_position == a.current_position
                    &&& b.last_activity_ms == a.last_activity_ms
                    &&& b.phase == if id_set(plan.to_stop@.subrange(0, k as int)).contains(a.shard_id@) && a.live() {
                        ConsumerPhase::Draining
                    } else {
                        a.phase
                    }
                },
        decreases plan.to_stop@.len() - k,
    {
        let ghost before = supervisor.consumers@;
        supervisor.stop(&plan.to_stop[k]);
        proof {
            let pre = plan.to_stop@.subrange(0, k as int);
            let next = plan.to_stop@.subrange(0, k + 1);
            assert forall|id: Seq<char>| id_set(next).contains(id) <==> id_set(pre).contains(id) || id == plan.to_stop@[k as int]@ by {
                if id_set(next).contains(id) {
                    let t = choose|t: int| 0 <= t < next.len() && (#[trigger] next[t])@ == id;
                    if t < k {
                        assert(pre[t] == next[t]);
                    }
                }
                if id_set(pre).contains(id) {
                    let t = choose|t: int| 0 <= t < pre.len() && (#[trigger] pre[t])@ == id;
                    assert(next[t] == pre[t]);
                }
                if id == plan.to_stop@[k as int]@ {
                    assert(next[k as int] == plan.to_stop@[k as int]);
                }
            }
            assert forall|i: int| 0 <= i < mid.len() implies {
                    let (a, b) = (mid[i], #[trigger] supervisor.consumers@[i]);
                    &&& b.shard_id == a.shard_id
                    &&& b.current_position == a.current_position
                    &&& b.last_activity_ms == a.last_activity_ms
                    &&& b.phase == if id_set(next).contains(a.shard_id@) && a.live() {
                        ConsumerPhase::Draining
                    } else {
                        a.phase
                    }
                } by {
                assert(before[i] == before[i]);
            }
        }
        k = k + 1;
    }
    proof {
        assert(plan.to_stop@.subrange(0, plan.to_stop@.len() as int) =~= plan.to_stop@);
        assert forall|t: int| 0 <= t < plan.to_start@.len() implies supervisor.tracks((#[trigger] plan.to_start@[t]).shard_id@) by {
            let id = plan.to_start@[t].shard_id@;
            let i = choose|i: int| 0 <= i < mid.len() && (#[trigger] mid[i]).shard_id@ == id;
            assert(supervisor.consumers@[i].shard_id == mid[i].shard_id);
        }
        assert forall|t: int| 0 <= t < plan.to_stop@.len() implies !supervisor.active((#[trigger] plan.to_stop@[t])@) by {
            let id = plan.to_stop@[t]@;
            assert(id_set(plan.to_stop@).contains(id));
            assert forall|i: int| 0 <= i < supervisor.consumers@.len() && (#[trigger] supervisor.consumers@[i]).shard_id@ == id
                implies !supervisor.consumers@[i].live() by {
                assert(supervisor.consumers@[i].shard_id == mid[i].shard_id);
            }
        }
        assert forall|i: int| initial.len() <= i < supervisor.consumers@.len() implies
            (#[trigger] supervisor.consumers@[i]).phase == if id_set(plan.to_stop@).contains(supervisor.consumers@[i].shard_id@) {
                ConsumerPhase::Draining
            } else {
                ConsumerPhase::Pending
            } by {
            assert(mid[i].phase == ConsumerPhase::Pending);
        }
    }
}

} // verus!
