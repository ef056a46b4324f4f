use vstd::prelude::*;
use crate::checkpoint::{
    Checkpoint, CheckpointEntry, entries_view, unique_ids, is_max_of, lemma_raised_is_max,
    lemma_entries_view,
};
use crate::lineage::{LineageGraph, string_views};
use crate::descent::{link_fn, open_descendants, reaches, reaches_within};
use crate::position::position_le;
use crate::shard::{Shard, shard_ids};

verus! {

/// `x` is a position that shard `k` takes over when the shards in `closed`
/// are retired: `k` is not closed, and `x` is recorded in `old` either for
/// `k` itself or for a closed shard that `k` descends from through closed
/// shards only.
pub open spec fn inherits(
    old: Map<Seq<char>, Seq<char>>,
    link: spec_fn(Seq<char>, Seq<char>) -> bool,
    closed: Set<Seq<char>>,
    k: Seq<char>,
    x: Seq<char>,
) -> bool {
    &&& !closed.contains(k)
    &&& exists|p: Seq<char>|
        #[trigger] old.contains_key(p) && old[p] == x && (p == k || (closed.contains(p)
            && reaches(link, closed, p, k)))
}

pub open spec fn inherit_fn(old: Map<Seq<char>, Seq<char>>, link: spec_fn(Seq<char>, Seq<char>) -> bool, closed: Set<Seq<char>>) -> spec_fn(
    Seq<char>,
    Seq<char>,
) -> bool {
    |k: Seq<char>, x: Seq<char>| inherits(old, link, closed, k, x)
}

/// `new` is the migration of `old`: each shard that inherits some position
/// holds the latest of those it inherits, and no other shard has an entry.
pub open spec fn is_migration(
    old: Map<Seq<char>, Seq<char>>,
    link: spec_fn(Seq<char>, Seq<char>) -> bool,
    closed: Set<Seq<char>>,
    new: Map<Seq<char>, Seq<char>>,
) -> bool {
    is_max_of(new, inherit_fn(old, link, closed))
}

/// A closed shard with a recorded position and no open descendant reached
/// through closed shards: its position has nowhere to go.
pub open spec fn is_stranded(
    old: Map<Seq<char>, Seq<char>>,
    link: spec_fn(Seq<char>, Seq<char>) -> bool,
    closed: Set<Seq<char>>,
    p: Seq<char>,
) -> bool {
    &&& closed.contains(p)
    &&& old.contains_key(p)
    &&& forall|c: Seq<char>| #[trigger] reaches(link, closed, p, c) ==> closed.contains(c)
}

/// What a migration produces: the new checkpoint, and the closed shards
/// whose positions were dropped for want of an open successor.
pub struct Migration {
    pub checkpoint: Checkpoint,
    pub stranded: Vec<String>,
}

spec fn partial_fn(
    m: Map<Seq<char>, Seq<char>>,
    link: spec_fn(Seq<char>, Seq<char>) -> bool,
    closed: Set<Seq<char>>,
    kids: Seq<Seq<char>>,
    x: Seq<char>,
) -> spec_fn(Seq<char>, Seq<char>) -> bool {
    |k: Seq<char>, y: Seq<char>| inherits(m, link, closed, k, y) || (y == x && !closed.contains(k) && kids.contains(k))
}

proof fn lemma_inherits_open(
    m: Map<Seq<char>, Seq<char>>,
    link: spec_fn(Seq<char>, Seq<char>) -> bool,
    closed: Set<Seq<char>>,
    p: Seq<char>,
    x: Seq<char>,
)
    requires
        !m.contains_key(p),
        !closed.contains(p),
    ensures
        forall|k: Seq<char>, y: Seq<char>|
            #[trigger] inherits(m.insert(p, x), link, closed, k, y) <==> inherits(m, link, closed, k, y)
                || (k == p && y == x),
{
    let m2 = m.insert(p, x);
    assert forall|k: Seq<char>, y: Seq<char>|
        #[trigger] inherits(m2, link, closed, k, y) <==> inherits(m, link, closed, k, y) || (k == p && y
            == x) by {
        if inherits(m2, link, closed, k, y) {
            let q = choose|q: Seq<char>|
                #[trigger] m2.contains_key(q) && m2[q] == y && (q == k || (closed.contains(q)
                    && reaches(link, closed, q, k)));
            if q != p {
                assert(m.contains_key(q) && m[q] == y);
            }
        }
        if inherits(m, link, closed, k, y) {
            let q = choose|q: Seq<char>|
                #[trigger] m.contains_key(q) && m[q] == y && (q == k || (closed.contains(q)
                    && reaches(link, closed, q, k)));
            assert(m2.contains_key(q) && m2[q] == y);
        }
        if k == p && y == x && !closed.contains(k) {
            assert(m2.contains_key(p) && m2[p] == y);
        }
    }
}

proof fn lemma_inherits_closed(
    m: Map<Seq<char>, Seq<char>>,
    link: spec_fn(Seq<char>, Seq<char>) -> bool,
    closed: Set<Seq<char>>,
    p: Seq<char>,
    x: Seq<char>,
)
    requires
        !m.contains_key(p),
        closed.contains(p),
    ensures
        forall|k: Seq<char>, y: Seq<char>|
            #[trigger] inherits(m.insert(p, x), link, closed, k, y) <==> inherits(m, link, closed, k, y)
                || (y == x && !closed.contains(k) && reaches(link, closed, p, k)),
{
    let m2 = m.insert(p, x);
    assert forall|k: Seq<char>, y: Seq<char>|
        #[trigger] inherits(m2, link, closed, k, y) <==> inherits(m, link, closed, k, y) || (y == x
            && !closed.contains(k) && reaches(link, closed, p, k)) by {
        if inherits(m2, link, closed, k, y) {
            let q = choose|q: Seq<char>|
                #[trigger] m2.contains_key(q) && m2[q] == y && (q == k || (closed.contains(q)
                    && reaches(link, closed, q, k)));
            if q != p {
                assert(m.contains_key(q) && m[q] == y);
            }
        }
        if inherits(m, link, closed, k, y) {
            let q = choose|q: Seq<char>|
                #[trigger] m.contains_key(q) && m[q] == y && (q == k || (closed.contains(q)
                    && reaches(link, closed, q, k)));
            assert(m2.contains_key(q) && m2[q] == y);
        }
        if y == x && !closed.contains(k) && reaches(link, closed, p, k) {
            assert(m2.contains_key(p) && m2[p] == y);
        }
    }
}

/// Whether `id` is the id of one of `shards`.
pub fn contains_shard_id(shards: &[Shard], id: &String) -> (r: bool)
    ensures
        r == shard_ids(shards@).contains(id@),
{
    let mut i: usize = 0;
    while i < shards.len()
        invariant
            i <= shards@.len(),
            forall|j: int| 0 <= j < i ==> (#[trigger] shards@[j]).id() != id@,
        decreases shards@.len() - i,
    {
        if shards[i].shard_id == *id {
            return true;
        }
        i = i + 1;
    }
    false
}

/// Moves the positions of closed shards to their open descendants. An open
/// shard keeps its own position, and takes over the position of each closed
/// shard it descends from through closed shards only, keeping the latest
/// where it is offered more than one; the entries of closed shards are
/// removed, and those with no open descendant to go to are reported as
/// stranded.
pub fn migrate_checkpoints(
    original_checkpoint: &Checkpoint,
    parent_to_children: &LineageGraph,
    closed_shards: &[Shard],
) -> (r: Migration)
    requires
        original_checkpoint.wf(),
        parent_to_children.wf(),
    ensures
        r.checkpoint.wf(),
        is_migration(
            original_checkpoint.view(),
            link_fn(*parent_to_children),
            shard_ids(closed_shards@),
            r.checkpoint.view(),
        ),
        forall|p: Seq<char>|
            #[trigger] string_views(r.stranded@).contains(p) <==> is_stranded(
                original_checkpoint.view(),
                link_fn(*parent_to_children),
                shard_ids(closed_shards@),
                p,
            ),
{
    let ghost link = link_fn(*parent_to_children);
    let ghost closed = shard_ids(closed_shards@);
    let ghost entries = original_checkpoint.entries@;
    let mut migrated = Checkpoint::new();
    let mut stranded: Vec<String> = Vec::new();
    let mut i: usize = 0;
    proof {
        assert(entries_view(entries.subrange(0, 0)) =~= Map::<Seq<char>, Seq<char>>::empty());
        assert(string_views(stranded@) =~= Seq::<Seq<char>>::empty());
        assert(is_migration(entries_view(entries.subrange(0, 0)), link, closed, migrated.view()));
    }
    while i < original_checkpoint.entries.len()
        invariant
            original_checkpoint.wf(),
            parent_to_children.wf(),
            link == link_fn(*parent_to_children),
            closed == shard_ids(closed_shards@),
            entries == original_checkpoint.entries@,
            i <= entries.len(),
            migrated.wf(),
            is_migration(entries_view(entries.subrange(0, i as int)), link, closed, migrated.view()),
            forall|p: Seq<char>|
                #[trigger] string_views(stranded@).contains(p) <==> is_stranded(
                    entries_view(entries.subrange(0, i as int)),
                    link,
                    closed,
                    p,
                ),
        decreases entries.len() - i,
    {
        let entry: &CheckpointEntry = &original_checkpoint.entries[i];
        let ghost m = entries_view(entries.subrange(0, i as int));
        let ghost m2 = m.insert(entry.shard_id@, entry.position@);
        proof {
            let next = entries.subrange(0, i + 1);
            assert(next.drop_last() =~= entries.subrange(0, i as int));
            assert(entries_view(next) == m2);
            assert(unique_ids(entries.subrange(0, i as int)));
            lemma_entries_view(entries.subrange(0, i as int));
            assert forall|j: int| 0 <= j < i implies entries.subrange(0, i as int)[j].shard_id@ != entry.shard_id@ by {
                assert(entries[j] == entries.subrange(0, i as int)[j]);
            }
        }
        let ghost before_stranded = string_views(stranded@);
        if contains_shard_id(closed_shards, &entry.shard_id) {
            proof {
                lemma_inherits_closed(m, link, closed, entry.shard_id@, entry.position@);
            }
            let mut moved = false;
            let children = open_descendants(parent_to_children, closed_shards, &entry.shard_id);
            {
                {
                    let ghost kids = string_views(children@);
                    let mut j: usize = 0;
                    proof {
                        assert(partial_fn(m, link, closed, kids.subrange(0, 0), entry.position@)
                            =~= inherit_fn(m, link, closed));
                    }
                    while j < children.len()
                        invariant
                            kids == string_views(children@),
                            j <= children@.len(),
                            migrated.wf(),
                            is_max_of(migrated.view(), partial_fn(m, link, closed, kids.subrange(0, j as int), entry.position@)),
                            moved == exists|t: int| 0 <= t < j && !closed.contains(#[trigger] kids[t]),
                            closed == shard_ids(closed_shards@),
                        decreases children@.len() - j,
                    {
                        let child = &children[j];
                        let ghost r0 = migrated.view();
                        let ghost f0 = partial_fn(m, link, closed, kids.subrange(0, j as int), entry.position@);
                        let ghost f1 = partial_fn(m, link, closed, kids.subrange(0, j + 1), entry.position@);
                        assert(kids[j as int] == child@);
                        assert forall|k: Seq<char>| kids.subrange(0, j + 1).contains(k) <==> kids.subrange(0, j as int).contains(k) || k == child@ by {
                            if kids.subrange(0, j + 1).contains(k) {
                                let t = choose|t: int| 0 <= t < j + 1 && #[trigger] kids.subrange(0, j + 1)[t] == k;
                                if t < j {
                                    assert(kids.subrange(0, j as int)[t] == k);
                                }
                            }
                            if kids.subrange(0, j as int).contains(k) {
                                let t = choose|t: int| 0 <= t < j && #[trigger] kids.subrange(0, j as int)[t] == k;
                                assert(kids.subrange(0, j + 1)[t] == k);
                            }
                            if k == child@ {
                                assert(kids.subrange(0, j + 1)[j as int] == k);
                            }
                        }
                        if !contains_shard_id(closed_shards, child) {
                            migrated.raise(child, &entry.position);
                            moved = true;
                            proof {
                                lemma_raised_is_max(r0, f0, child@, entry.position@, f1);
                            }
                        } else {
                            proof {
                                assert(f1 =~= f0);
                            }
                        }
                        j = j + 1;
                    }
                    proof {
                        assert(kids.subrange(0, kids.len() as int) =~= kids);
                        assert(children@.len() == kids.len());
                    }
                }
            }
            proof {
                let f = partial_fn(m, link, closed, string_views(children@), entry.position@);
                assert(is_max_of(migrated.view(), f));
                assert(f =~= inherit_fn(m2, link, closed));
            }
            if !moved {
                stranded.push(entry.shard_id.clone());
            }
            proof {
                let p = entry.shard_id@;
                let kids = string_views(children@);
                assert(moved == exists|c: Seq<char>| #[trigger] kids.contains(c) && !closed.contains(c)) by {
                    if moved {
                        let t = choose|t: int| 0 <= t < kids.len() && !closed.contains(#[trigger] kids[t]);
                        assert(kids.contains(kids[t]));
                    }
                    if exists|c: Seq<char>| #[trigger] kids.contains(c) && !closed.contains(c) {
                        let c = choose|c: Seq<char>| #[trigger] kids.contains(c) && !closed.contains(c);
                        let t = choose|t: int| 0 <= t < kids.len() && #[trigger] kids[t] == c;
                        assert(!closed.contains(kids[t]));
                    }
                }
                assert(is_stranded(m2, link, closed, p) == !moved) by {
                    if moved {
                        let c = choose|c: Seq<char>| #[trigger] kids.contains(c) && !closed.contains(c);
                        assert(reaches(link, closed, p, c));
                    } else {
                        assert forall|k: Seq<char>| #[trigger] reaches(link, closed, p, k) implies closed.contains(k) by {
                            if !closed.contains(k) {
                                assert(kids.contains(k));
                            }
                        }
                    }
                }
                assert forall|q: Seq<char>| q != p implies (is_stranded(m2, link, closed, q) <==> is_stranded(m, link, closed, q)) by {}
                assert forall|q: Seq<char>|
                    #[trigger] string_views(stranded@).contains(q) <==> is_stranded(m2, link, closed, q) by {
                    if !moved {
                        assert(string_views(stranded@) =~= before_stranded.push(p));
                        if q == p {
                            assert(string_views(stranded@)[before_stranded.len() as int] == q);
                        }
                        if before_stranded.contains(q) {
                            let t = choose|t: int| 0 <= t < before_stranded.len() && #[trigger] before_stranded[t] == q;
                            assert(string_views(stranded@)[t] == q);
                        }
                        if string_views(stranded@).contains(q) && q != p {
                            let t = choose|t: int| 0 <= t < string_views(stranded@).len() && #[trigger] string_views(stranded@)[t] == q;
                            assert(before_stranded[t] == q);
                        }
                    }
                }
            }
        } else {
            let ghost r0 = migrated.view();
            migrated.raise(&entry.shard_id, &entry.position);
            proof {
                lemma_inherits_open(m, link, closed, entry.shard_id@, entry.position@);
                let f1 = |k: Seq<char>, y: Seq<char>| inherit_fn(m, link, closed)(k, y) || (k == entry.shard_id@ && y == entry.position@);
                lemma_raised_is_max(r0, inherit_fn(m, link, closed), entry.shard_id@, entry.position@, f1);
                assert(f1 =~= inherit_fn(m2, link, closed));
                assert forall|q: Seq<char>|
                    #[trigger] string_views(stranded@).contains(q) <==> is_stranded(m2, link, closed, q) by {
                    assert(is_stranded(m2, link, closed, q) <==> is_stranded(m, link, closed, q));
                }
            }
        }
        i = i + 1;
    }
    proof {
        assert(entries.subrange(0, entries.len() as int) =~= entries);
    }
    Migration { checkpoint: migrated, stranded }
}

/// Migration is idempotent: migrating an already migrated checkpoint again,
/// against the same lineage and the same closed shards, changes nothing.
pub proof fn lemma_migration_idempotent(
    c: Map<Seq<char>, Seq<char>>,
    link: spec_fn(Seq<char>, Seq<char>) -> bool,
    closed: Set<Seq<char>>,
    once: Map<Seq<char>, Seq<char>>,
    twice: Map<Seq<char>, Seq<char>>,
)
    requires
        is_migration(c, link, closed, once),
        is_migration(once, link, closed, twice),
    ensures
        twice == once,
{
    assert forall|k: Seq<char>| #[trigger] once.contains_key(k) implies !closed.contains(k) by {
        assert(inherit_fn(c, link, closed)(k, once[k]));
    }
    assert forall|k: Seq<char>| #[trigger] twice.contains_key(k) implies once.contains_key(k)
        && twice[k] == once[k] by {
        assert(inherit_fn(once, link, closed)(k, twice[k]));
        let q = choose|q: Seq<char>|
            #[trigger] once.contains_key(q) && once[q] == twice[k] && (q == k || (closed.contains(
                q,
            ) && reaches(link, closed, q, k)));
    }
    assert forall|k: Seq<char>| #[trigger] once.contains_key(k) implies twice.contains_key(k) by {
        assert(inherit_fn(once, link, closed)(k, once[k]));
    }
    assert(twice =~= once);
}

/// No position is lost: the position of a closed shard reaches each of its
/// children that is still open, which resumes no earlier than it; a child
/// with no position of its own, and no other closed shard with a position
/// that it descends from, resumes exactly there.
pub proof fn lemma_migration_keeps_position(
    c: Map<Seq<char>, Seq<char>>,
    link: spec_fn(Seq<char>, Seq<char>) -> bool,
    closed: Set<Seq<char>>,
    new: Map<Seq<char>, Seq<char>>,
    p: Seq<char>,
    child: Seq<char>,
)
    requires
        is_migration(c, link, closed, new),
        closed.contains(p),
        c.contains_key(p),
        link(p, child),
        !closed.contains(child),
    ensures
        new.contains_key(child),
        position_le(c[p], new[child]),
        !c.contains_key(child) && (forall|q: Seq<char>|
            closed.contains(q) && c.contains_key(q) && #[trigger] reaches(link, closed, q, child)
                ==> q == p) ==> new[child] == c[p],
{
    assert(reaches_within(link, closed, p, child, 1));
    assert(inherit_fn(c, link, closed)(child, c[p]));
    assert(new.contains_key(child));
    assert(inherit_fn(c, link, closed)(child, new[child]));
    let q = choose|q: Seq<char>|
        #[trigger] c.contains_key(q) && c[q] == new[child] && (q == child || (closed.contains(q)
            && reaches(link, closed, q, child)));
}

/// A closed shard keeps no entry after migration, and one with a position
/// and no children at all is stranded.
pub proof fn lemma_closed_shards_leave(
    c: Map<Seq<char>, Seq<char>>,
    link: spec_fn(Seq<char>, Seq<char>) -> bool,
    closed: Set<Seq<char>>,
    new: Map<Seq<char>, Seq<char>>,
    p: Seq<char>,
)
    requires
        is_migration(c, link, closed, new),
        closed.contains(p),
    ensures
        !new.contains_key(p),
        c.contains_key(p) && (forall|k: Seq<char>| !#[trigger] link(p, k)) ==> is_stranded(c, link, closed, p),
{
    if new.contains_key(p) {
        assert(inherit_fn(c, link, closed)(p, new[p]));
    }
    if forall|k: Seq<char>| !#[trigger] link(p, k) {
        assert forall|k: Seq<char>| #[trigger] reaches(link, closed, p, k) implies closed.contains(k) by {
            let n = choose|n: nat| #[trigger] reaches_within(link, closed, p, k, n);
            assert(!reaches_within(link, closed, p, k, n));
        }
    }
}

} // verus!
