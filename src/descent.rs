use vstd::prelude::*;
use crate::lineage::{LineageGraph, string_views};
use crate::shard::{Shard, shard_ids};

verus! {

/// The parent-to-child links of a lineage graph.
pub open spec fn link_fn(g: LineageGraph) -> spec_fn(Seq<char>, Seq<char>) -> bool {
    |a: Seq<char>, b: Seq<char>| g.children(a).contains(b)
}

/// `k` is reached from `p` in at most `n` links, every shard strictly
/// between them being closed.
pub open spec fn reaches_within(
    link: spec_fn(Seq<char>, Seq<char>) -> bool,
    closed: Set<Seq<char>>,
    p: Seq<char>,
    k: Seq<char>,
    n: nat,
) -> bool
    decreases n,
{
    if n == 0 {
        false
    } else {
        link(p, k) || exists|m: Seq<char>|
            closed.contains(m) && #[trigger] link(p, m) && reaches_within(link, closed, m, k, (n - 1) as nat)
    }
}

/// `k` descends from `p` through a chain of closed shards.
pub open spec fn reaches(
    link: spec_fn(Seq<char>, Seq<char>) -> bool,
    closed: Set<Seq<char>>,
    p: Seq<char>,
    k: Seq<char>,
) -> bool {
    exists|n: nat| #[trigger] reaches_within(link, closed, p, k, n)
}

/// A closed shard reached from `p`, or `p` itself, passes its links on.
pub proof fn lemma_reaches_extend(
    link: spec_fn(Seq<char>, Seq<char>) -> bool,
    closed: Set<Seq<char>>,
    p: Seq<char>,
    m: Seq<char>,
    c: Seq<char>,
)
    requires
        closed.contains(m),
        m == p || reaches(link, closed, p, m),
        link(m, c),
    ensures
        reaches(link, closed, p, c),
{
    if m == p {
        assert(reaches_within(link, closed, p, c, 1));
    } else {
        let n = choose|n: nat| #[trigger] reaches_within(link, closed, p, m, n);
        lemma_reaches_within_extend(link, closed, p, m, c, n);
    }
}

proof fn lemma_reaches_within_extend(
    link: spec_fn(Seq<char>, Seq<char>) -> bool,
    closed: Set<Seq<char>>,
    p: Seq<char>,
    m: Seq<char>,
    c: Seq<char>,
    n: nat,
)
    requires
        closed.contains(m),
        reaches_within(link, closed, p, m, n),
        link(m, c),
    ensures
        reaches(link, closed, p, c),
    decreases n,
{
    if link(p, m) {
        assert(reaches_within(link, closed, m, c, 1));
        assert(reaches_within(link, closed, p, c, 2));
    } else {
        let m2 = choose|m2: Seq<char>|
            closed.contains(m2) && #[trigger] link(p, m2) && reaches_within(link, closed, m2, m, (n - 1) as nat);
        lemma_reaches_within_extend(link, closed, m2, m, c, (n - 1) as nat);
        let n3 = choose|n3: nat| #[trigger] reaches_within(link, closed, m2, c, n3);
        assert(reaches_within(link, closed, p, c, n3 + 1));
    }
}

/// Where every link out of a set of shards ends in the set or, when open,
/// in `out`, each open shard reached from the set is in `out`.
proof fn lemma_closed_under_links(
    link: spec_fn(Seq<char>, Seq<char>) -> bool,
    closed: Set<Seq<char>>,
    done: Set<Seq<char>>,
    out: Seq<Seq<char>>,
    m: Seq<char>,
    k: Seq<char>,
    n: nat,
)
    requires
        done.contains(m),
        forall|a: Seq<char>, b: Seq<char>|
            done.contains(a) && #[trigger] link(a, b) ==> (closed.contains(b) ==> done.contains(b)) && (
            !closed.contains(b) ==> out.contains(b)),
        reaches_within(link, closed, m, k, n),
        !closed.contains(k),
    ensures
        out.contains(k),
    decreases n,
{
    if !link(m, k) {
        let m2 = choose|m2: Seq<char>|
            closed.contains(m2) && #[trigger] link(m, m2) && reaches_within(link, closed, m2, k, (n - 1) as nat);
        lemma_closed_under_links(link, closed, done, out, m2, k, (n - 1) as nat);
    }
}

pub open spec fn count_unmarked(s: Seq<bool>) -> nat
    decreases s.len(),
{
    if s.len() == 0 {
        0
    } else {
        count_unmarked(s.drop_last()) + if s.last() { 0nat } else { 1nat }
    }
}

proof fn lemma_mark(s: Seq<bool>, j: int)
    requires
        0 <= j < s.len(),
        !s[j],
    ensures
        count_unmarked(s.update(j, true)) + 1 == count_unmarked(s),
    decreases s.len(),
{
    let u = s.update(j, true);
    if j < s.len() - 1 {
        assert(u.drop_last() =~= s.drop_last().update(j, true));
        lemma_mark(s.drop_last(), j);
    } else {
        assert(u.drop_last() =~= s.drop_last());
    }
}

/// The first index at which `shards` holds `id`.
fn first_index(shards: &[Shard], id: &String) -> (r: Option<usize>)
    ensures
        match r {
            Some(j) => j < shards@.len() && shards@[j as int].id() == id@ && forall|t: int|
                0 <= t < j ==> (#[trigger] shards@[t]).id() != id@,
            None => !shard_ids(shards@).contains(id@),
        },
{
    let mut i: usize = 0;
    while i < shards.len()
        invariant
            i <= shards@.len(),
            forall|t: int| 0 <= t < i ==> (#[trigger] shards@[t]).id() != id@,
        decreases shards@.len() - i,
    {
        if shards[i].shard_id == *id {
            return Some(i);
        }
        i = i + 1;
    }
    None
}

pub open spec fn is_first(shards: Seq<Shard>, j: int) -> bool {
    forall|t: int| 0 <= t < j ==> (#[trigger] shards[t]).id() != shards[j].id()
}

/// The open shards that descend from the closed shard `p` through chains
/// of closed shards.
pub fn open_descendants(g: &LineageGraph, closed_shards: &[Shard], p: &String) -> (r: Vec<String>)
    requires
        g.wf(),
        shard_ids(closed_shards@).contains(p@),
    ensures
        forall|k: Seq<char>|
            #[trigger] string_views(r@).contains(k) <==> !shard_ids(closed_shards@).contains(k) && reaches(
                link_fn(*g),
                shard_ids(closed_shards@),
                p@,
                k,
            ),
{
    let ghost link = link_fn(*g);
    let ghost closed = shard_ids(closed_shards@);
    let n = closed_shards.len();
    let mut visited: Vec<bool> = Vec::new();
    while visited.len() < n
        invariant
            visited@.len() <= n,
            forall|j: int| 0 <= j < visited@.len() ==> !visited@[j],
        decreases n - visited@.len(),
    {
        visited.push(false);
    }
    let start = first_index(closed_shards, p).unwrap();
    visited.set(start, true);
    let mut worklist: Vec<String> = Vec::new();
    worklist.push(p.clone());
    let mut out: Vec<String> = Vec::new();
    let ghost mut seen: Set<Seq<char>> = set![p@];
    let ghost mut done: Set<Seq<char>> = Set::empty();
    proof {
        assert(string_views(worklist@) =~= seq![p@]);
        assert(seq![p@][0] == p@);
        assert forall|j: int| 0 <= j < n implies visited@[j] == (seen.contains((#[trigger] closed_shards@[j]).id()) && is_first(closed_shards@, j)) by {
            if seen.contains(closed_shards@[j].id()) && is_first(closed_shards@, j) {
                if j > start {
                    assert(closed_shards@[start as int].id() == closed_shards@[j].id());
                }
            }
        }
    }
    while worklist.len() > 0
        invariant
            g.wf(),
            link == link_fn(*g),
            closed == shard_ids(closed_shards@),
            visited@.len() == n,
            n == closed_shards@.len(),
            closed.contains(p@),
            seen.contains(p@),
            forall|x: Seq<char>| #[trigger] seen.contains(x) ==> closed.contains(x),
            forall|j: int| 0 <= j < n ==> visited@[j] == (seen.contains((#[trigger] closed_shards@[j]).id()) && is_first(closed_shards@, j)),
            forall|x: Seq<char>| #[trigger] seen.contains(x) <==> done.contains(x) || string_views(worklist@).contains(x),
            forall|x: Seq<char>| #[trigger] seen.contains(x) ==> x == p@ || reaches(link, closed, p@, x),
            forall|a: Seq<char>, b: Seq<char>|
                done.contains(a) && #[trigger] link(a, b) ==> (closed.contains(b) ==> seen.contains(b)) && (
                !closed.contains(b) ==> string_views(out@).contains(b)),
            forall|k: Seq<char>| #[trigger] string_views(out@).contains(k) ==> !closed.contains(k) && reaches(link, closed, p@, k),
        decreases count_unmarked(visited@), worklist@.len(),
    {
        let ghost wl0 = string_views(worklist@);
        let m = worklist.pop().unwrap();
        let ghost cu0 = count_unmarked(visited@);
        proof {
            assert(wl0 =~= string_views(worklist@).push(m@));
            assert forall|x: Seq<char>| #[trigger] seen.contains(x) implies done.contains(x) || string_views(worklist@).contains(x) || x == m@ by {
                if wl0.contains(x) && x != m@ {
                    let t = choose|t: int| 0 <= t < wl0.len() && wl0[t] == x;
                    assert(string_views(worklist@)[t] == x);
                }
            }
            assert(seen.contains(m@)) by {
                assert(wl0[wl0.len() - 1] == m@);
            }
            assert forall|x: Seq<char>| done.contains(x) || string_views(worklist@).contains(x) implies #[trigger] seen.contains(x) by {
                if string_views(worklist@).contains(x) {
                    let t = choose|t: int| 0 <= t < string_views(worklist@).len() && string_views(worklist@)[t] == x;
                    assert(wl0[t] == x);
                    assert(wl0.contains(x));
                }
            }
        }
        match g.children_of(&m) {
            Some(children) => {
                let ghost kids = string_views(children@);
                let mut i: usize = 0;
                while i < children.len()
                    invariant
                        kids == string_views(children@),
                        forall|c: Seq<char>| #[trigger] kids.contains(c) <==> link(m@, c),
                        i <= children@.len(),
                        link == link_fn(*g),
                        closed == shard_ids(closed_shards@),
                        visited@.len() == n,
                        n == closed_shards@.len(),
                        seen.contains(p@),
                        seen.contains(m@),
                        forall|x: Seq<char>| #[trigger] seen.contains(x) ==> closed.contains(x),
                        forall|j: int| 0 <= j < n ==> visited@[j] == (seen.contains((#[trigger] closed_shards@[j]).id()) && is_first(closed_shards@, j)),
                        forall|x: Seq<char>| #[trigger] seen.contains(x) ==> done.contains(x) || string_views(worklist@).contains(x) || x == m@,
                        forall|x: Seq<char>| done.contains(x) || string_views(worklist@).contains(x) ==> #[trigger] seen.contains(x),
                        forall|x: Seq<char>| #[trigger] seen.contains(x) ==> x == p@ || reaches(link, closed, p@, x),
                        forall|a: Seq<char>, b: Seq<char>|
                            done.contains(a) && #[trigger] link(a, b) ==> (closed.contains(b) ==> seen.contains(b)) && (
                            !closed.contains(b) ==> string_views(out@).contains(b)),
                        forall|t: int| 0 <= t < i ==> (closed.contains(#[trigger] kids[t]) ==> seen.contains(kids[t])) && (
                            !closed.contains(kids[t]) ==> string_views(out@).contains(kids[t])),
                        forall|k: Seq<char>| #[trigger] string_views(out@).contains(k) ==> !closed.contains(k) && reaches(link, closed, p@, k),
                        count_unmarked(visited@) + worklist@.len() + 1 == cu0 + wl0.len(),
                        worklist@.len() + 1 >= wl0.len(),
                    decreases children@.len() - i,
                {
                    let c = &children[i];
                    assert(kids[i as int] == c@);
                    assert(kids.contains(c@));
                    proof {
                        lemma_reaches_extend(link, closed, p@, m@, c@);
                    }
                    match first_index(closed_shards, c) {
                        Some(j) => {
                            if !visited[j] {
                                proof {
                                    lemma_mark(visited@, j as int);
                                }
                                visited.set(j, true);
                                let ghost w0 = string_views(worklist@);
                                worklist.push(c.clone());
                                proof {
                                    assert(closed.contains(c@));
                                    assert(string_views(worklist@) =~= w0.push(c@));
                                    assert(!seen.contains(c@));
                                    seen = seen.insert(c@);
                                    assert forall|x: Seq<char>| #[trigger] seen.contains(x) implies done.contains(x) || string_views(worklist@).contains(x) || x == m@ by {
                                        if x == c@ {
                                            assert(string_views(worklist@)[w0.len() as int] == x);
                                        } else if w0.contains(x) {
                                            let t = choose|t: int| 0 <= t < w0.len() && w0[t] == x;
                                            assert(string_views(worklist@)[t] == x);
                                        }
                                    }
                                    assert forall|x: Seq<char>| done.contains(x) || string_views(worklist@).contains(x) implies #[trigger] seen.contains(x) by {
                                        if string_views(worklist@).contains(x) && x != c@ {
                                            let t = choose|t: int| 0 <= t < string_views(worklist@).len() && string_views(worklist@)[t] == x;
                                            assert(w0[t] == x);
                                        }
                                    }
                                    assert forall|jj: int| 0 <= jj < n implies visited@[jj] == (seen.contains((#[trigger] closed_shards@[jj]).id()) && is_first(closed_shards@, jj)) by {
                                        if jj != j && closed_shards@[jj].id() == c@ && jj > j {
                                            assert(closed_shards@[j as int].id() == closed_shards@[jj].id());
                                        }
                                    }
                                }
                            }
                        },
                        None => {
                            let ghost o0 = string_views(out@);
                            out.push(c.clone());
                            proof {
                                assert(string_views(out@) =~= o0.push(c@));
                                assert forall|k: Seq<char>| #[trigger] string_views(out@).contains(k) implies !closed.contains(k) && reaches(link, closed, p@, k) by {
                                    if k != c@ {
                                        let t = choose|t: int| 0 <= t < string_views(out@).len() && string_views(out@)[t] == k;
                                        assert(o0[t] == k);
                                        assert(o0.contains(k));
                                    }
                                }
                                assert forall|k: Seq<char>| o0.contains(k) implies #[trigger] string_views(out@).contains(k) by {
                                    let t = choose|t: int| 0 <= t < o0.len() && o0[t] == k;
                                    assert(string_views(out@)[t] == k);
                                }
                                assert(string_views(out@)[o0.len() as int] == c@);
                            }
                        },
                    }
                    i = i + 1;
                }
            },
            None => {},
        }
        proof {
            done = done.insert(m@);
        }
    }
    proof {
        assert forall|a: Seq<char>, b: Seq<char>|
            done.contains(a) && #[trigger] link(a, b) implies (closed.contains(b) ==> done.contains(b)) && (
            !closed.contains(b) ==> string_views(out@).contains(b)) by {
            if closed.contains(b) {
                assert(seen.contains(b));
                assert(string_views(worklist@) =~= Seq::<Seq<char>>::empty());
            }
        }
        assert forall|k: Seq<char>|
            #[trigger] string_views(out@).contains(k) <==> !closed.contains(k) && reaches(link, closed, p@, k) by {
            if !closed.contains(k) && reaches(link, closed, p@, k) {
                let nn = choose|nn: nat| #[trigger] reaches_within(link, closed, p@, k, nn);
                lemma_closed_under_links(link, closed, done, string_views(out@), p@, k, nn);
            }
        }
    }
    out
}

} // verus!
