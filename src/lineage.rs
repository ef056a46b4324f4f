use vstd::prelude::*;
use crate::shard::Shard;
use crate::position::{lex_lt, lex_less, lemma_lex_lt_transitive, lemma_lex_lt_total};
use crate::error::LineageError;

verus! {

/// The snapshot lists `c` with `p` as its parent or merge parent.
pub open spec fn parent_link(shards: Seq<Shard>, p: Seq<char>, c: Seq<char>) -> bool {
    exists|i: int| 0 <= i < shards.len() && (#[trigger] shards[i]).id() == c && shards[i].has_parent(p)
}

/// Strictly increasing in the order of ids: sorted, and no id twice.
pub open spec fn id_sorted(s: Seq<Seq<char>>) -> bool {
    forall|i: int, j: int| 0 <= i < j < s.len() ==> lex_lt(s[i], s[j])
}

pub open spec fn string_views(v: Seq<String>) -> Seq<Seq<char>> {
    v.map_values(|s: String| s@)
}

/// The children recorded for one parent shard.
struct ChildList {
    parent: String,
    children: Vec<String>,
}

/// Edges from parent shards to the shards split or merged out of them.
pub struct LineageGraph {
    entries: Vec<ChildList>,
}

impl LineageGraph {
    /// Each parent has one list, whose children are ordered by id.
    pub closed spec fn wf(&self) -> bool {
        &&& forall|i: int, j: int|
            0 <= i < j < self.entries@.len() ==> self.entries@[i].parent@
                != self.entries@[j].parent@
        &&& forall|i: int|
            0 <= i < self.entries@.len() ==> id_sorted(string_views(#[trigger] self.entries@[i].children@))
    }

    pub proof fn lemma_children_sorted(&self, p: Seq<char>)
        requires
            self.wf(),
        ensures
            id_sorted(self.children(p)),
    {
        if exists|i: int| 0 <= i < self.entries@.len() && self.entries@[i].parent@ == p {
            let i = choose|i: int| 0 <= i < self.entries@.len() && self.entries@[i].parent@ == p;
            assert(id_sorted(string_views(self.entries@[i].children@)));
        }
    }

    /// A parent whose list was neither changed nor added keeps its children.
    proof fn lemma_children_kept(before: LineageGraph, after: LineageGraph, q: Seq<char>)
        requires
            before.wf(),
            after.wf(),
            before.entries@.len() <= after.entries@.len(),
            forall|j: int|
                0 <= j < before.entries@.len() ==> (#[trigger] after.entries@[j]).parent@
                    == before.entries@[j].parent@,
            forall|j: int|
                0 <= j < after.entries@.len() && (#[trigger] after.entries@[j]).parent@ == q ==> j
                    < before.entries@.len() && after.entries@[j] == before.entries@[j],
        ensures
            after.children(q) == before.children(q),
    {
        if exists|j: int| 0 <= j < after.entries@.len() && after.entries@[j].parent@ == q {
            let j = choose|j: int| 0 <= j < after.entries@.len() && after.entries@[j].parent@ == q;
            after.lemma_children_at(j);
            before.lemma_children_at(j);
        } else {
            assert forall|j: int|
                0 <= j < before.entries@.len() implies before.entries@[j].parent@ != q by {
                assert(after.entries@[j].parent@ == before.entries@[j].parent@);
            }
        }
    }

    /// The children of `p`, empty where none is recorded.
    pub closed spec fn children(&self, p: Seq<char>) -> Seq<Seq<char>> {
        if exists|i: int| 0 <= i < self.entries@.len() && self.entries@[i].parent@ == p {
            let i = choose|i: int| 0 <= i < self.entries@.len() && self.entries@[i].parent@ == p;
            string_views(self.entries@[i].children@)
        } else {
            Seq::empty()
        }
    }

    proof fn lemma_children_at(&self, i: int)
        requires
            self.wf(),
            0 <= i < self.entries@.len(),
        ensures
            self.children(self.entries@[i].parent@) == string_views(self.entries@[i].children@),
    {
        let p = self.entries@[i].parent@;
        let j = choose|j: int| 0 <= j < self.entries@.len() && self.entries@[j].parent@ == p;
        assert(i == j);
    }

    pub fn new() -> (g: LineageGraph)
        ensures
            g.wf(),
            forall|p: Seq<char>| g.children(p) == Seq::<Seq<char>>::empty(),
    {
        LineageGraph { entries: Vec::new() }
    }

    fn find(&self, p: &String) -> (r: Option<usize>)
        ensures
            match r {
                Some(i) => i < self.entries@.len() && self.entries@[i as int].parent@ == p@,
                None => forall|i: int|
                    0 <= i < self.entries@.len() ==> self.entries@[i].parent@ != p@,
            },
    {
        let mut i: usize = 0;
        while i < self.entries.len()
            invariant
                i <= self.entries@.len(),
                forall|j: int| 0 <= j < i ==> self.entries@[j].parent@ != p@,
            decreases self.entries@.len() - i,
        {
            if self.entries[i].parent == *p {
                return Some(i);
            }
            i = i + 1;
        }
        None
    }

    /// The children recorded for `p`, or `None` where it has none.
    pub fn children_of(&self, p: &String) -> (r: Option<&Vec<String>>)
        requires
            self.wf(),
        ensures
            match r {
                Some(v) => string_views(v@) == self.children(p@),
                None => self.children(p@) == Seq::<Seq<char>>::empty(),
            },
    {
        match self.find(p) {
            Some(i) => {
                proof {
                    self.lemma_children_at(i as int);
                }
                Some(&self.entries[i].children)
            },
            None => None,
        }
    }

    /// Records `child` as a child of `parent`.
    pub fn add_edge(&mut self, parent: &String, child: &String)
        requires
            old(self).wf(),
        ensures
            final(self).wf(),
            forall|q: Seq<char>, c: Seq<char>|
                #[trigger] final(self).children(q).contains(c) <==> old(self).children(q).contains(c)
                    || (q == parent@ && c == child@),
    {
        let ghost before = *self;
        match self.find(parent) {
            Some(i) => {
                proof {
                    before.lemma_children_at(i as int);
                }
                insert_sorted(&mut self.entries[i].children, child);
                assert(self.wf()) by {
                    assert forall|j: int| 0 <= j < self.entries@.len() implies id_sorted(string_views(#[trigger] self.entries@[j].children@)) by {
                        if j != i {
                            assert(self.entries@[j] == before.entries@[j]);
                        }
                    }
                }
                assert forall|q: Seq<char>, c: Seq<char>|
                    #[trigger] self.children(q).contains(c) <==> before.children(q).contains(c)
                        || (q == parent@ && c == child@) by {
                    if q == parent@ {
                        self.lemma_children_at(i as int);
                    } else {
                        LineageGraph::lemma_children_kept(before, *self, q);
                    }
                }
            },
            None => {
                let mut kids: Vec<String> = Vec::new();
                kids.push(child.clone());
                self.entries.push(ChildList { parent: parent.clone(), children: kids });
                let n = self.entries.len() - 1;
                assert(string_views(self.entries@[n as int].children@) =~= seq![child@]);
                assert(self.wf()) by {
                    assert forall|j: int| 0 <= j < self.entries@.len() implies id_sorted(string_views(#[trigger] self.entries@[j].children@)) by {
                        if j != n {
                            assert(self.entries@[j] == before.entries@[j]);
                        }
                    }
                }
                assert forall|q: Seq<char>, c: Seq<char>|
                    #[trigger] self.children(q).contains(c) <==> before.children(q).contains(c)
                        || (q == parent@ && c == child@) by {
                    if q == parent@ {
                        self.lemma_children_at(n as int);
                        assert(before.children(q) == Seq::<Seq<char>>::empty());
                        assert(seq![child@][0] == child@);
                    } else {
                        LineageGraph::lemma_children_kept(before, *self, q);
                    }
                }
            },
        }
    }
}

/// Puts `c` into a list ordered by id, where it is not there yet.
fn insert_sorted(v: &mut Vec<String>, c: &String)
    requires
        id_sorted(string_views(old(v)@)),
    ensures
        id_sorted(string_views(final(v)@)),
        forall|x: Seq<char>|
            #[trigger] string_views(final(v)@).contains(x) <==> string_views(old(v)@).contains(x) || x == c@,
{
    let ghost sv = string_views(v@);
    let n = v.len();
    let mut k: usize = 0;
    let mut done = false;
    while k < n && !done
        invariant
            n == v@.len(),
            sv == string_views(v@),
            k <= n,
            done ==> k < n && !lex_lt(sv[k as int], c@),
            forall|t: int| 0 <= t < k ==> lex_lt(#[trigger] sv[t], c@),
        decreases n - k + if done { 0int } else { 1int },
    {
        if lex_less(&v[k], c) {
            k = k + 1;
        } else {
            done = true;
        }
    }
    if done && v[k] == *c {
        assert(sv[k as int] == c@);
        return;
    }
    v.insert(k, c.clone());
    proof {
        let s2 = string_views(v@);
        assert(s2 =~= sv.insert(k as int, c@));
        if done {
            lemma_lex_lt_total(sv[k as int], c@);
        }
        assert forall|i: int, j: int| 0 <= i < j < s2.len() implies lex_lt(s2[i], s2[j]) by {
            if j < k {
            } else if j == k {
            } else if i < k {
                lemma_lex_lt_transitive(sv[i], c@, sv[k as int]);
                if j - 1 > k {
                    lemma_lex_lt_transitive(sv[i], sv[k as int], sv[j - 1]);
                }
            } else if i == k {
                if j - 1 > k {
                    lemma_lex_lt_transitive(c@, sv[k as int], sv[j - 1]);
                }
            }
        }
        assert forall|x: Seq<char>| #[trigger] s2.contains(x) <==> sv.contains(x) || x == c@ by {
            if s2.contains(x) {
                let t = choose|t: int| 0 <= t < s2.len() && s2[t] == x;
                if t < k {
                    assert(sv[t] == x);
                } else if t > k {
                    assert(sv[t - 1] == x);
                }
            }
            if sv.contains(x) {
                let t = choose|t: int| 0 <= t < sv.len() && sv[t] == x;
                if t < k {
                    assert(s2[t] == x);
                } else {
                    assert(s2[t + 1] == x);
                }
            }
            if x == c@ {
                assert(s2[k as int] == x);
            }
        }
    }
}

proof fn lemma_parent_link_append(a: Seq<Shard>, b: Seq<Shard>, p: Seq<char>, c: Seq<char>)
    ensures
        parent_link(a + b, p, c) <==> parent_link(a, p, c) || parent_link(b, p, c),
{
    if parent_link(a + b, p, c) {
        let i = choose|i: int| 0 <= i < (a + b).len() && (#[trigger] (a + b)[i]).id() == c && (a + b)[i].has_parent(p);
        if i < a.len() {
            assert(a[i] == (a + b)[i]);
        } else {
            assert(b[i - a.len()] == (a + b)[i]);
        }
    }
    if parent_link(a, p, c) {
        let i = choose|i: int| 0 <= i < a.len() && (#[trigger] a[i]).id() == c && a[i].has_parent(p);
        assert((a + b)[i] == a[i]);
    }
    if parent_link(b, p, c) {
        let i = choose|i: int| 0 <= i < b.len() && (#[trigger] b[i]).id() == c && b[i].has_parent(p);
        assert((a + b)[a.len() + i] == b[i]);
    }
}

impl LineageGraph {
    fn add_shards(&mut self, shards: &[Shard])
        requires
            old(self).wf(),
        ensures
            final(self).wf(),
            forall|p: Seq<char>, c: Seq<char>|
                #[trigger] final(self).children(p).contains(c) <==> old(self).children(p).contains(c)
                    || parent_link(shards@, p, c),
    {
        let ghost start = *self;
        let mut i: usize = 0;
        while i < shards.len()
            invariant
                self.wf(),
                i <= shards@.len(),
                forall|p: Seq<char>, c: Seq<char>|
                    #[trigger] self.children(p).contains(c) <==> start.children(p).contains(c)
                        || parent_link(shards@.subrange(0, i as int), p, c),
            decreases shards@.len() - i,
        {
            let shard = &shards[i];
            match &shard.parent_shard_id {
                Some(parent) => self.add_edge(parent, &shard.shard_id),
                None => {},
            }
            match &shard.adjacent_parent_shard_id {
                Some(parent) => self.add_edge(parent, &shard.shard_id),
                None => {},
            }
            proof {
                let pre = shards@.subrange(0, i as int);
                assert(shards@.subrange(0, i + 1) =~= pre + seq![*shard]);
                assert forall|p: Seq<char>, c: Seq<char>|
                    parent_link(seq![*shard], p, c) <==> shard.id() == c && shard.has_parent(p) by {
                    if shard.id() == c && shard.has_parent(p) {
                        assert(seq![*shard][0] == *shard);
                    }
                }
                assert forall|p: Seq<char>, c: Seq<char>|
                    #[trigger] self.children(p).contains(c) <==> start.children(p).contains(c)
                        || parent_link(shards@.subrange(0, i + 1), p, c) by {
                    lemma_parent_link_append(pre, seq![*shard], p, c);
                }
            }
            i = i + 1;
        }
        proof {
            assert(shards@.subrange(0, shards@.len() as int) =~= shards@);
        }
    }
}

/// Builds the lineage of a snapshot, given as its open and its closed shards:
/// each shard is a child of its parent and of its merge parent, and each
/// parent's children are ordered by id.
pub fn build_shard_lineage_map(active_shards: &[Shard], closed_shards: &[Shard]) -> (g:
    LineageGraph)
    ensures
        g.wf(),
        forall|p: Seq<char>| id_sorted(#[trigger] g.children(p)),
        forall|p: Seq<char>, c: Seq<char>|
            #[trigger] g.children(p).contains(c) <==> parent_link(active_shards@ + closed_shards@, p, c),
{
    let mut g = LineageGraph::new();
    g.add_shards(active_shards);
    g.add_shards(closed_shards);
    proof {
        assert forall|p: Seq<char>| id_sorted(#[trigger] g.children(p)) by {
            g.lemma_children_sorted(p);
        }
        assert forall|p: Seq<char>, c: Seq<char>|
            #[trigger] g.children(p).contains(c) <==> parent_link(active_shards@ + closed_shards@, p, c) by {
            lemma_parent_link_append(active_shards@, closed_shards@, p, c);
        }
    }
    g
}

/// Fails with `InvalidLineage` when some shard names itself as a parent.
pub fn validate_lineage(shards: &[Shard]) -> (r: Result<(), LineageError>)
    ensures
        r is Ok <==> forall|i: int|
            0 <= i < shards@.len() ==> !(#[trigger] shards@[i]).has_parent(shards@[i].id()),
        r matches Err(LineageError::InvalidLineage(id)) ==> exists|i: int|
            0 <= i < shards@.len() && (#[trigger] shards@[i]).id() == id@ && shards@[i].has_parent(
                id@,
            ),
{
    let mut i: usize = 0;
    while i < shards.len()
        invariant
            i <= shards@.len(),
            forall|j: int| 0 <= j < i ==> !(#[trigger] shards@[j]).has_parent(shards@[j].id()),
        decreases shards@.len() - i,
    {
        let s = &shards[i];
        let split_self = match &s.parent_shard_id {
            Some(p) => *p == s.shard_id,
            None => false,
        };
        let merge_self = match &s.adjacent_parent_shard_id {
            Some(p) => *p == s.shard_id,
            None => false,
        };
        if split_self || merge_self {
            return Err(LineageError::InvalidLineage(s.shard_id.clone()));
        }
        i = i + 1;
    }
    Ok(())
}

} // verus!
