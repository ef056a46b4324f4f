use vstd::prelude::*;
use crate::position::{is_later_position, position_le, position_lt, lemma_position_total, lemma_position_le_transitive};

verus! {

/// The position recorded for one shard.
pub struct CheckpointEntry {
    pub shard_id: String,
    pub position: String,
}

/// Consumption progress: at most one position per shard id.
pub struct Checkpoint {
    pub entries: Vec<CheckpointEntry>,
}

/// The map that a sequence of entries stands for; a later entry for an id
/// replaces an earlier one.
pub open spec fn entries_view(s: Seq<CheckpointEntry>) -> Map<Seq<char>, Seq<char>>
    decreases s.len(),
{
    if s.len() == 0 {
        Map::empty()
    } else {
        entries_view(s.drop_last()).insert(s.last().shard_id@, s.last().position@)
    }
}

pub open spec fn unique_ids(s: Seq<CheckpointEntry>) -> bool {
    forall|i: int, j: int| 0 <= i < j < s.len() ==> s[i].shard_id@ != s[j].shard_id@
}

pub proof fn lemma_entries_view(s: Seq<CheckpointEntry>)
    requires
        unique_ids(s),
    ensures
        forall|k: Seq<char>|
            #[trigger] entries_view(s).contains_key(k) <==> exists|j: int|
                0 <= j < s.len() && s[j].shard_id@ == k,
        forall|j: int|
            0 <= j < s.len() ==> #[trigger] entries_view(s)[s[j].shard_id@] == s[j].position@,
    decreases s.len(),
{
    if s.len() > 0 {
        let init = s.drop_last();
        lemma_entries_view(init);
        assert forall|k: Seq<char>|
            #[trigger] entries_view(s).contains_key(k) <==> exists|j: int|
                0 <= j < s.len() && s[j].shard_id@ == k by {
            if entries_view(init).contains_key(k) {
                let j = choose|j: int| 0 <= j < init.len() && init[j].shard_id@ == k;
                assert(s[j] == init[j]);
            }
            if exists|j: int| 0 <= j < s.len() && s[j].shard_id@ == k {
                let j = choose|j: int| 0 <= j < s.len() && s[j].shard_id@ == k;
                if j < s.len() - 1 {
                    assert(init[j] == s[j]);
                }
            }
        }
        assert forall|j: int| 0 <= j < s.len() implies entries_view(s)[s[j].shard_id@]
            == s[j].position@ by {
            if j < s.len() - 1 {
                assert(init[j] == s[j]);
                assert(s[j].shard_id@ != s[s.len() - 1].shard_id@);
                assert(entries_view(init)[init[j].shard_id@] == init[j].position@);
            }
        }
    }
}

/// `r` holds, for each key, the latest of the positions that `cand` offers
/// for it, and holds a key exactly when something is offered for it.
pub open spec fn is_max_of(r: Map<Seq<char>, Seq<char>>, cand: spec_fn(Seq<char>, Seq<char>) -> bool) -> bool {
    &&& forall|k: Seq<char>| #[trigger] r.contains_key(k) <==> exists|x: Seq<char>| #[trigger] cand(k, x)
    &&& forall|k: Seq<char>| #[trigger] r.contains_key(k) ==> cand(k, r[k])
    &&& forall|k: Seq<char>, x: Seq<char>|
        r.contains_key(k) && #[trigger] cand(k, x) ==> position_le(x, r[k])
}

/// `r` after raising the position of `k` to `x`.
pub open spec fn raised(r: Map<Seq<char>, Seq<char>>, k: Seq<char>, x: Seq<char>) -> Map<Seq<char>, Seq<char>> {
    if r.contains_key(k) && !position_lt(r[k], x) {
        r
    } else {
        r.insert(k, x)
    }
}

pub proof fn lemma_raised_is_max(
    r: Map<Seq<char>, Seq<char>>,
    cand: spec_fn(Seq<char>, Seq<char>) -> bool,
    k: Seq<char>,
    x: Seq<char>,
    next: spec_fn(Seq<char>, Seq<char>) -> bool,
)
    requires
        is_max_of(r, cand),
        forall|a: Seq<char>, b: Seq<char>| #[trigger] next(a, b) <==> cand(a, b) || (a == k && b == x),
    ensures
        is_max_of(raised(r, k, x), next),
{
    let r2 = raised(r, k, x);
    if r.contains_key(k) {
        lemma_position_total(r[k], x);
    }
    assert forall|a: Seq<char>| #[trigger] r2.contains_key(a) <==> exists|b: Seq<char>| #[trigger] next(a, b) by {
        if exists|b: Seq<char>| #[trigger] next(a, b) {
            let b = choose|b: Seq<char>| #[trigger] next(a, b);
            if a != k {
                assert(cand(a, b));
            }
        }
        if r2.contains_key(a) && a != k {
            assert(cand(a, r[a]));
            assert(next(a, r[a]));
        }
        if a == k {
            assert(next(a, x));
        }
    }
    assert forall|a: Seq<char>| #[trigger] r2.contains_key(a) implies next(a, r2[a]) by {
        if a != k {
            assert(cand(a, r[a]));
        } else if r2 == r {
            assert(cand(a, r[a]));
        }
    }
    assert forall|a: Seq<char>, b: Seq<char>|
        r2.contains_key(a) && #[trigger] next(a, b) implies position_le(b, r2[a]) by {
        if a == k && r.contains_key(k) && position_lt(r[k], x) && cand(a, b) {
            lemma_position_le_transitive(b, r[k], x);
        }
        if a == k && !r.contains_key(k) {
            assert(!cand(a, b));
        }
    }
}

impl Checkpoint {
    pub open spec fn wf(&self) -> bool {
        unique_ids(self.entries@)
    }

    pub open spec fn view(&self) -> Map<Seq<char>, Seq<char>> {
        entries_view(self.entries@)
    }

    pub fn new() -> (c: Checkpoint)
        ensures
            c.wf(),
            c.view() == Map::<Seq<char>, Seq<char>>::empty(),
    {
        Checkpoint { entries: Vec::new() }
    }

    fn index_of(&self, shard_id: &String) -> (r: Option<usize>)
        requires
            self.wf(),
        ensures
            match r {
                Some(i) => i < self.entries@.len() && self.entries@[i as int].shard_id@ == shard_id@,
                None => !self.view().contains_key(shard_id@),
            },
    {
        proof {
            lemma_entries_view(self.entries@);
        }
        let mut i: usize = 0;
        while i < self.entries.len()
            invariant
                i <= self.entries@.len(),
                forall|j: int| 0 <= j < i ==> self.entries@[j].shard_id@ != shard_id@,
            decreases self.entries@.len() - i,
        {
            if self.entries[i].shard_id == *shard_id {
                return Some(i);
            }
            i = i + 1;
        }
        None
    }

    /// The position recorded for `shard_id`.
    pub fn get(&self, shard_id: &String) -> (r: Option<&String>)
        requires
            self.wf(),
        ensures
            match r {
                Some(p) => self.view().contains_key(shard_id@) && self.view()[shard_id@] == p@,
                None => !self.view().contains_key(shard_id@),
            },
    {
        proof {
            lemma_entries_view(self.entries@);
        }
        match self.index_of(shard_id) {
            Some(i) => Some(&self.entries[i].position),
            None => None,
        }
    }

    pub fn contains_key(&self, shard_id: &String) -> (r: bool)
        requires
            self.wf(),
        ensures
            r == self.view().contains_key(shard_id@),
    {
        self.get(shard_id).is_some()
    }

    /// Records `position` for `shard_id`, replacing what was there.
    pub fn insert(&mut self, shard_id: &String, position: &String)
        requires
            old(self).wf(),
        ensures
            final(self).wf(),
            final(self).view() == old(self).view().insert(shard_id@, position@),
    {
        let ghost before = self.entries@;
        proof {
            lemma_entries_view(before);
        }
        match self.index_of(shard_id) {
            Some(i) => {
                self.entries.set(i, CheckpointEntry { shard_id: shard_id.clone(), position: position.clone() });
                proof {
                    assert forall|a: int, b: int| 0 <= a < b < self.entries@.len() implies
                        self.entries@[a].shard_id@ != self.entries@[b].shard_id@ by {
                        assert(self.entries@[a].shard_id@ == before[a].shard_id@);
                        assert(self.entries@[b].shard_id@ == before[b].shard_id@);
                    }
                    lemma_entries_view(self.entries@);
                    let target = entries_view(before).insert(shard_id@, position@);
                    assert forall|k: Seq<char>| #[trigger] self.view().contains_key(k) <==> target.contains_key(k) by {
                        if self.view().contains_key(k) {
                            let j = choose|j: int| 0 <= j < self.entries@.len() && self.entries@[j].shard_id@ == k;
                            assert(before[j].shard_id@ == k);
                        }
                        if entries_view(before).contains_key(k) {
                            let j = choose|j: int| 0 <= j < before.len() && before[j].shard_id@ == k;
                            assert(self.entries@[j].shard_id@ == k);
                        }
                        if k == shard_id@ {
                            assert(self.entries@[i as int].shard_id@ == k);
                        }
                    }
                    assert forall|k: Seq<char>| #[trigger] self.view().contains_key(k) implies
                        target[k] == self.view()[k] by {
                        let j = choose|j: int| 0 <= j < self.entries@.len() && self.entries@[j].shard_id@ == k;
                        assert(self.view()[self.entries@[j].shard_id@] == self.entries@[j].position@);
                        if j != i {
                            assert(before[j] == self.entries@[j]);
                            assert(entries_view(before)[before[j].shard_id@] == before[j].position@);
                        }
                    }
                    assert(self.view() =~= target);
                }
            },
            None => {
                self.entries.push(CheckpointEntry { shard_id: shard_id.clone(), position: position.clone() });
                proof {
                    assert(self.entries@.drop_last() =~= before);
                }
            },
        }
    }

    /// Raises the position of `shard_id` to `position`: records it where none
    /// was recorded or the recorded one is earlier, and keeps the recorded one
    /// otherwise.
    pub fn raise(&mut self, shard_id: &String, position: &String)
        requires
            old(self).wf(),
        ensures
            final(self).wf(),
            final(self).view() == raised(old(self).view(), shard_id@, position@),
    {
        let keep = match self.get(shard_id) {
            Some(current) => !is_later_position(position, current),
            None => false,
        };
        if !keep {
            self.insert(shard_id, position);
        }
    }

    /// The number of shards with a recorded position.
    pub fn len(&self) -> (r: usize)
        requires
            self.wf(),
        ensures
            r == self.view().len(),
    {
        proof {
            lemma_entries_view_len(self.entries@);
        }
        self.entries.len()
    }
}

proof fn lemma_entries_view_len(s: Seq<CheckpointEntry>)
    requires
        unique_ids(s),
    ensures
        entries_view(s).dom().finite(),
        entries_view(s).len() == s.len(),
    decreases s.len(),
{
    if s.len() > 0 {
        let init = s.drop_last();
        lemma_entries_view_len(init);
        lemma_entries_view(init);
        assert(!entries_view(init).contains_key(s.last().shard_id@));
    }
}

} // verus!
