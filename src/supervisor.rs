use vstd::prelude::*;

verus! {

/// Where a shard's consumer is in its life.
#[derive(PartialEq, Eq, Structural, Clone, Copy, Debug)]
pub enum ConsumerPhase {
    Pending,
    Running,
    Draining,
    Stopped,
}

/// The state that the supervisor keeps for one shard's consumer.
pub struct ShardConsumerState {
    pub shard_id: String,
    pub current_position: Option<String>,
    pub phase: ConsumerPhase,
    pub last_activity_ms: u64,
}

impl ShardConsumerState {
    /// Pending or running: the consumer reads, or is about to.
    pub open spec fn live(&self) -> bool {
        self.phase == ConsumerPhase::Pending || self.phase == ConsumerPhase::Running
    }
}

/// A consumer for `shard_id` that has not started reading yet and will
/// begin at `from_position`, or at the start of the stream where it is `None`.
pub fn create_shard_consumer(shard_id: &str, from_position: Option<String>) -> (r: ShardConsumerState)
    ensures
        r.shard_id@ == shard_id@,
        r.current_position == from_position,
        r.phase == ConsumerPhase::Pending,
        r.last_activity_ms == 0,
{
    ShardConsumerState {
        shard_id: shard_id.to_owned(),
        current_position: from_position,
        phase: ConsumerPhase::Pending,
        last_activity_ms: 0,
    }
}

/// Owns the consumers, at most one for each shard id.
pub struct ConsumerSupervisor {
    pub consumers: Vec<ShardConsumerState>,
}

impl ConsumerSupervisor {
    pub open spec fn wf(&self) -> bool {
        forall|i: int, j: int|
            0 <= i < j < self.consumers@.len() ==> self.consumers@[i].shard_id@
                != self.consumers@[j].shard_id@
    }

    /// Whether a consumer for `id` is held, in whatever phase.
    pub open spec fn tracks(&self, id: Seq<char>) -> bool {
        exists|i: int| 0 <= i < self.consumers@.len() && (#[trigger] self.consumers@[i]).shard_id@ == id
    }

    /// Whether a consumer for `id` is held and live.
    pub open spec fn active(&self, id: Seq<char>) -> bool {
        exists|i: int|
            0 <= i < self.consumers@.len() && (#[trigger] self.consumers@[i]).shard_id@ == id
                && self.consumers@[i].live()
    }

    pub fn new() -> (s: ConsumerSupervisor)
        ensures
            s.wf(),
            s.consumers@.len() == 0,
    {
        ConsumerSupervisor { consumers: Vec::new() }
    }

    fn find(&self, shard_id: &String) -> (r: Option<usize>)
        ensures
            match r {
                Some(i) => i < self.consumers@.len() && self.consumers@[i as int].shard_id@ == shard_id@,
                None => !self.tracks(shard_id@),
            },
    {
        let mut i: usize = 0;
        while i < self.consumers.len()
            invariant
                i <= self.consumers@.len(),
                forall|j: int| 0 <= j < i ==> (#[trigger] self.consumers@[j]).shard_id@ != shard_id@,
            decreases self.consumers@.len() - i,
        {
            if self.consumers[i].shard_id == *shard_id {
                return Some(i);
            }
            i = i + 1;
        }
        None
    }

    pub fn is_tracked(&self, shard_id: &String) -> (r: bool)
        ensures
            r == self.tracks(shard_id@),
    {
        self.find(shard_id).is_some()
    }

    pub fn is_active(&self, shard_id: &String) -> (r: bool)
        requires
            self.wf(),
        ensures
            r == self.active(shard_id@),
    {
        match self.find(shard_id) {
            Some(i) => {
                let c = &self.consumers[i];
                c.phase == ConsumerPhase::Pending || c.phase == ConsumerPhase::Running
            },
            None => false,
        }
    }

    /// Starts a consumer for `shard_id` at `from_position`; does nothing where
    /// one is already held.
    pub fn start(&mut self, shard_id: &String, from_position: Option<String>)
        requires
            old(self).wf(),
        ensures
            final(self).wf(),
            old(self).tracks(shard_id@) ==> final(self).consumers@ == old(self).consumers@,
            !old(self).tracks(shard_id@) ==> final(self).consumers@.len() == old(self).consumers@.len() + 1
                && final(self).consumers@.drop_last() == old(self).consumers@
                && final(self).consumers@.last().shard_id@ == shard_id@
                && final(self).consumers@.last().current_position == from_position
                && final(self).consumers@.last().phase == ConsumerPhase::Pending
                && final(self).consumers@.last().last_activity_ms == 0,
    {
        if self.is_tracked(shard_id) {
            return;
        }
        let c = create_shard_consumer(shard_id.as_str(), from_position);
        let ghost before = self.consumers@;
        self.consumers.push(c);
        proof {
            assert(self.consumers@.drop_last() =~= before);
        }
    }

    /// Marks the consumer of `shard_id` as reading, where it is pending.
    pub fn mark_running(&mut self, shard_id: &String)
        requires
            old(self).wf(),
        ensures
            final(self).wf(),
            final(self).consumers@.len() == old(self).consumers@.len(),
            forall|i: int|
                0 <= i < old(self).consumers@.len() ==> {
                    let (a, b) = (old(self).consumers@[i], #[trigger] final(self).consumers@[i]);
                    &&& b.shard_id == a.shard_id
                    &&& b.current_position == a.current_position
                    &&& b.last_activity_ms == a.last_activity_ms
                    &&& b.phase == if a.shard_id@ == shard_id@ && a.phase == ConsumerPhase::Pending {
                        ConsumerPhase::Running
                    } else {
                        a.phase
                    }
                },
    {
        match self.find(shard_id) {
            Some(i) => {
                if self.consumers[i].phase == ConsumerPhase::Pending {
                    self.consumers[i].phase = ConsumerPhase::Running;
                }
            },
            None => {},
        }
    }

    /// Asks the consumer of `shard_id` to drain, where it is live; does
    /// nothing otherwise.
    pub fn stop(&mut self, shard_id: &String)
        requires
            old(self).wf(),
        ensures
            final(self).wf(),
            !final(self).active(shard_id@),
            final(self).consumers@.len() == old(self).consumers@.len(),
            forall|i: int|
                0 <= i < old(self).consumers@.len() ==> {
                    let (a, b) = (old(self).consumers@[i], #[trigger] final(self).consumers@[i]);
                    &&& b.shard_id == a.shard_id
                    &&& b.current_position == a.current_position
                    &&& b.last_activity_ms == a.last_activity_ms
                    &&& b.phase == if a.shard_id@ == shard_id@ && a.live() {
                        ConsumerPhase::Draining
                    } else {
                        a.phase
                    }
                },
    {
        match self.find(shard_id) {
            Some(i) => {
                let live = self.consumers[i].phase == ConsumerPhase::Pending
                    || self.consumers[i].phase == ConsumerPhase::Running;
                if live {
                    self.consumers[i].phase = ConsumerPhase::Draining;
                }
            },
            None => {},
        }
    }

    /// Records that the consumer of `shard_id` has read up to `position` at
    /// time `now_ms`.
    pub fn record_progress(&mut self, shard_id: &String, position: String, now_ms: u64)
        requires
            old(self).wf(),
        ensures
            final(self).wf(),
            final(self).consumers@.len() == old(self).consumers@.len(),
            forall|i: int|
                0 <= i < old(self).consumers@.len() ==> {
                    let (a, b) = (old(self).consumers@[i], #[trigger] final(self).consumers@[i]);
                    &&& b.shard_id == a.shard_id
                    &&& b.phase == a.phase
                    &&& if a.shard_id@ == shard_id@ {
                        b.current_position == Some(position) && b.last_activity_ms == now_ms
                    } else {
                        b.current_position == a.current_position && b.last_activity_ms
                            == a.last_activity_ms
                    }
                },
    {
        match self.find(shard_id) {
            Some(i) => {
                self.consumers[i].current_position = Some(position);
                self.consumers[i].last_activity_ms = now_ms;
            },
            None => {},
        }
    }

    /// Drops the consumer of `shard_id` once it has drained and stopped; a
    /// consumer in another phase is kept.
    pub fn remove_stopped(&mut self, shard_id: &String)
        requires
            old(self).wf(),
        ensures
            final(self).wf(),
            forall|i: int|
                0 <= i < old(self).consumers@.len() && (#[trigger] old(self).consumers@[i]).shard_id@
                    == shard_id@ && (old(self).consumers@[i].phase == ConsumerPhase::Draining
                    || old(self).consumers@[i].phase == ConsumerPhase::Stopped)
                    ==> final(self).consumers@ == old(self).consumers@.remove(i),
            !(exists|i: int|
                0 <= i < old(self).consumers@.len() && (#[trigger] old(self).consumers@[i]).shard_id@
                    == shard_id@ && (old(self).consumers@[i].phase == ConsumerPhase::Draining
                    || old(self).consumers@[i].phase == ConsumerPhase::Stopped))
                ==> final(self).consumers@ == old(self).consumers@,
    {
        match self.find(shard_id) {
            Some(i) => {
                let done = self.consumers[i].phase == ConsumerPhase::Draining
                    || self.consumers[i].phase == ConsumerPhase::Stopped;
                if done {
                    let ghost before = self.consumers@;
                    let _ = self.consumers.remove(i);
                    proof {
                        assert forall|a: int, b: int|
                            0 <= a < b < self.consumers@.len() implies self.consumers@[a].shard_id@
                            != self.consumers@[b].shard_id@ by {
                            let a0 = if a < i { a } else { a + 1 };
                            let b0 = if b < i { b } else { b + 1 };
                            assert(self.consumers@[a] == before[a0]);
                            assert(self.consumers@[b] == before[b0]);
                        }
                    }
                }
            },
            None => {},
        }
    }
}

} // verus!
