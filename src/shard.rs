use vstd::prelude::*;

verus! {

/// The range of sequence numbers that a shard covers. A shard whose range
/// has an end is closed: it will never produce another record.
pub struct SequenceNumberRange {
    pub starting_sequence_number: String,
    pub ending_sequence_number: Option<String>,
}

/// One shard of a stream, as a listing of the stream reports it.
pub struct Shard {
    pub shard_id: String,
    /// The shard this one was split from, or the first parent of a merge.
    pub parent_shard_id: Option<String>,
    /// The second parent, present when this shard came out of a merge.
    pub adjacent_parent_shard_id: Option<String>,
    pub sequence_number_range: SequenceNumberRange,
}

pub open spec fn opt_view(o: Option<String>) -> Option<Seq<char>> {
    match o {
        Some(s) => Some(s@),
        None => None,
    }
}

fn copy_opt(o: &Option<String>) -> (r: Option<String>)
    ensures
        r == *o,
{
    match o {
        Some(s) => Some(s.clone()),
        None => None,
    }
}

impl Shard {
    pub open spec fn id(&self) -> Seq<char> {
        self.shard_id@
    }

    pub open spec fn parent(&self) -> Option<Seq<char>> {
        opt_view(self.parent_shard_id)
    }

    pub open spec fn merge_parent(&self) -> Option<Seq<char>> {
        opt_view(self.adjacent_parent_shard_id)
    }

    pub open spec fn closed(&self) -> bool {
        self.sequence_number_range.ending_sequence_number.is_some()
    }

    /// Whether `p` is named by this shard as a parent, of a split or of a merge.
    pub open spec fn has_parent(&self, p: Seq<char>) -> bool {
        self.parent() == Some(p) || self.merge_parent() == Some(p)
    }

    /// A copy of this shard.
    pub fn duplicate(&self) -> (r: Shard)
        ensures
            r == *self,
    {
        Shard {
            shard_id: self.shard_id.clone(),
            parent_shard_id: copy_opt(&self.parent_shard_id),
            adjacent_parent_shard_id: copy_opt(&self.adjacent_parent_shard_id),
            sequence_number_range: SequenceNumberRange {
                starting_sequence_number: self.sequence_number_range.starting_sequence_number.clone(),
                ending_sequence_number: copy_opt(&self.sequence_number_range.ending_sequence_number),
            },
        }
    }

    pub fn is_closed(&self) -> (r: bool)
        ensures
            r == self.closed(),
    {
        self.sequence_number_range.ending_sequence_number.is_some()
    }
}

/// The ids of the given shards.
pub open spec fn shard_ids(shards: Seq<Shard>) -> Set<Seq<char>> {
    Set::new(|id: Seq<char>| exists|i: int| 0 <= i < shards.len() && shards[i].id() == id)
}

} // verus!
