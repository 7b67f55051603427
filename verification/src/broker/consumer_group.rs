//! Consumer groups: how far each group has come in each partition.

use vstd::prelude::*;

verus! {

/// A consumer group, a topic and a partition of it.
pub type Position = (Seq<char>, Seq<char>, u32);

/// The offset that a group has committed for a partition.
struct Committed {
    group: String,
    topic: String,
    partition: u32,
    offset: u64,
}

impl Committed {
    spec fn position(self) -> Position {
        (self.group@, self.topic@, self.partition)
    }
}

/// What the entries say, the first one for a position where there are more.
spec fn offsets_in(entries: Seq<Committed>) -> Map<Position, u64>
    decreases entries.len(),
{
    if entries.len() == 0 {
        Map::empty()
    } else {
        offsets_in(entries.drop_first()).insert(entries[0].position(), entries[0].offset)
    }
}

/// The committed offset for each (group, topic, partition) triple.
pub struct ConsumerGroupCoordinator {
    entries: Vec<Committed>,
}

impl View for ConsumerGroupCoordinator {
    type V = Map<Position, u64>;

    closed spec fn view(&self) -> Map<Position, u64> {
        offsets_in(self.entries@)
    }
}

/// The entry that counts for a position is the first one for it.
proof fn lemma_first_counts(entries: Seq<Committed>, i: int)
    requires
        0 <= i < entries.len(),
        forall|j: int|
            0 <= j < i ==> (#[trigger] entries[j]).position() != entries[i].position(),
    ensures
        offsets_in(entries).contains_key(entries[i].position()),
        offsets_in(entries)[entries[i].position()] == entries[i].offset,
    decreases i,
{
    if i > 0 {
        let rest = entries.drop_first();
        assert(rest[i - 1] == entries[i]);
        assert forall|j: int| 0 <= j < i - 1 implies (#[trigger] rest[j]).position() != rest[i
            - 1].position() by {
            assert(rest[j] == entries[j + 1]);
        }
        lemma_first_counts(rest, i - 1);
        assert(entries[0].position() != entries[i].position());
    }
}

proof fn lemma_none_counts(entries: Seq<Committed>, at: Position)
    requires
        forall|j: int| 0 <= j < entries.len() ==> (#[trigger] entries[j]).position() != at,
    ensures
        !offsets_in(entries).contains_key(at),
    decreases entries.len(),
{
    if entries.len() > 0 {
        let rest = entries.drop_first();
        assert forall|j: int| 0 <= j < rest.len() implies (#[trigger] rest[j]).position() != at by {
            assert(rest[j] == entries[j + 1]);
        }
        assert(entries[0].position() != at);
        lemma_none_counts(rest, at);
    }
}

/// Replacing the entry that counts replaces the offset.
proof fn lemma_replaced(entries: Seq<Committed>, i: int, new: Committed)
    requires
        0 <= i < entries.len(),
        new.position() == entries[i].position(),
        forall|j: int|
            0 <= j < i ==> (#[trigger] entries[j]).position() != entries[i].position(),
    ensures
        offsets_in(entries.update(i, new)) == offsets_in(entries).insert(
            new.position(),
            new.offset,
        ),
    decreases i,
{
    let updated = entries.update(i, new);
    let rest = entries.drop_first();
    if i == 0 {
        assert(updated.drop_first() =~= rest);
        assert(offsets_in(updated) =~= offsets_in(entries).insert(new.position(), new.offset));
    } else {
        assert(rest[i - 1] == entries[i]);
        assert forall|j: int| 0 <= j < i - 1 implies (#[trigger] rest[j]).position() != rest[i
            - 1].position() by {
            assert(rest[j] == entries[j + 1]);
        }
        lemma_replaced(rest, i - 1, new);
        assert(updated.drop_first() =~= rest.update(i - 1, new));
        assert(entries[0].position() != entries[i].position());
        assert(offsets_in(updated) =~= offsets_in(entries).insert(new.position(), new.offset));
    }
}

/// An entry for a position that had none adds its offset.
proof fn lemma_added(entries: Seq<Committed>, new: Committed)
    requires
        forall|j: int|
            0 <= j < entries.len() ==> (#[trigger] entries[j]).position() != new.position(),
    ensures
        offsets_in(entries.push(new)) == offsets_in(entries).insert(new.position(), new.offset),
    decreases entries.len(),
{
    let pushed = entries.push(new);
    if entries.len() == 0 {
        assert(pushed.drop_first() =~= entries);
        assert(pushed[0] == new);
    } else {
        let rest = entries.drop_first();
        assert forall|j: int| 0 <= j < rest.len() implies (#[trigger] rest[j]).position()
            != new.position() by {
            assert(rest[j] == entries[j + 1]);
        }
        lemma_added(rest, new);
        assert(pushed.drop_first() =~= rest.push(new));
        assert(entries[0].position() != new.position());
        assert(offsets_in(pushed) =~= offsets_in(entries).insert(new.position(), new.offset));
    }
}

impl ConsumerGroupCoordinator {
    /// A coordinator to which nothing was committed.
    pub fn new() -> (coordinator: ConsumerGroupCoordinator)
        ensures
            coordinator@ == Map::<Position, u64>::empty(),
    {
        ConsumerGroupCoordinator { entries: Vec::new() }
    }

    /// The first entry for the position.
    fn find(&self, group: &str, topic: &str, partition: u32) -> (r: Option<usize>)
        ensures
            match r {
                Some(i) => i < self.entries@.len() && self.entries@[i as int].position() == (
                    group@,
                    topic@,
                    partition,
                ) && forall|j: int|
                    0 <= j < i ==> (#[trigger] self.entries@[j]).position() != (
                        group@,
                        topic@,
                        partition,
                    ),
                None => forall|j: int|
                    0 <= j < self.entries@.len() ==> (#[trigger] self.entries@[j]).position() != (
                        group@,
                        topic@,
                        partition,
                    ),
            },
    {
        let group_name: String = String::from_str(group);
        let topic_name: String = String::from_str(topic);
        let mut i: usize = 0;
        while i < self.entries.len()
            invariant
                i <= self.entries@.len(),
                group_name@ == group@,
                topic_name@ == topic@,
                forall|j: int|
                    0 <= j < i ==> (#[trigger] self.entries@[j]).position() != (
                        group@,
                        topic@,
                        partition,
                    ),
            decreases self.entries@.len() - i,
        {
            let entry = &self.entries[i];
            if entry.group == group_name && entry.topic == topic_name && entry.partition
                == partition {
                return Some(i);
            }
            i = i + 1;
        }
        None
    }

    /// Remembers `offset` for the group in the partition, in place of what was
    /// remembered for it before.
    pub fn commit(&mut self, group: &str, topic: &str, partition: u32, offset: u64)
        ensures
            final(self)@ == old(self)@.insert((group@, topic@, partition), offset),
    {
        let new = Committed {
            group: String::from_str(group),
            topic: String::from_str(topic),
            partition,
            offset,
        };
        match self.find(group, topic, partition) {
            Some(i) => {
                proof {
                    lemma_replaced(self.entries@, i as int, new);
                }
                self.entries.set(i, new);
            },
            None => {
                proof {
                    lemma_added(self.entries@, new);
                }
                self.entries.push(new);
            },
        }
    }

    /// The offset that the group committed last for the partition.
    pub fn fetch_offset(&self, group: &str, topic: &str, partition: u32) -> (r: Option<u64>)
        ensures
            r == self@.get((group@, topic@, partition)),
    {
        match self.find(group, topic, partition) {
            Some(i) => {
                proof {
                    lemma_first_counts(self.entries@, i as int);
                }
                Some(self.entries[i].offset)
            },
            None => {
                proof {
                    lemma_none_counts(self.entries@, (group@, topic@, partition));
                }
                None
            },
        }
    }
}

impl Default for ConsumerGroupCoordinator {
    fn default() -> (coordinator: ConsumerGroupCoordinator)
        ensures
            coordinator@ == Map::<Position, u64>::empty(),
    {
        ConsumerGroupCoordinator::new()
    }
}

/// A group finds the offset that it committed last, and a commit leaves every
/// other group, topic and partition as it was.
pub proof fn law_commit_then_fetch(
    before: Map<Position, u64>,
    at: Position,
    offset: u64,
    other: Position,
)
    ensures
        before.insert(at, offset).get(at) == Some(offset),
        other != at ==> before.insert(at, offset).get(other) == before.get(other),
{
}

} // verus!
