//! Topics and their partitions.

use vstd::prelude::*;

use super::{BrokerError, BrokerErrorView};
use crate::log::commit_log;
use crate::log::commit_log::LogView;
use crate::log::directory;
use crate::log::directory::StoredFile;
use crate::log::{Log, LogConfig, LogError};
use crate::text;
use crate::text::push_decimal;

verus! {

/// One partition of a topic.
pub struct Partition {
    pub log: Log,
}

/// A topic.
pub struct Topic {
    pub name: String,
    pub partitions: Vec<Partition>,
}

/// The logs of partitions by their views.
pub open spec fn logs_view(partitions: Seq<Partition>) -> Seq<LogView> {
    Seq::new(partitions.len(), |i: int| partitions[i].log@)
}

/// The name of the directory of a partition within that of its topic.
pub open spec fn partition_dir_name(i: u32) -> Seq<char> {
    "partition-"@ + text::decimal(i as nat)
}

/// The name of the directory of a partition within that of its topic.
pub fn partition_dir(i: u32) -> (name: String)
    ensures
        name@ == partition_dir_name(i),
{
    let mut name = String::from_str("partition-");
    push_decimal(&mut name, i as u64);
    name
}

/// Whether these are the files of the directories of `count` partitions, each
/// within the bounds of file sizes and of offsets.
pub open spec fn stored_for(dirs: Seq<Vec<StoredFile>>, count: nat) -> bool {
    &&& dirs.len() == count
    &&& forall|i: int|
        0 <= i < dirs.len() ==> commit_log::openable(
            directory::dir_view((#[trigger] dirs[i])@),
        )
}

/// Whether each of the logs is the one over the directory of its partition.
pub open spec fn opened_all(
    logs: Seq<LogView>,
    dirs: Seq<Vec<StoredFile>>,
    config: LogConfig,
) -> bool {
    &&& logs.len() == dirs.len()
    &&& forall|i: int|
        0 <= i < logs.len() ==> (#[trigger] logs[i]).opened(
            directory::dir_view(dirs[i]@),
            config,
        )
}

impl Topic {
    /// The topic whose partitions are the logs over these directories.
    fn new(name: &str, dirs: Vec<Vec<StoredFile>>, config: &LogConfig) -> (topic: Topic)
        requires
            stored_for(dirs@, dirs@.len()),
        ensures
            topic.name@ == name@,
            opened_all(logs_view(topic.partitions@), dirs@, *config),
    {
        let mut partitions: Vec<Partition> = Vec::new();
        let mut rest: Vec<Vec<StoredFile>> = dirs;
        let ghost all = dirs@;
        while rest.len() > 0
            invariant
                rest@.len() + partitions@.len() == all.len(),
                rest@ == all.skip(partitions@.len() as int),
                stored_for(all, all.len()),
                opened_all(
                    logs_view(partitions@),
                    all.take(partitions@.len() as int),
                    *config,
                ),
            decreases rest@.len(),
        {
            let ghost before = partitions@;
            let ghost k = partitions@.len() as int;
            let files: Vec<StoredFile> = rest.remove(0);
            assert(files == all[k]);
            let log: Log = Log::open(files, *config);
            partitions.push(Partition { log });
            assert(rest@ =~= all.skip(k + 1));
            assert forall|i: int| 0 <= i < logs_view(partitions@).len() implies (
            #[trigger] logs_view(partitions@)[i]).opened(
                directory::dir_view(all.take(k + 1)[i]@),
                *config,
            ) by {
                if i < k {
                    assert(logs_view(partitions@)[i] == logs_view(before)[i]);
                    assert(all.take(k + 1)[i] == all.take(k)[i]);
                }
            }
        }
        assert(all.take(partitions@.len() as int) =~= all);
        Topic { name: String::from_str(name), partitions }
    }

    /// How many partitions the topic has.
    pub fn num_partitions(&self) -> (n: u32)
        ensures
            n == self.partitions@.len() % 0x1_0000_0000,
    {
        (self.partitions.len() as u64 % 0x1_0000_0000) as u32
    }
}

/// Topics by name, each with the logs of its partitions.
#[verifier::ext_equal]
pub struct TopicManagerView {
    pub config: LogConfig,
    pub topics: Map<Seq<char>, Seq<LogView>>,
}

impl TopicManagerView {
    /// With another log in the place of one.
    pub open spec fn with_log(self, name: Seq<char>, partition: int, log: LogView) -> TopicManagerView {
        TopicManagerView {
            topics: self.topics.insert(name, self.topics[name].update(partition, log)),
            ..self
        }
    }

    /// Why the partition cannot be had.
    pub open spec fn refusal(self, name: Seq<char>, partition: u32) -> Option<BrokerErrorView> {
        if !self.topics.contains_key(name) {
            Some(BrokerErrorView::TopicNotFound(name))
        } else if partition >= self.topics[name].len() {
            Some(
                BrokerErrorView::PartitionOutOfRange(
                    partition,
                    name,
                    self.topics[name].len() as usize,
                ),
            )
        } else {
            None
        }
    }
}

/// Whether `after` is `before` with one more topic over these directories, and with
/// `log` in the place of one of its logs.
pub open spec fn created_with(
    before: TopicManagerView,
    name: Seq<char>,
    dirs: Seq<Vec<StoredFile>>,
    partition: int,
    log: LogView,
    after: TopicManagerView,
) -> bool {
    exists|logs: Seq<LogView>| #[trigger]
        opened_all(logs, dirs, before.config) && after == (TopicManagerView {
            topics: before.topics.insert(name, logs.update(partition, log)),
            ..before
        })
}

/// The topics of a broker.
pub struct TopicManager {
    log_config: LogConfig,
    topics: Vec<Topic>,
}

/// The topics by name.
spec fn topics_map(topics: Seq<Topic>) -> Map<Seq<char>, Seq<LogView>> {
    Map::new(
        |name: Seq<char>| exists|i: int| 0 <= i < topics.len() && (#[trigger] topics[i]).name@ == name,
        |name: Seq<char>| logs_view(
            topics[choose|i: int| 0 <= i < topics.len() && (#[trigger] topics[i]).name@ == name].partitions@,
        ),
    )
}

spec fn distinct_names(topics: Seq<Topic>) -> bool {
    forall|i: int, j: int|
        0 <= i < j < topics.len() ==> (#[trigger] topics[i]).name@ != (#[trigger] topics[j]).name@
}

/// A topic is found under its name.
proof fn lemma_found(topics: Seq<Topic>, i: int)
    requires
        distinct_names(topics),
        0 <= i < topics.len(),
    ensures
        topics_map(topics).contains_key(topics[i].name@),
        topics_map(topics)[topics[i].name@] == logs_view(topics[i].partitions@),
{
    let name = topics[i].name@;
    let k = choose|k: int| 0 <= k < topics.len() && (#[trigger] topics[k]).name@ == name;
    if k < i {
        assert(topics[k].name@ != topics[i].name@);
    } else if i < k {
        assert(topics[i].name@ != topics[k].name@);
    }
}

/// Another log in the place of one changes nothing else.
proof fn lemma_log_replaced(before: Seq<Topic>, after: Seq<Topic>, i: int, p: int, log: Log)
    requires
        distinct_names(before),
        0 <= i < before.len() == after.len(),
        forall|j: int| 0 <= j < before.len() && j != i ==> #[trigger] after[j] == before[j],
        after[i].name == before[i].name,
        0 <= p < before[i].partitions@.len(),
        after[i].partitions@ == before[i].partitions@.update(p, Partition { log }),
    ensures
        distinct_names(after),
        topics_map(after) == topics_map(before).insert(
            before[i].name@,
            logs_view(before[i].partitions@).update(p, log@),
        ),
{
    let name = before[i].name@;
    assert forall|j: int, k: int| 0 <= j < k < after.len() implies (
    #[trigger] after[j]).name@ != (#[trigger] after[k]).name@ by {
        assert(before[j].name@ != before[k].name@);
    }
    let expected = topics_map(before).insert(
        name,
        logs_view(before[i].partitions@).update(p, log@),
    );
    assert forall|n: Seq<char>| #[trigger] topics_map(after).contains_key(n)
        <==> expected.contains_key(n) by {
        if topics_map(after).contains_key(n) {
            let k = choose|k: int| 0 <= k < after.len() && (#[trigger] after[k]).name@ == n;
            assert(before[k].name@ == n);
        }
        if expected.contains_key(n) {
            if n == name {
                assert(after[i].name@ == n);
            } else {
                let k = choose|k: int| 0 <= k < before.len() && (#[trigger] before[k]).name@ == n;
                assert(after[k].name@ == n);
            }
        }
    }
    assert forall|n: Seq<char>| #[trigger] topics_map(after).contains_key(n) implies topics_map(
        after,
    )[n] == expected[n] by {
        let k = choose|k: int| 0 <= k < after.len() && (#[trigger] after[k]).name@ == n;
        lemma_found(after, k);
        lemma_found(before, k);
        if k == i {
            assert(logs_view(after[i].partitions@) =~= logs_view(before[i].partitions@).update(
                p,
                log@,
            ));
        } else if k < i {
            assert(before[k].name@ != before[i].name@);
        } else {
            assert(before[i].name@ != before[k].name@);
        }
    }
    assert(topics_map(after) =~= expected);
}

/// One more topic changes nothing else.
proof fn lemma_topic_added(topics: Seq<Topic>, topic: Topic)
    requires
        distinct_names(topics),
        !topics_map(topics).contains_key(topic.name@),
    ensures
        distinct_names(topics.push(topic)),
        topics_map(topics.push(topic)) == topics_map(topics).insert(
            topic.name@,
            logs_view(topic.partitions@),
        ),
{
    let after = topics.push(topic);
    let last = topics.len() as int;
    assert forall|j: int, k: int| 0 <= j < k < after.len() implies (
    #[trigger] after[j]).name@ != (#[trigger] after[k]).name@ by {
        if k < last {
            assert(topics[j].name@ != topics[k].name@);
        } else {
            assert(topics[j].name@ != topic.name@);
        }
    }
    let expected = topics_map(topics).insert(topic.name@, logs_view(topic.partitions@));
    assert forall|n: Seq<char>| #[trigger] topics_map(after).contains_key(n)
        <==> expected.contains_key(n) by {
        if topics_map(after).contains_key(n) {
            let k = choose|k: int| 0 <= k < after.len() && (#[trigger] after[k]).name@ == n;
            if k < last {
                assert(topics[k].name@ == n);
            }
        }
        if expected.contains_key(n) {
            if n == topic.name@ {
                assert(after[last].name@ == n);
            } else {
                let k = choose|k: int| 0 <= k < topics.len() && (#[trigger] topics[k]).name@ == n;
                assert(after[k].name@ == n);
            }
        }
    }
    assert forall|n: Seq<char>| #[trigger] topics_map(after).contains_key(n) implies topics_map(
        after,
    )[n] == expected[n] by {
        let k = choose|k: int| 0 <= k < after.len() && (#[trigger] after[k]).name@ == n;
        lemma_found(after, k);
        if k < last {
            lemma_found(topics, k);
            assert(topics[k].name@ != topic.name@);
        }
    }
    assert(topics_map(after) =~= expected);
}

impl View for TopicManager {
    type V = TopicManagerView;

    closed spec fn view(&self) -> TopicManagerView {
        TopicManagerView { config: self.log_config, topics: topics_map(self.topics@) }
    }
}

impl TopicManager {
    /// What every topic manager keeps: no name is there twice, the number of
    /// partitions fits 32 bits, and the logs are well-formed.
    pub closed spec fn wf(&self) -> bool {
        &&& distinct_names(self.topics@)
        &&& forall|i: int|
            0 <= i < self.topics@.len() ==> (#[trigger] self.topics@[i]).partitions@.len()
                <= u32::MAX
        &&& forall|i: int, j: int|
            0 <= i < self.topics@.len() && 0 <= j < self.topics@[i].partitions@.len()
                ==> #[trigger] self.topics@[i].partitions@[j].log@.wf()
    }

    /// A manager without topics, whose logs will have this configuration.
    pub fn new(config: LogConfig) -> (manager: TopicManager)
        ensures
            manager.wf(),
            manager@.config == config,
            manager@.topics == Map::<Seq<char>, Seq<LogView>>::empty(),
    {
        let manager = TopicManager { log_config: config, topics: Vec::new() };
        assert(manager@.topics =~= Map::<Seq<char>, Seq<LogView>>::empty());
        manager
    }

    /// Adds a topic that is not there yet.
    fn add(&mut self, name: &str, dirs: Vec<Vec<StoredFile>>)
        requires
            old(self).wf(),
            !old(self)@.topics.contains_key(name@),
            stored_for(dirs@, dirs@.len()),
            dirs@.len() <= u32::MAX,
        ensures
            final(self).wf(),
            final(self)@.config == old(self)@.config,
            final(self)@.topics.contains_key(name@),
            opened_all(final(self)@.topics[name@], dirs@, old(self)@.config),
            final(self)@.topics == old(self)@.topics.insert(name@, final(self)@.topics[name@]),
    {
        let topic = Topic::new(name, dirs, &self.log_config);
        proof {
            lemma_topic_added(self.topics@, topic);
        }
        let ghost before = self.topics@;
        self.topics.push(topic);
        assert forall|i: int, j: int|
            0 <= i < self.topics@.len() && 0 <= j
                < self.topics@[i].partitions@.len() implies #[trigger] self.topics@[i].partitions@[j].log@.wf() by {
            if i < before.len() {
                assert(before[i].partitions@[j].log@.wf());
            } else {
                assert(logs_view(topic.partitions@)[j].wf());
            }
        }
    }

    /// Explicitly create a topic with `num_partitions` partitions, given the files
    /// of the partitions' directories, or why they could not be had.
    /// Returns `TopicAlreadyExists` if the topic is already present.
    pub fn create_topic(
        &mut self,
        name: &str,
        num_partitions: u32,
        stored: Result<Vec<Vec<StoredFile>>, LogError>,
    ) -> (r: Result<(), BrokerError>)
        requires
            old(self).wf(),
            !old(self)@.topics.contains_key(name@) && stored is Ok ==> stored_for(
                stored->Ok_0@,
                num_partitions as nat,
            ),
        ensures
            final(self).wf(),
            match r {
                Ok(_) => {
                    &&& !old(self)@.topics.contains_key(name@)
                    &&& stored is Ok
                    &&& final(self)@.config == old(self)@.config
                    &&& final(self)@.topics.contains_key(name@)
                    &&& opened_all(
                        final(self)@.topics[name@],
                        stored->Ok_0@,
                        old(self)@.config,
                    )
                    &&& final(self)@.topics == old(self)@.topics.insert(
                        name@,
                        final(self)@.topics[name@],
                    )
                },
                Err(e) => {
                    &&& final(self)@ == old(self)@
                    &&& if old(self)@.topics.contains_key(name@) {
                        e@ == BrokerErrorView::TopicAlreadyExists(
                            name@,
                            old(self)@.topics[name@].len() as u32,
                        )
                    } else {
                        stored is Err && e@ == BrokerErrorView::Log(stored->Err_0@)
                    }
                },
            },
    {
        match self.find(name) {
            Some(i) => {
                proof {
                    lemma_found(self.topics@, i as int);
                }
                let count: u32 = self.topics[i].num_partitions();
                Err(BrokerError::TopicAlreadyExists(String::from_str(name), count))
            },
            None => match stored {
                Ok(dirs) => {
                    self.add(name, dirs);
                    Ok(())
                },
                Err(e) => Err(BrokerError::Log(e)),
            },
        }
    }

    /// Get a mutable reference to the log at the given partition.
    pub fn get_partition_mut(&mut self, topic: &str, partition: u32) -> (r: Result<&mut Log, BrokerError>)
        requires
            old(self).wf(),
        ensures
            match r {
                Ok(log) => {
                    &&& old(self)@.refusal(topic@, partition) is None
                    &&& log@ == old(self)@.topics[topic@][partition as int]
                    &&& log@.wf()
                    &&& final(self)@ == old(self)@.with_log(topic@, partition as int, (*final(log))@)
                    &&& (*final(log))@.wf() ==> final(self).wf()
                },
                Err(e) => {
                    &&& old(self)@.refusal(topic@, partition) == Some(e@)
                    &&& final(self)@ == old(self)@
                    &&& final(self).wf()
                },
            },
    {
        let i: usize = match self.find(topic) {
            Some(i) => i,
            None => {
                return Err(BrokerError::TopicNotFound(String::from_str(topic)));
            },
        };
        let n: usize = self.topics[i].partitions.len();
        if partition as usize >= n {
            return Err(BrokerError::PartitionOutOfRange(partition, String::from_str(topic), n));
        }
        let ghost before = self.topics@;
        proof {
            lemma_found(before, i as int);
        }
        let t = &mut self.topics[i];
        let p = &mut t.partitions[partition as usize];
        let log = &mut p.log;
        proof {
            lemma_log_replaced(
                before,
                after_borrow(self.topics)@,
                i as int,
                partition as int,
                *final(log),
            );
        }
        Ok(log)
    }

    /// The log at the given partition, if there is one.
    pub(crate) fn partition_log(&self, topic: &str, partition: u32) -> (r: Option<&Log>)
        requires
            self.wf(),
        ensures
            match r {
                Some(log) => {
                    &&& self@.refusal(topic@, partition) is None
                    &&& log@ == self@.topics[topic@][partition as int]
                    &&& log@.wf()
                },
                None => self@.refusal(topic@, partition) is Some,
            },
    {
        match self.find(topic) {
            Some(i) => {
                proof {
                    lemma_found(self.topics@, i as int);
                }
                if (partition as usize) < self.topics[i].partitions.len() {
                    Some(&self.topics[i].partitions[partition as usize].log)
                } else {
                    None
                }
            },
            None => None,
        }
    }

    /// Get or auto-create a topic, then return the log for `partition`.
    /// If the topic doesn't exist it is created with `partition + 1` partitions,
    /// given the files of their directories, or why they could not be had.
    pub fn get_or_create_partition_mut(
        &mut self,
        topic: &str,
        partition: u32,
        stored: Result<Vec<Vec<StoredFile>>, LogError>,
    ) -> (r: Result<&mut Log, BrokerError>)
        requires
            old(self).wf(),
            !old(self)@.topics.contains_key(topic@) ==> partition < u32::MAX,
            !old(self)@.topics.contains_key(topic@) && stored is Ok ==> stored_for(
                stored->Ok_0@,
                (partition + 1) as nat,
            ),
        ensures
            match r {
                Ok(log) => {
                    &&& log@.wf()
                    &&& (*final(log))@.wf() ==> final(self).wf()
                    &&& if old(self)@.topics.contains_key(topic@) {
                        &&& old(self)@.refusal(topic@, partition) is None
                        &&& log@ == old(self)@.topics[topic@][partition as int]
                        &&& final(self)@ == old(self)@.with_log(
                            topic@,
                            partition as int,
                            (*final(log))@,
                        )
                    } else {
                        &&& stored is Ok
                        &&& log@.opened(
                            directory::dir_view(stored->Ok_0@[partition as int]@),
                            old(self)@.config,
                        )
                        &&& created_with(
                            old(self)@,
                            topic@,
                            stored->Ok_0@,
                            partition as int,
                            (*final(log))@,
                            final(self)@,
                        )
                    }
                },
                Err(e) => {
                    &&& final(self).wf()
                    &&& final(self)@ == old(self)@
                    &&& if old(self)@.topics.contains_key(topic@) {
                        old(self)@.refusal(topic@, partition) == Some(e@)
                    } else {
                        stored is Err && e@ == BrokerErrorView::Log(stored->Err_0@)
                    }
                },
            },
    {
        let ghost before = self@;
        if self.find(topic).is_none() {
            match stored {
                Ok(dirs) => {
                    self.add(topic, dirs);
                    proof {
                        let logs = self@.topics[topic@];
                        assert(logs[partition as int].opened(
                            directory::dir_view(dirs@[partition as int]@),
                            before.config,
                        ));
                        assert forall|log: LogView|
                            created_with(
                                before,
                                topic@,
                                dirs@,
                                partition as int,
                                log,
                                #[trigger] self@.with_log(topic@, partition as int, log),
                            ) by {
                            assert(self@.with_log(topic@, partition as int, log).topics
                                =~= before.topics.insert(
                                topic@,
                                logs.update(partition as int, log),
                            ));
                        }
                    }
                },
                Err(e) => {
                    return Err(BrokerError::Log(e));
                },
            }
        }
        self.get_partition_mut(topic, partition)
    }

    /// The names of the topics, each once, in no particular order.
    pub fn topic_names(&self) -> (names: Vec<String>)
        requires
            self.wf(),
        ensures
            forall|i: int, j: int|
                0 <= i < j < names@.len() ==> (#[trigger] names@[i])@ != (#[trigger] names@[j])@,
            forall|name: Seq<char>|
                (exists|i: int| 0 <= i < names@.len() && (#[trigger] names@[i])@ == name)
                    <==> #[trigger] self@.topics.contains_key(name),
    {
        let mut names: Vec<String> = Vec::new();
        let mut i: usize = 0;
        while i < self.topics.len()
            invariant
                i <= self.topics@.len(),
                names@.len() == i,
                forall|k: int| 0 <= k < i ==> (#[trigger] names@[k])@ == self.topics@[k].name@,
            decreases self.topics@.len() - i,
        {
            names.push(String::from_str(self.topics[i].name.as_str()));
            i = i + 1;
        }
        assert forall|i: int, j: int| 0 <= i < j < names@.len() implies (
        #[trigger] names@[i])@ != (#[trigger] names@[j])@ by {
            assert(self.topics@[i].name@ != self.topics@[j].name@);
        }
        assert forall|name: Seq<char>|
            (exists|i: int| 0 <= i < names@.len() && (#[trigger] names@[i])@ == name)
                <==> #[trigger] self@.topics.contains_key(name) by {
            if exists|i: int| 0 <= i < names@.len() && (#[trigger] names@[i])@ == name {
                let k = choose|i: int| 0 <= i < names@.len() && (#[trigger] names@[i])@ == name;
                assert(self.topics@[k].name@ == name);
            }
            if self@.topics.contains_key(name) {
                let k = choose|k: int|
                    0 <= k < self.topics@.len() && (#[trigger] self.topics@[k]).name@ == name;
                assert(names@[k]@ == name);
            }
        }
        names
    }

    /// How many partitions the topic has, if it is there.
    pub fn num_partitions(&self, topic: &str) -> (r: Option<u32>)
        requires
            self.wf(),
        ensures
            match r {
                Some(n) => self@.topics.contains_key(topic@) && n == self@.topics[topic@].len(),
                None => !self@.topics.contains_key(topic@),
            },
    {
        match self.find(topic) {
            Some(i) => {
                proof {
                    lemma_found(self.topics@, i as int);
                }
                Some(self.topics[i].num_partitions())
            },
            None => None,
        }
    }

    fn find(&self, topic: &str) -> (r: Option<usize>)
        requires
            self.wf(),
        ensures
            match r {
                Some(i) => i < self.topics@.len() && self.topics@[i as int].name@ == topic@,
                None => !self@.topics.contains_key(topic@),
            },
    {
        let name: String = String::from_str(topic);
        let mut i: usize = 0;
        while i < self.topics.len()
            invariant
                i <= self.topics@.len(),
                name@ == topic@,
                forall|j: int| 0 <= j < i ==> (#[trigger] self.topics@[j]).name@ != topic@,
            decreases self.topics@.len() - i,
        {
            if self.topics[i].name == name {
                return Some(i);
            }
            i = i + 1;
        }
        None
    }
}

/// Partitions do not touch each other: what happens to the log of one leaves
/// every other partition and topic as it was.
pub proof fn law_partitions_are_independent(
    before: TopicManagerView,
    name: Seq<char>,
    partition: int,
    log: LogView,
    other: Seq<char>,
    other_partition: int,
)
    requires
        before.topics.contains_key(name),
        0 <= partition < before.topics[name].len(),
        before.topics.contains_key(other),
        0 <= other_partition < before.topics[other].len(),
        other != name || other_partition != partition,
    ensures
        before.with_log(name, partition, log).topics.dom() == before.topics.dom(),
        before.with_log(name, partition, log).topics[other].len() == before.topics[other].len(),
        before.with_log(name, partition, log).topics[other][other_partition]
            == before.topics[other][other_partition],
        before.with_log(name, partition, log).topics[name][partition] == log,
{
    assert(before.with_log(name, partition, log).topics.dom() =~= before.topics.dom());
}

} // verus!
