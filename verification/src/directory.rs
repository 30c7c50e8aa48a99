//! The publisher directory: the in-memory mapping from topic name to the
//! ordered sequence of live publisher entries.
//!
//! The directory is modelled as a `Map` from the topic's characters to the
//! sequence of its entries, in registration order. Its invariant: a topic key
//! is present exactly as long as its sequence is non-empty, and no key occurs
//! twice.

use vstd::prelude::*;

verus! {

/// How a publisher for a topic can be reached: a host and port pair, or an
/// opaque URL. Immutable once constructed, compared by value.
#[derive(PartialEq, Eq, Debug)]
pub enum ResourceLocator {
    HostPair { host: String, port: u32 },
    URL(String),
}

/// One registered publisher: the id allocated at registration time and the
/// locator the publisher announced. Ids are never reused while the process
/// runs, even after the entry is removed.
#[derive(PartialEq, Eq, Debug)]
pub struct PublisherHandle {
    pub id: u64,
    pub locator: ResourceLocator,
}

/// The publishers currently registered for one topic, oldest first.
#[derive(Debug)]
pub struct TopicPublishers {
    pub topic: String,
    pub handles: Vec<PublisherHandle>,
}

/// The directory itself, held as an association list so that each topic's
/// entries keep their registration order.
#[derive(Debug)]
pub struct PublisherMap {
    pub publishers: Vec<TopicPublishers>,
}

/// The mathematical content of an association list of topics: the map from
/// each topic name to its entry sequence.
pub open spec fn topics_map(s: Seq<TopicPublishers>) -> Map<Seq<char>, Seq<PublisherHandle>>
    decreases s.len(),
{
    if s.len() == 0 {
        Map::empty()
    } else {
        topics_map(s.drop_last()).insert(s.last().topic@, s.last().handles@)
    }
}

/// No topic name occurs twice in the list.
pub open spec fn distinct_topics(s: Seq<TopicPublishers>) -> bool {
    forall|i: int, j: int|
        #![trigger s[i], s[j]]
        0 <= i < s.len() && 0 <= j < s.len() && i != j ==> s[i].topic@ != s[j].topic@
}

impl View for PublisherMap {
    type V = Map<Seq<char>, Seq<PublisherHandle>>;

    open spec fn view(&self) -> Map<Seq<char>, Seq<PublisherHandle>> {
        topics_map(self.publishers@)
    }
}

impl PublisherMap {
    /// Well-formed: topic keys are distinct, and no topic stores an empty
    /// entry sequence — the key is deleted instead.
    pub open spec fn wf(&self) -> bool {
        &&& distinct_topics(self.publishers@)
        &&& forall|i: int|
            0 <= i < self.publishers@.len() ==> #[trigger] self.publishers@[i].handles@.len() > 0
    }
}

/// The directory after `handle` is registered under `topic`: the handle is
/// appended to the topic's sequence, which is created when the key is absent.
pub open spec fn dir_after_register(
    dir: Map<Seq<char>, Seq<PublisherHandle>>,
    topic: Seq<char>,
    handle: PublisherHandle,
) -> Map<Seq<char>, Seq<PublisherHandle>> {
    let prev = if dir.contains_key(topic) {
        dir[topic]
    } else {
        Seq::empty()
    };
    dir.insert(topic, prev.push(handle))
}

/// `j` is the first position in `s` whose entry carries `id`.
pub open spec fn first_match(s: Seq<PublisherHandle>, id: u64, j: int) -> bool {
    &&& 0 <= j < s.len()
    &&& s[j].id == id
    &&& forall|k: int| 0 <= k < j ==> (#[trigger] s[k]).id != id
}

/// Some entry in `s` carries `id`.
pub open spec fn has_id(s: Seq<PublisherHandle>, id: u64) -> bool {
    exists|j: int| #![trigger s[j]] 0 <= j < s.len() && s[j].id == id
}

/// `s` without its first entry carrying `id`; the other entries keep their
/// relative order.
pub open spec fn remove_id(s: Seq<PublisherHandle>, id: u64) -> Seq<PublisherHandle> {
    s.remove(choose|j: int| first_match(s, id, j))
}

/// The directory after the registration `(topic, id)` is released: when the
/// topic holds a single entry the key is deleted entirely, otherwise the
/// first entry with this id is removed and the rest keep their order.
pub open spec fn dir_after_release(
    dir: Map<Seq<char>, Seq<PublisherHandle>>,
    topic: Seq<char>,
    id: u64,
) -> Map<Seq<char>, Seq<PublisherHandle>> {
    if dir[topic].len() <= 1 {
        dir.remove(topic)
    } else {
        dir.insert(topic, remove_id(dir[topic], id))
    }
}

/// Every id stored in the directory lies below `bound`.
pub open spec fn ids_bounded(dir: Map<Seq<char>, Seq<PublisherHandle>>, bound: u64) -> bool {
    forall|k: Seq<char>, i: int|
        #![trigger dir[k][i]]
        dir.contains_key(k) && 0 <= i < dir[k].len() ==> dir[k][i].id < bound
}

/// A sequence has at most one first position for an id.
pub proof fn lemma_first_match_unique(s: Seq<PublisherHandle>, id: u64, j1: int, j2: int)
    requires
        first_match(s, id, j1),
        first_match(s, id, j2),
    ensures
        j1 == j2,
{
    if j1 < j2 {
        assert(s[j1].id != id);
    }
    if j2 < j1 {
        assert(s[j2].id != id);
    }
}

/// `remove_id` removes exactly the entry at the first matching position.
pub proof fn lemma_remove_id_at(s: Seq<PublisherHandle>, id: u64, j: int)
    requires
        first_match(s, id, j),
    ensures
        remove_id(s, id) == s.remove(j),
{
    assert(exists|j2: int| first_match(s, id, j2));
    let j2 = choose|j2: int| first_match(s, id, j2);
    lemma_first_match_unique(s, id, j, j2);
}

proof fn lemma_distinct_drop_last(s: Seq<TopicPublishers>)
    requires
        distinct_topics(s),
        s.len() > 0,
    ensures
        distinct_topics(s.drop_last()),
{
    assert forall|i: int, j: int|
        #![trigger s.drop_last()[i], s.drop_last()[j]]
        0 <= i < s.drop_last().len() && 0 <= j < s.drop_last().len() && i != j implies s.drop_last()[i].topic@
        != s.drop_last()[j].topic@ by {
        assert(s.drop_last()[i] == s[i]);
        assert(s.drop_last()[j] == s[j]);
    }
}

/// With distinct keys, the list entry at position `i` is what the map stores
/// under its topic.
pub proof fn lemma_topics_map_index(s: Seq<TopicPublishers>, i: int)
    requires
        distinct_topics(s),
        0 <= i < s.len(),
    ensures
        topics_map(s).contains_key(s[i].topic@),
        topics_map(s)[s[i].topic@] == s[i].handles@,
    decreases s.len(),
{
    if i == s.len() - 1 {
        assert(s.last() == s[i]);
    } else {
        lemma_distinct_drop_last(s);
        assert(s.drop_last()[i] == s[i]);
        lemma_topics_map_index(s.drop_last(), i);
        assert(s.last() == s[s.len() - 1]);
        assert(s.last().topic@ != s[i].topic@);
    }
}

/// Every key of the map comes from some position of the list.
pub proof fn lemma_topics_map_key_has_index(s: Seq<TopicPublishers>, k: Seq<char>)
    requires
        topics_map(s).contains_key(k),
    ensures
        exists|i: int| #![trigger s[i]] 0 <= i < s.len() && s[i].topic@ == k,
    decreases s.len(),
{
    if s.len() == 0 {
    } else if s.last().topic@ == k {
        assert(s[s.len() - 1].topic@ == k);
    } else {
        lemma_topics_map_key_has_index(s.drop_last(), k);
        let i = choose|i: int|
            #![trigger s.drop_last()[i]]
            0 <= i < s.drop_last().len() && s.drop_last()[i].topic@ == k;
        assert(s.drop_last()[i] == s[i]);
        assert(s[i].topic@ == k);
    }
}

/// A topic named at no position of the list is absent from the map.
pub proof fn lemma_topics_map_absent(s: Seq<TopicPublishers>, k: Seq<char>)
    requires
        forall|i: int| 0 <= i < s.len() ==> (#[trigger] s[i]).topic@ != k,
    ensures
        !topics_map(s).contains_key(k),
{
    if topics_map(s).contains_key(k) {
        lemma_topics_map_key_has_index(s, k);
    }
}

/// Appending a list entry inserts its topic into the map.
pub proof fn lemma_topics_map_push(s: Seq<TopicPublishers>, t: TopicPublishers)
    ensures
        topics_map(s.push(t)) == topics_map(s).insert(t.topic@, t.handles@),
{
    assert(s.push(t).drop_last() =~= s);
    assert(s.push(t).last() == t);
}

/// With distinct keys, removing the list entry at position `i` removes its
/// topic from the map.
pub proof fn lemma_topics_map_remove(s: Seq<TopicPublishers>, i: int)
    requires
        distinct_topics(s),
        0 <= i < s.len(),
    ensures
        topics_map(s.remove(i)) == topics_map(s).remove(s[i].topic@),
    decreases s.len(),
{
    let k = s[i].topic@;
    lemma_distinct_drop_last(s);
    if i == s.len() - 1 {
        assert(s.remove(i) =~= s.drop_last());
        assert forall|j: int| 0 <= j < s.drop_last().len() implies (#[trigger] s.drop_last()[j]).topic@
            != k by {
            assert(s.drop_last()[j] == s[j]);
        }
        lemma_topics_map_absent(s.drop_last(), k);
        assert(s.last() == s[i]);
        assert(topics_map(s).remove(k) =~= topics_map(s.drop_last()));
    } else {
        assert(s.remove(i).drop_last() =~= s.drop_last().remove(i));
        assert(s.drop_last()[i] == s[i]);
        assert(s.remove(i).last() == s.last());
        lemma_topics_map_remove(s.drop_last(), i);
        assert(s.last() == s[s.len() - 1]);
        assert(s.last().topic@ != k);
        assert(topics_map(s.drop_last()).remove(k).insert(s.last().topic@, s.last().handles@)
            =~= topics_map(s.drop_last()).insert(s.last().topic@, s.last().handles@).remove(k));
    }
}

/// Inserting a list entry whose topic is fresh inserts it into the map,
/// wherever in the list it is placed.
pub proof fn lemma_topics_map_insert_at(s: Seq<TopicPublishers>, i: int, t: TopicPublishers)
    requires
        0 <= i <= s.len(),
        forall|j: int| 0 <= j < s.len() ==> (#[trigger] s[j]).topic@ != t.topic@,
    ensures
        topics_map(s.insert(i, t)) == topics_map(s).insert(t.topic@, t.handles@),
    decreases s.len(),
{
    if i == s.len() {
        assert(s.insert(i, t) =~= s.push(t));
        lemma_topics_map_push(s, t);
    } else {
        assert(s.insert(i, t).drop_last() =~= s.drop_last().insert(i, t));
        assert(s.insert(i, t).last() == s.last());
        assert forall|j: int| 0 <= j < s.drop_last().len() implies (#[trigger] s.drop_last()[j]).topic@
            != t.topic@ by {
            assert(s.drop_last()[j] == s[j]);
        }
        lemma_topics_map_insert_at(s.drop_last(), i, t);
        assert(s.last() == s[s.len() - 1]);
        assert(s.last().topic@ != t.topic@);
        assert(topics_map(s.drop_last()).insert(t.topic@, t.handles@).insert(
            s.last().topic@,
            s.last().handles@,
        ) =~= topics_map(s.drop_last()).insert(s.last().topic@, s.last().handles@).insert(
            t.topic@,
            t.handles@,
        ));
    }
}

/// The directory invariant, seen through the map: a well-formed directory
/// holds a topic key only while its entry sequence is non-empty.
pub proof fn lemma_wf_no_empty_topic(m: &PublisherMap)
    requires
        m.wf(),
    ensures
        forall|k: Seq<char>| #[trigger] m@.contains_key(k) ==> m@[k].len() > 0,
{
    assert forall|k: Seq<char>| #[trigger] m@.contains_key(k) implies m@[k].len() > 0 by {
        lemma_topics_map_key_has_index(m.publishers@, k);
        let i = choose|i: int|
            #![trigger m.publishers@[i]]
            0 <= i < m.publishers@.len() && m.publishers@[i].topic@ == k;
        lemma_topics_map_index(m.publishers@, i);
    }
}

impl PublisherMap {
    /// An empty directory.
    pub fn new() -> (m: PublisherMap)
        ensures
            m@ == Map::<Seq<char>, Seq<PublisherHandle>>::empty(),
            m.wf(),
    {
        PublisherMap { publishers: Vec::new() }
    }

    /// The list position holding `topic`, when the directory has it.
    fn find_topic(&self, topic: &String) -> (r: Option<usize>)
        ensures
            match r {
                Some(i) => i < self.publishers@.len() && self.publishers@[i as int].topic@
                    == topic@,
                None => forall|i: int|
                    0 <= i < self.publishers@.len() ==> (#[trigger] self.publishers@[i]).topic@
                        != topic@,
            },
    {
        let mut i: usize = 0;
        while i < self.publishers.len()
            invariant
                i <= self.publishers@.len(),
                forall|j: int| 0 <= j < i ==> (#[trigger] self.publishers@[j]).topic@ != topic@,
            decreases self.publishers@.len() - i,
        {
            if self.publishers[i].topic == *topic {
                return Some(i);
            }
            i = i + 1;
        }
        None
    }

    /// Append `handle` under `topic`, creating the topic's sequence when the
    /// key is absent.
    pub fn insert_handle(&mut self, topic: &str, handle: PublisherHandle)
        requires
            old(self).wf(),
        ensures
            final(self).wf(),
            final(self)@ == dir_after_register(old(self)@, topic@, handle),
    {
        let ghost s0 = self.publishers@;
        let ghost m0 = topics_map(s0);
        let key: String = topic.to_owned();
        match self.find_topic(&key) {
            Some(i) => {
                let mut entry = self.publishers.remove(i);
                entry.handles.push(handle);
                let ghost e2 = entry;
                self.publishers.insert(i, entry);
                proof {
                    let s2 = self.publishers@;
                    let k = s0[i as int].topic@;
                    s0.remove_ensures(i as int);
                    s0.remove(i as int).insert_ensures(i as int, e2);
                    lemma_topics_map_index(s0, i as int);
                    lemma_topics_map_remove(s0, i as int);
                    assert forall|j: int| 0 <= j < s0.remove(i as int).len() implies (
                    #[trigger] s0.remove(i as int)[j]).topic@ != k by {
                        s0.remove_ensures(i as int);
                    }
                    lemma_topics_map_insert_at(s0.remove(i as int), i as int, s2[i as int]);
                    assert(topics_map(s2) =~= dir_after_register(m0, topic@, handle));
                    // the new list equals the old one with position `i`
                    // replaced, so keys stay distinct and sequences non-empty
                    assert(s2 =~= s0.update(i as int, s2[i as int]));
                    assert(self.wf());
                }
            },
            None => {
                let mut handles = Vec::new();
                handles.push(handle);
                self.publishers.push(TopicPublishers { topic: key, handles });
                proof {
                    let s2 = self.publishers@;
                    lemma_topics_map_push(s0, s2.last());
                    lemma_topics_map_absent(s0, topic@);
                    assert(s2.last().handles@ =~= Seq::empty().push(handle));
                    assert(topics_map(s2) =~= dir_after_register(m0, topic@, handle));
                    assert forall|i: int, j: int|
                        #![trigger s2[i], s2[j]]
                        0 <= i < s2.len() && 0 <= j < s2.len() && i != j implies s2[i].topic@
                        != s2[j].topic@ by {
                        if i < s2.len() - 1 && j < s2.len() - 1 {
                            assert(s0[i] == s2[i]);
                            assert(s0[j] == s2[j]);
                        }
                    }
                    assert(self.wf());
                }
            },
        }
    }

    /// Remove the entry `(topic, id)`: the topic key is deleted when it holds
    /// the last entry, otherwise the first entry with this id is removed and
    /// the others keep their order.
    pub fn remove_handle(&mut self, topic: &String, id: u64)
        requires
            old(self).wf(),
            old(self)@.contains_key(topic@),
            has_id(old(self)@[topic@], id),
        ensures
            final(self).wf(),
            final(self)@ == dir_after_release(old(self)@, topic@, id),
            forall|b: u64|
                ids_bounded(old(self)@, b) ==> #[trigger] ids_bounded(final(self)@, b),
    {
        let ghost s0 = self.publishers@;
        let ghost m0 = topics_map(s0);
        let found = self.find_topic(topic);
        proof {
            if found is None {
                // a directory that holds the key names it at some position
                lemma_topics_map_absent(s0, topic@);
            }
        }
        let i = found.unwrap();
        proof {
            lemma_topics_map_index(s0, i as int);
        }
        let hlen = self.publishers[i].handles.len();
        if hlen == 1 {
            self.publishers.remove(i);
            proof {
                lemma_topics_map_remove(s0, i as int);
                s0.remove_ensures(i as int);
                assert(self.wf());
                lemma_release_bound_preserved(m0, topics_map(self.publishers@), topic@);
            }
        } else {
            let mut entry = self.publishers.remove(i);
            let j = find_id(&entry.handles, id);
            entry.handles.remove(j);
            let ghost e2 = entry;
            self.publishers.insert(i, entry);
            proof {
                let s2 = self.publishers@;
                let k = s0[i as int].topic@;
                s0.remove_ensures(i as int);
                s0.remove(i as int).insert_ensures(i as int, e2);
                lemma_remove_id_at(s0[i as int].handles@, id, j as int);
                lemma_topics_map_remove(s0, i as int);
                assert forall|l: int| 0 <= l < s0.remove(i as int).len() implies (
                #[trigger] s0.remove(i as int)[l]).topic@ != k by {
                    s0.remove_ensures(i as int);
                }
                lemma_topics_map_insert_at(s0.remove(i as int), i as int, s2[i as int]);
                assert(topics_map(s2) =~= dir_after_release(m0, topic@, id));
                assert(s2 =~= s0.update(i as int, s2[i as int]));
                s0[i as int].handles@.remove_ensures(j as int);
                assert(self.wf());
                lemma_release_bound_preserved(m0, topics_map(s2), topic@);
            }
        }
    }
}

/// Finds the first position of `id` in `handles`.
fn find_id(handles: &Vec<PublisherHandle>, id: u64) -> (j: usize)
    requires
        has_id(handles@, id),
    ensures
        first_match(handles@, id, j as int),
{
    let mut j: usize = 0;
    while j < handles.len()
        invariant
            j <= handles@.len(),
            forall|k: int| 0 <= k < j ==> (#[trigger] handles@[k]).id != id,
        decreases handles@.len() - j,
    {
        if handles[j].id == id {
            return j;
        }
        j = j + 1;
    }
    proof {
        let w = choose|w: int| #![trigger handles@[w]] 0 <= w < handles@.len() && handles@[w].id
            == id;
        assert(false);
    }
    0
}

/// Releasing entries never introduces an id: any bound on the old directory's
/// ids also bounds the new one, whose sequences hold a subset of the entries.
proof fn lemma_release_bound_preserved(
    m0: Map<Seq<char>, Seq<PublisherHandle>>,
    m2: Map<Seq<char>, Seq<PublisherHandle>>,
    topic: Seq<char>,
)
    requires
        forall|k: Seq<char>|
            k != topic && #[trigger] m2.contains_key(k) ==> m0.contains_key(k) && m2[k] == m0[k],
        m2.contains_key(topic) ==> m0.contains_key(topic) && (forall|i: int|
            0 <= i < m2[topic].len() ==> exists|i0: int|
                0 <= i0 < m0[topic].len() && #[trigger] m2[topic][i] == m0[topic][i0]),
    ensures
        forall|b: u64| ids_bounded(m0, b) ==> #[trigger] ids_bounded(m2, b),
{
    assert forall|b: u64| ids_bounded(m0, b) implies #[trigger] ids_bounded(m2, b) by {
        assert forall|k: Seq<char>, i: int|
            m2.contains_key(k) && 0 <= i < m2[k].len() implies (#[trigger] m2[k][i]).id < b by {
            if k == topic {
                let i0 = choose|i0: int|
                    0 <= i0 < m0[topic].len() && #[trigger] m2[topic][i] == m0[topic][i0];
                assert(m0[topic][i0].id < b);
            } else {
                assert(m0[k][i].id < b);
            }
        }
    }
}

} // verus!
