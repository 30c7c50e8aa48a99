//! Laws of the registration lifecycle, proved over the directory model.
//!
//! `dir_after_register` and `dir_after_release` are the exact transitions
//! that `RegistryImpl::register` and `RegistrationImpl::release` promise in
//! their contracts, so everything proved here holds of the executable
//! operations as well.

use vstd::prelude::*;

use crate::directory::{
    dir_after_register, dir_after_release, first_match, has_id, ids_bounded, lemma_remove_id_at,
    PublisherHandle, ResourceLocator,
};

verus! {

/// An id about to be allocated is never one the directory still holds: since
/// every stored id lies below `next_id`, ids are never reused, even after the
/// entries that carried them were removed.
pub proof fn lemma_fresh_id_unused(dir: Map<Seq<char>, Seq<PublisherHandle>>, next_id: u64)
    requires
        ids_bounded(dir, next_id),
    ensures
        forall|k: Seq<char>, i: int|
            #![trigger dir[k][i]]
            dir.contains_key(k) && 0 <= i < dir[k].len() ==> dir[k][i].id != next_id,
{
}

/// Releasing the last remaining registration for a topic deletes the topic
/// key entirely: the directory afterwards holds no entry for that topic.
pub proof fn lemma_release_last_removes_topic(
    dir: Map<Seq<char>, Seq<PublisherHandle>>,
    topic: Seq<char>,
    id: u64,
)
    requires
        dir.contains_key(topic),
        dir[topic].len() == 1,
    ensures
        dir_after_release(dir, topic, id) == dir.remove(topic),
        !dir_after_release(dir, topic, id).contains_key(topic),
{
}

/// Registering a publisher for a topic the directory does not hold yet leaves
/// exactly one entry for that topic: the new one.
pub proof fn lemma_register_into_absent_topic(
    dir: Map<Seq<char>, Seq<PublisherHandle>>,
    topic: Seq<char>,
    locator: ResourceLocator,
    id: u64,
)
    requires
        !dir.contains_key(topic),
    ensures
        ({
            let h = (PublisherHandle { id, locator });
            let d1 = dir_after_register(dir, topic, h);
            &&& d1.contains_key(topic)
            &&& d1[topic] == seq![h]
        }),
{
    let h = (PublisherHandle { id, locator });
    assert(Seq::<PublisherHandle>::empty().push(h) =~= seq![h]);
}

/// Registering two locators for one topic and then releasing the first of the
/// two registrations leaves exactly the second entry for that topic, behind
/// whatever entries the topic already had, all keeping their order.
pub proof fn lemma_release_first_of_two(
    dir: Map<Seq<char>, Seq<PublisherHandle>>,
    topic: Seq<char>,
    first: ResourceLocator,
    second: ResourceLocator,
    id1: u64,
    id2: u64,
)
    requires
        dir.contains_key(topic) ==> !has_id(dir[topic], id1),
        id1 != id2,
    ensures
        ({
            let h1 = (PublisherHandle { id: id1, locator: first });
            let h2 = (PublisherHandle { id: id2, locator: second });
            let prev = if dir.contains_key(topic) {
                dir[topic]
            } else {
                Seq::empty()
            };
            let d2 = dir_after_register(dir_after_register(dir, topic, h1), topic, h2);
            dir_after_release(d2, topic, id1) == dir.insert(topic, prev.push(h2))
        }),
{
    let h1 = (PublisherHandle { id: id1, locator: first });
    let h2 = (PublisherHandle { id: id2, locator: second });
    let prev = if dir.contains_key(topic) {
        dir[topic]
    } else {
        Seq::<PublisherHandle>::empty()
    };
    let s2 = prev.push(h1).push(h2);
    let d2 = dir_after_register(dir_after_register(dir, topic, h1), topic, h2);
    assert(d2[topic] == s2);
    assert(first_match(s2, id1, prev.len() as int)) by {
        assert forall|k: int| 0 <= k < prev.len() implies (#[trigger] s2[k]).id != id1 by {
            assert(s2[k] == prev[k]);
        }
    }
    lemma_remove_id_at(s2, id1, prev.len() as int);
    assert(s2.remove(prev.len() as int) =~= prev.push(h2));
    assert(dir_after_release(d2, topic, id1) =~= dir.insert(topic, prev.push(h2)));
}

/// Two registrations for one topic, made from two separate sessions, released
/// in either order, always converge: the directory returns to its prior
/// state, with no residual entry for the topic.
pub proof fn lemma_interleaved_releases_converge(
    dir: Map<Seq<char>, Seq<PublisherHandle>>,
    topic: Seq<char>,
    first: ResourceLocator,
    second: ResourceLocator,
    id1: u64,
    id2: u64,
)
    requires
        !dir.contains_key(topic),
        id1 != id2,
    ensures
        ({
            let h1 = (PublisherHandle { id: id1, locator: first });
            let h2 = (PublisherHandle { id: id2, locator: second });
            let d2 = dir_after_register(dir_after_register(dir, topic, h1), topic, h2);
            &&& dir_after_release(dir_after_release(d2, topic, id1), topic, id2) == dir
            &&& dir_after_release(dir_after_release(d2, topic, id2), topic, id1) == dir
        }),
{
    let h1 = (PublisherHandle { id: id1, locator: first });
    let h2 = (PublisherHandle { id: id2, locator: second });
    let s2 = Seq::<PublisherHandle>::empty().push(h1).push(h2);
    let d2 = dir_after_register(dir_after_register(dir, topic, h1), topic, h2);
    assert(d2[topic] == s2);

    // first registration released first
    lemma_release_first_of_two(dir, topic, first, second, id1, id2);
    let da = dir_after_release(d2, topic, id1);
    assert(da[topic].len() == 1);
    assert(dir_after_release(da, topic, id2) =~= dir);

    // second registration released first
    assert(first_match(s2, id2, 1));
    lemma_remove_id_at(s2, id2, 1);
    assert(s2.remove(1) =~= seq![h1]);
    let db = dir_after_release(d2, topic, id2);
    assert(db =~= dir.insert(topic, seq![h1]));
    assert(db[topic].len() == 1);
    assert(dir_after_release(db, topic, id1) =~= dir);
}

} // verus!
