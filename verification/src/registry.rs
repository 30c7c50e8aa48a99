//! The registry service and the registration capability.
//!
//! `RegistryImpl::register` validates the topic, allocates a fresh id and
//! appends the entry to the directory; the `RegistrationImpl` it returns is
//! the sole removal path: releasing it removes exactly the entry it stands
//! for, and only on its first release.

use vstd::prelude::*;

use crate::directory::{
    dir_after_register, dir_after_release, has_id, ids_bounded, PublisherHandle, PublisherMap,
    ResourceLocator,
};
use crate::topic::{topic_is_valid, valid_topic};

verus! {

/// The failure of a `register` call whose topic does not have the required
/// path shape. The directory is left untouched and the caller may retry with
/// a corrected topic.
#[derive(Clone, Copy, PartialEq, Eq, Debug)]
pub struct ValidationError;

impl ValidationError {
    /// The description reported to the caller.
    pub fn message(&self) -> (m: &'static str)
        ensures
            m@ == "topic does not exist"@,
    {
        "topic does not exist"
    }
}

/// The capability returned by a successful registration. It stands for
/// exactly one directory entry, `(topic, id)`, and releasing it is the only
/// way that entry is ever removed.
#[derive(PartialEq, Eq, Debug)]
pub struct RegistrationImpl {
    pub id: u64,
    pub topic: String,
    pub released: bool,
}

impl RegistrationImpl {
    /// A handle for the directory entry `(topic, id)`, initially active.
    pub fn new(id: u64, topic: String) -> (r: RegistrationImpl)
        ensures
            r.id == id,
            r.topic == topic,
            !r.released,
    {
        RegistrationImpl { id, topic, released: false }
    }

    /// The entry this handle stands for is present in `dir`. The registry
    /// keeps this true for every active registration; a release that finds it
    /// false would mean the directory was corrupted elsewhere.
    pub open spec fn entry_in(&self, dir: Map<Seq<char>, Seq<PublisherHandle>>) -> bool {
        dir.contains_key(self.topic@) && has_id(dir[self.topic@], self.id)
    }

    /// Release the registration. The first release removes the entry
    /// `(topic, id)` from the directory — deleting the topic key when it held
    /// the last entry — and marks the handle released; any later release
    /// leaves the directory untouched, so a second release can never remove
    /// an unrelated entry.
    pub fn release(&mut self, publishers: &mut PublisherMap)
        requires
            old(publishers).wf(),
            !old(self).released ==> old(self).entry_in(old(publishers)@),
        ensures
            final(self).id == old(self).id,
            final(self).topic == old(self).topic,
            final(self).released,
            final(publishers).wf(),
            old(self).released ==> *final(publishers) == *old(publishers),
            !old(self).released ==> final(publishers)@ == dir_after_release(
                old(publishers)@,
                old(self).topic@,
                old(self).id,
            ),
            forall|b: u64|
                ids_bounded(old(publishers)@, b) ==> #[trigger] ids_bounded(final(publishers)@, b),
    {
        if self.released {
            return ;
        }
        publishers.remove_handle(&self.topic, self.id);
        self.released = true;
    }
}

/// The rendezvous service: owns the publisher directory and allocates the
/// strictly increasing entry ids.
pub struct RegistryImpl {
    pub next_id: u64,
    pub publishers: PublisherMap,
}

impl RegistryImpl {
    /// Well-formed: the directory keeps its invariant and every id it stores
    /// was allocated before `next_id` — so a fresh id never collides with a
    /// live entry.
    pub open spec fn wf(&self) -> bool {
        &&& self.publishers.wf()
        &&& ids_bounded(self.publishers@, self.next_id)
    }

    /// A fresh registry: an empty directory and ids starting at 0.
    pub fn new() -> (r: RegistryImpl)
        ensures
            r.wf(),
            r.next_id == 0,
            r.publishers@ == Map::<Seq<char>, Seq<PublisherHandle>>::empty(),
    {
        RegistryImpl { next_id: 0, publishers: PublisherMap::new() }
    }

    /// Register `locator` as a publisher for `topic`.
    ///
    /// With a well-shaped topic the call returns an active registration
    /// carrying the freshly allocated id, the new entry is appended to the
    /// topic's sequence (the key is created when absent), and `next_id` moves
    /// up by one — successive calls therefore hand out strictly increasing
    /// ids. With any other topic the call fails with a validation error and
    /// nothing changes.
    pub fn register(&mut self, topic: &str, locator: ResourceLocator) -> (r: Result<
        RegistrationImpl,
        ValidationError,
    >)
        requires
            old(self).wf(),
            old(self).next_id < u64::MAX,
        ensures
            final(self).wf(),
            valid_topic(topic@) ==> (r matches Ok(reg) && {
                &&& reg.id == old(self).next_id
                &&& reg.topic@ == topic@
                &&& !reg.released
                &&& reg.entry_in(final(self).publishers@)
                &&& final(self).next_id == old(self).next_id + 1
                &&& final(self).publishers@ == dir_after_register(
                    old(self).publishers@,
                    topic@,
                    (PublisherHandle { id: old(self).next_id, locator }),
                )
            }),
            !valid_topic(topic@) ==> (r matches Err(_) && *final(self) == *old(self)),
    {
        if !topic_is_valid(topic) {
            return Err(ValidationError);
        }
        let ghost m0 = self.publishers@;
        let id = self.next_id;
        let handle = PublisherHandle { id, locator };
        self.publishers.insert_handle(topic, handle);
        self.next_id = id + 1;
        let reg = RegistrationImpl::new(id, topic.to_owned());
        proof {
            let m2 = self.publishers@;
            let ghost prev = if m0.contains_key(topic@) {
                m0[topic@]
            } else {
                Seq::empty()
            };
            // the new entry stands at the end of its topic's sequence
            assert(m2[topic@] == prev.push(handle));
            assert(m2[topic@][m2[topic@].len() - 1].id == id);
            // every id in the new directory lies below the new `next_id`
            assert forall|k: Seq<char>, i: int|
                m2.contains_key(k) && 0 <= i < m2[k].len() implies (#[trigger] m2[k][i]).id
                < id + 1 by {
                if k == topic@ {
                    if i < m2[k].len() - 1 {
                        assert(m2[k][i] == m0[k][i]);
                        assert(m0[k][i].id < id);
                    }
                } else {
                    assert(m2[k] == m0[k]);
                    assert(m0[k][i].id < id);
                }
            }
        }
        Ok(reg)
    }
}

} // verus!
