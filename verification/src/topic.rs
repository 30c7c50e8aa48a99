//! Topic name validation.
//!
//! A topic names a pub/sub channel with a filesystem-path-like string such as
//! `/metrics/cpu`. A string is accepted when it ends in one or more
//! `/`-prefixed segments, each a non-empty run of word characters and dots;
//! the pattern is anchored at the end of the string only.

use vstd::prelude::*;
use vstd::string::StrSliceExecFns;

verus! {

/// A character that may stand inside a topic segment: a word character
/// (letter, digit or underscore) or a literal dot.
pub open spec fn is_segment_char(c: char) -> bool {
    let u = c as u32;
    ||| u == ('.' as u32)
    ||| u == ('_' as u32)
    ||| ('0' as u32) <= u && u <= ('9' as u32)
    ||| ('A' as u32) <= u && u <= ('Z' as u32)
    ||| ('a' as u32) <= u && u <= ('z' as u32)
}

/// A valid topic ends in `/seg(/seg)*`: some `/` is followed by segment
/// characters only, at least one of them.
pub open spec fn valid_topic(t: Seq<char>) -> bool {
    exists|i: int|
        #![trigger t[i]]
        0 <= i < t.len() - 1 && t[i] == '/' && (forall|j: int|
            i < j < t.len() ==> is_segment_char(#[trigger] t[j]))
}

fn seg_char(c: char) -> (b: bool)
    ensures
        b == is_segment_char(c),
{
    let u = c as u32;
    u == ('.' as u32) || u == ('_' as u32) || (('0' as u32) <= u && u <= ('9' as u32)) || (('A'
        as u32) <= u && u <= ('Z' as u32)) || (('a' as u32) <= u && u <= ('z' as u32))
}

proof fn lemma_slash_not_segment_char()
    ensures
        !is_segment_char('/'),
{
}

/// Decide whether `topic` has the required path shape: the witness, when
/// there is one, is the last `/` of the string, and everything after it must
/// be segment characters, at least one of them.
pub fn topic_is_valid(topic: &str) -> (r: bool)
    ensures
        r == valid_topic(topic@),
{
    let n = topic.unicode_len();
    let mut k: usize = n;
    while k > 0 && seg_char(topic.get_char(k - 1))
        invariant
            k <= n,
            n == topic@.len(),
            forall|j: int| k <= j < n ==> is_segment_char(#[trigger] topic@[j]),
        decreases k,
    {
        k = k - 1;
    }
    proof {
        lemma_slash_not_segment_char();
    }
    if k == 0 {
        // every character is a segment character, so no `/` stands anywhere
        assert(!valid_topic(topic@)) by {
            if valid_topic(topic@) {
                let i = choose|i: int|
                    #![trigger topic@[i]]
                    0 <= i < topic@.len() - 1 && topic@[i] == '/' && (forall|j: int|
                        i < j < topic@.len() ==> is_segment_char(#[trigger] topic@[j]));
                assert(is_segment_char(topic@[i]));
            }
        }
        false
    } else if k == n {
        // the last character is no segment character, so no segment can end
        // the string
        assert(!valid_topic(topic@)) by {
            if valid_topic(topic@) {
                let i = choose|i: int|
                    #![trigger topic@[i]]
                    0 <= i < topic@.len() - 1 && topic@[i] == '/' && (forall|j: int|
                        i < j < topic@.len() ==> is_segment_char(#[trigger] topic@[j]));
                assert(is_segment_char(topic@[n - 1]));
            }
        }
        false
    } else {
        let c = topic.get_char(k - 1);
        if c == '/' {
            // witness: the `/` just before the trailing run of segment
            // characters
            assert(valid_topic(topic@)) by {
                assert(0 <= k - 1 < topic@.len() - 1 && topic@[k - 1] == '/' && (forall|j: int|
                    k - 1 < j < topic@.len() ==> is_segment_char(#[trigger] topic@[j])));
            }
            true
        } else {
            // the character before the trailing segment run is no `/`, and
            // any witness would have to stand exactly there
            assert(!valid_topic(topic@)) by {
                if valid_topic(topic@) {
                    let i = choose|i: int|
                        #![trigger topic@[i]]
                        0 <= i < topic@.len() - 1 && topic@[i] == '/' && (forall|j: int|
                            i < j < topic@.len() ==> is_segment_char(#[trigger] topic@[j]));
                    assert(!is_segment_char(topic@[i]));
                    if i < k - 1 {
                        assert(is_segment_char(topic@[k - 1]));
                    }
                }
            }
            false
        }
    }
}

} // verus!
