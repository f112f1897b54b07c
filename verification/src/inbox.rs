//! Which of the messages that a poll brings are requests to answer, and how long to wait between
//! polls.
//!
//! A node hands out a message again until it has expired, so the host remembers the reply tokens
//! that it has dealt with.
use std::collections::HashSet;

use vstd::prelude::*;
use vstd::string::*;

use crate::text::same;
use crate::wire::DRIVE_TOPIC;

verus! {

/// How many reply tokens are remembered from one poll to the next.
pub const MAX_SEEN: usize = 4096;

/// The least wait between polls, in milliseconds.
pub const MIN_WAIT_MS: u64 = 50;

/// The reply tokens that have been dealt with.
#[derive(Debug)]
pub struct Inbox {
    seen: HashSet<u64>,
}

impl View for Inbox {
    type V = Set<u64>;

    closed spec fn view(&self) -> Set<u64> {
        self.seen@
    }
}

/// Whether a message is a request to answer: it wants a reply, it came on the topic of drives, and
/// its token has not been dealt with.
pub open spec fn is_new(seen: Set<u64>, token: Option<u64>, topic: Seq<char>) -> bool {
    token is Some && topic == DRIVE_TOPIC@ && !seen.contains(token->0)
}

/// The tokens that are still remembered at the end of a poll.
pub open spec fn kept(seen: Set<u64>) -> Set<u64> {
    if seen.len() > MAX_SEEN {
        Set::empty()
    } else {
        seen
    }
}

/// The wait before the next poll, in milliseconds, when `poll_ms` is asked for.
pub open spec fn wait_for(poll_ms: u64) -> u64 {
    if poll_ms < MIN_WAIT_MS {
        MIN_WAIT_MS
    } else {
        poll_ms
    }
}

impl Inbox {
    /// Nothing has been dealt with.
    pub fn new() -> (r: Self)
        ensures
            r@ == Set::<u64>::empty(),
    {
        Inbox { seen: HashSet::new() }
    }

    /// The token to reply to, if the message is a request to answer. It counts as dealt with from
    /// then on.
    pub fn accept(&mut self, token: Option<u64>, topic: &str) -> (r: Option<u64>)
        ensures
            r == (if is_new(old(self)@, token, topic@) {
                token
            } else {
                None::<u64>
            }),
            final(self)@ == (if is_new(old(self)@, token, topic@) {
                old(self)@.insert(token->0)
            } else {
                old(self)@
            }),
    {
        broadcast use vstd::std_specs::hash::group_hash_axioms;

        let token: u64 = match token {
            None => {
                return None;
            },
            Some(t) => t,
        };
        if !same(topic, DRIVE_TOPIC) {
            return None;
        }
        let new = self.seen.insert(token);
        if new {
            Some(token)
        } else {
            assert(old(self)@.insert(token) =~= old(self)@);
            None
        }
    }

    /// Bound what is remembered, at the end of a poll: more tokens than that are all forgotten.
    pub fn settle(&mut self)
        ensures
            final(self)@ == kept(old(self)@),
            final(self)@ == (if old(self)@.len() > MAX_SEEN {
                Set::<u64>::empty()
            } else {
                old(self)@
            }),
    {
        broadcast use vstd::std_specs::hash::group_hash_axioms;

        if self.seen.len() > MAX_SEEN {
            self.seen.clear();
        }
    }
}

/// How long to wait before the next poll, in milliseconds, when `poll_ms` is asked for.
pub fn poll_wait(poll_ms: u64) -> (r: u64)
    ensures
        r == wait_for(poll_ms),
        r == (if poll_ms < MIN_WAIT_MS {
            MIN_WAIT_MS
        } else {
            poll_ms
        }),
{
    if poll_ms < MIN_WAIT_MS {
        MIN_WAIT_MS
    } else {
        poll_ms
    }
}

/// A message: the token to reply to, if it wants a reply, and its topic.
pub type Arrival = (Option<u64>, Seq<char>);

/// The tokens that are replied to when messages arrive one after another.
pub open spec fn replied(seen: Set<u64>, messages: Seq<Arrival>) -> Seq<u64>
    decreases messages.len(),
{
    if messages.len() == 0 {
        Seq::empty()
    } else {
        let (token, topic) = messages[0];
        if is_new(seen, token, topic) {
            seq![token->0] + replied(seen.insert(token->0), messages.drop_first())
        } else {
            replied(seen, messages.drop_first())
        }
    }
}

/// Between two times that tokens are forgotten, no token is replied to twice, and none that has
/// been dealt with before.
pub proof fn law_each_token_is_replied_to_once(seen: Set<u64>, messages: Seq<Arrival>)
    ensures
        replied(seen, messages).no_duplicates(),
        forall|i: int|
            0 <= i < replied(seen, messages).len() ==> !seen.contains(
                #[trigger] replied(seen, messages)[i],
            ),
    decreases messages.len(),
{
    if messages.len() > 0 {
        let (token, topic) = messages[0];
        let rest = messages.drop_first();
        if is_new(seen, token, topic) {
            let t = token->0;
            law_each_token_is_replied_to_once(seen.insert(t), rest);
            let tail = replied(seen.insert(t), rest);
            let all = replied(seen, messages);
            assert forall|i: int| 0 <= i < all.len() implies !seen.contains(#[trigger] all[i]) by {
                if i > 0 {
                    assert(all[i] == tail[i - 1]);
                }
            }
            assert forall|i: int, j: int| 0 <= i < j < all.len() implies all[i] != all[j] by {
                assert(all[j] == tail[j - 1]);
                if i > 0 {
                    assert(all[i] == tail[i - 1]);
                }
            }
        } else {
            law_each_token_is_replied_to_once(seen, rest);
        }
    }
}

/// Every request that has not been dealt with is replied to.
pub proof fn law_no_request_is_passed_over(seen: Set<u64>, messages: Seq<Arrival>, i: int)
    requires
        0 <= i < messages.len(),
        is_new(seen, messages[i].0, messages[i].1),
    ensures
        replied(seen, messages).contains(messages[i].0->0),
    decreases messages.len(),
{
    let (token, topic) = messages[0];
    let rest = messages.drop_first();
    let t = messages[i].0->0;
    let all = replied(seen, messages);
    if i == 0 {
        assert(all[0] == t);
    } else if is_new(seen, token, topic) {
        if token->0 == t {
            assert(all[0] == t);
        } else {
            let tail = replied(seen.insert(token->0), rest);
            assert(rest[i - 1] == messages[i]);
            law_no_request_is_passed_over(seen.insert(token->0), rest, i - 1);
            let k = choose|k: int| 0 <= k < tail.len() && tail[k] == t;
            assert(all[k + 1] == t);
        }
    } else {
        assert(rest[i - 1] == messages[i]);
        law_no_request_is_passed_over(seen, rest, i - 1);
    }
}

/// What is replied to when messages arrive: exactly the tokens of those that came on the topic of drives
/// and whose token had not been dealt with.
pub proof fn law_what_is_replied_to(seen: Set<u64>, messages: Seq<Arrival>, t: u64)
    ensures
        replied(seen, messages).contains(t) <==> !seen.contains(t) && exists|i: int|
            0 <= i < messages.len() && (#[trigger] messages[i]).0 == Some(t) && messages[i].1
                == "ce-drive/v1"@,
    decreases messages.len(),
{
    let all = replied(seen, messages);
    law_each_token_is_replied_to_once(seen, messages);
    if messages.len() > 0 {
        let (token, topic) = messages[0];
        let rest = messages.drop_first();
        let then = if is_new(seen, token, topic) { seen.insert(token->0) } else { seen };
        let tail = replied(then, rest);
        law_what_is_replied_to(then, rest, t);
        if all.contains(t) {
            let k = choose|k: int| 0 <= k < all.len() && all[k] == t;
            if is_new(seen, token, topic) && k == 0 {
                assert(messages[0].0 == Some(t) && messages[0].1 == "ce-drive/v1"@);
            } else {
                let m = if is_new(seen, token, topic) { k - 1 } else { k };
                assert(tail[m] == t);
                assert(tail.contains(t));
                let i = choose|i: int|
                    0 <= i < rest.len() && (#[trigger] rest[i]).0 == Some(t) && rest[i].1
                        == "ce-drive/v1"@;
                assert(messages[i + 1] == rest[i]);
            }
        }
        if !seen.contains(t) && exists|i: int|
            0 <= i < messages.len() && (#[trigger] messages[i]).0 == Some(t) && messages[i].1
                == "ce-drive/v1"@ {
            let i = choose|i: int|
                0 <= i < messages.len() && (#[trigger] messages[i]).0 == Some(t) && messages[i].1
                    == "ce-drive/v1"@;
            assert(is_new(seen, messages[i].0, messages[i].1));
            law_no_request_is_passed_over(seen, messages, i);
        }
    }
}

/// A message is a request to answer exactly if it wants a reply, came on the topic of drives, and has a
/// token that has not been dealt with.
pub proof fn law_what_is_a_new_request(seen: Set<u64>, token: Option<u64>, topic: Seq<char>)
    ensures
        is_new(seen, token, topic) <==> topic == "ce-drive/v1"@ && (token matches Some(t)
            && !seen.contains(t)),
{
}

/// All tokens are remembered until there are more than 4096, and then none.
pub proof fn law_memory_of_tokens_is_bounded(seen: Set<u64>)
    ensures
        seen.len() <= 4096 ==> kept(seen) == seen,
        seen.len() > 4096 ==> kept(seen) == Set::<u64>::empty(),
{
}

/// A host waits as long as is asked for, but not less than 50 milliseconds.
pub proof fn law_wait_is_what_is_asked_or_the_least(poll_ms: u64)
    ensures
        wait_for(poll_ms) >= 50,
        wait_for(poll_ms) >= poll_ms,
        wait_for(poll_ms) == 50 || wait_for(poll_ms) == poll_ms,
{
}

} // verus!
