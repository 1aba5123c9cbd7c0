//! Verified model of the session registry: the map from principal to the
//! sink of its live session, and the routing of payloads to sinks.
//!
//! A sink is named by an opaque handle; the chassis owns the actual
//! channel.  The registry holds at most one sink per principal: a new
//! connection replaces the old one.

use vstd::prelude::*;

use crate::wire::encode_private_frame;
use crate::wire::private_frame_json;

verus! {

/// A session coming up: `addr` is the handle of its sink.
pub struct Connect {
    pub user_id: String,
    pub addr: u64,
}

/// An envelope payload to route to `to`'s live session, if any.
pub struct DeliverMessage {
    pub to: String,
    pub payload: String,
    pub id: String,
}

/// A session going away: `addr` is the handle of the sink it registered,
/// so that a stale session cannot unregister a newer one.
pub struct Disconnect {
    pub user_id: String,
    pub addr: u64,
}

/// An in-session private message from one principal to another.
pub struct PrivateMessage {
    pub from: String,
    pub to: String,
    pub content: String,
}

/// A text frame on its way out through one session, with the message id
/// the delivery receipt will name.
pub struct ServerMessage {
    pub payload: String,
    pub id: String,
}

/// True when `users` holds a session for `u`.
pub open spec fn has_session(users: Seq<(String, u64)>, u: Seq<char>) -> bool {
    exists|i: int| 0 <= i < users.len() && users[i].0@ == u
}

/// At most one session per principal.
pub open spec fn sessions_unique(users: Seq<(String, u64)>) -> bool {
    forall|i: int, j: int| 0 <= i < j < users.len() ==> users[i].0@ != users[j].0@
}

/// The sink registered for `u`, if any.
pub open spec fn sink_for(users: Seq<(String, u64)>, u: Seq<char>) -> Option<u64>
    decreases users.len(),
{
    if users.len() == 0 {
        None
    } else if users[0].0@ == u {
        Some(users[0].1)
    } else {
        sink_for(users.skip(1), u)
    }
}

proof fn lemma_sink_for_absent(users: Seq<(String, u64)>, u: Seq<char>)
    requires
        !has_session(users, u),
    ensures
        sink_for(users, u) is None,
    decreases users.len(),
{
    if users.len() > 0 {
        assert(!has_session(users.skip(1), u)) by {
            if has_session(users.skip(1), u) {
                let i = choose|i: int| 0 <= i < users.skip(1).len() && users.skip(1)[i].0@ == u;
                assert(users[i + 1].0@ == u);
            }
        }
        lemma_sink_for_absent(users.skip(1), u);
    }
}

proof fn lemma_sink_for_at(users: Seq<(String, u64)>, u: Seq<char>, i: int)
    requires
        0 <= i < users.len(),
        users[i].0@ == u,
        forall|j: int| 0 <= j < i ==> users[j].0@ != u,
    ensures
        sink_for(users, u) == Some(users[i].1),
    decreases i,
{
    if i > 0 {
        assert(users.skip(1)[i - 1] == users[i]);
        assert(forall|j: int| 0 <= j < i - 1 ==> (#[trigger] users.skip(1)[j]).0@ != u);
        lemma_sink_for_at(users.skip(1), u, i - 1);
    }
}

proof fn lemma_sink_for_remove(users: Seq<(String, u64)>, i: int, u: Seq<char>)
    requires
        0 <= i < users.len(),
        u != users[i].0@,
    ensures
        sink_for(users.remove(i), u) == sink_for(users, u),
    decreases users.len(),
{
    if i == 0 {
        assert(users.remove(0) =~= users.skip(1));
    } else {
        assert(users.remove(i)[0] == users[0]);
        assert(users.remove(i).skip(1) =~= users.skip(1).remove(i - 1));
        assert(users.skip(1)[i - 1] == users[i]);
        lemma_sink_for_remove(users.skip(1), i - 1, u);
    }
}

proof fn lemma_sink_for_push(users: Seq<(String, u64)>, e: (String, u64), u: Seq<char>)
    ensures
        sink_for(users.push(e), u) == if has_session(users, u) {
            sink_for(users, u)
        } else if e.0@ == u {
            Some(e.1)
        } else {
            None
        },
    decreases users.len(),
{
    if users.len() == 0 {
        assert(users.push(e)[0] == e);
        assert(users.push(e).skip(1) =~= Seq::<(String, u64)>::empty());
        assert(sink_for(Seq::<(String, u64)>::empty(), u) is None);
    } else {
        assert(users.push(e)[0] == users[0]);
        assert(users.push(e).skip(1) =~= users.skip(1).push(e));
        lemma_sink_for_push(users.skip(1), e, u);
        if users[0].0@ == u {
        } else {
            assert(has_session(users, u) <==> has_session(users.skip(1), u)) by {
                if has_session(users, u) {
                    let i = choose|i: int| 0 <= i < users.len() && users[i].0@ == u;
                    assert(users.skip(1)[i - 1].0@ == u);
                }
                if has_session(users.skip(1), u) {
                    let i = choose|i: int| 0 <= i < users.skip(1).len() && users.skip(1)[i].0@ == u;
                    assert(users[i + 1].0@ == u);
                }
            }
        }
    }
}

/// The session registry.
pub struct ChatServer {
    users: Vec<(String, u64)>,
}

impl ChatServer {
    pub closed spec fn users(self) -> Seq<(String, u64)> {
        self.users@
    }

    /// Well-formed: at most one session per principal.
    pub open spec fn wf(self) -> bool {
        sessions_unique(self.users())
    }

    pub fn new() -> (r: ChatServer)
        ensures
            r.wf(),
            r.users() == Seq::<(String, u64)>::empty(),
    {
        ChatServer { users: Vec::new() }
    }

    fn find(&self, user: &String) -> (r: Option<usize>)
        ensures
            match r {
                Some(i) => i < self.users().len() && self.users()[i as int].0@ == user@ && (forall|
                    j: int,
                |
                    0 <= j < i ==> self.users()[j].0@ != user@),
                None => !has_session(self.users(), user@),
            },
    {
        let n = self.users.len();
        for i in 0..n
            invariant
                n == self.users.len(),
                forall|j: int| 0 <= j < i ==> self.users@[j].0@ != user@,
        {
            if self.users[i].0.eq(user) {
                return Some(i);
            }
        }
        None
    }

    /// The sink registered for `user`, if any.
    pub fn sink_of(&self, user: &String) -> (r: Option<u64>)
        requires
            self.wf(),
        ensures
            r == sink_for(self.users(), user@),
    {
        match self.find(user) {
            Some(i) => {
                proof {
                    lemma_sink_for_at(self.users@, user@, i as int);
                }
                Some(self.users[i].1)
            },
            None => {
                proof {
                    lemma_sink_for_absent(self.users@, user@);
                }
                None
            },
        }
    }

    /// Register a session, replacing any prior sink for the principal.
    pub fn handle_connect(&mut self, msg: Connect)
        requires
            old(self).wf(),
        ensures
            final(self).wf(),
            sink_for(final(self).users(), msg.user_id@) == Some(msg.addr),
            forall|u: Seq<char>|
                u != msg.user_id@ ==> #[trigger] sink_for(final(self).users(), u) == sink_for(
                    old(self).users(),
                    u,
                ),
    {
        let ghost pre = self.users@;
        match self.find(&msg.user_id) {
            Some(i) => {
                self.users.remove(i);
                proof {
                    assert forall|a: int, b: int|
                        0 <= a < b < self.users@.len() implies self.users@[a].0@
                        != self.users@[b].0@ by {
                        assert(self.users@[a] == if a < i {
                            pre[a]
                        } else {
                            pre[a + 1]
                        });
                        assert(self.users@[b] == if b < i {
                            pre[b]
                        } else {
                            pre[b + 1]
                        });
                    }
                    assert(!has_session(self.users@, msg.user_id@)) by {
                        if has_session(self.users@, msg.user_id@) {
                            let k = choose|k: int|
                                0 <= k < self.users@.len() && self.users@[k].0@ == msg.user_id@;
                            assert(self.users@[k] == if k < i {
                                pre[k]
                            } else {
                                pre[k + 1]
                            });
                        }
                    }
                    assert forall|u: Seq<char>| u != msg.user_id@ implies #[trigger] sink_for(
                        self.users@,
                        u,
                    ) == sink_for(pre, u) by {
                        lemma_sink_for_remove(pre, i as int, u);
                    }
                }
            },
            None => {
            },
        }
        let ghost mid = self.users@;
        self.users.push((msg.user_id, msg.addr));
        proof {
            assert(self.users@.last().0@ == msg.user_id@);
            assert forall|a: int, b: int|
                0 <= a < b < self.users@.len() implies self.users@[a].0@ != self.users@[b].0@ by {
                if b < mid.len() {
                    assert(self.users@[a] == mid[a] && self.users@[b] == mid[b]);
                } else {
                    assert(self.users@[a] == mid[a]);
                }
            }
            lemma_sink_for_push(mid, self.users@.last(), msg.user_id@);
            lemma_sink_for_absent(mid, msg.user_id@);
            assert forall|u: Seq<char>| u != msg.user_id@ implies #[trigger] sink_for(
                self.users@,
                u,
            ) == sink_for(pre, u) by {
                lemma_sink_for_push(mid, self.users@.last(), u);
                if !has_session(mid, u) {
                    lemma_sink_for_absent(mid, u);
                }
            }
        }
    }

    /// Remove the principal's session by compare-and-delete: the entry
    /// goes only when the registered sink is the caller's own, so a stale
    /// session racing a reconnect cannot unregister the fresh sink.  A
    /// repeated disconnect finds no matching sink and is a no-op.
    pub fn handle_disconnect(&mut self, msg: Disconnect)
        requires
            old(self).wf(),
        ensures
            final(self).wf(),
            sink_for(old(self).users(), msg.user_id@) == Some(msg.addr) ==> sink_for(
                final(self).users(),
                msg.user_id@,
            ) is None,
            sink_for(old(self).users(), msg.user_id@) != Some(msg.addr) ==> *final(self) == *old(
                self,
            ),
            forall|u: Seq<char>|
                u != msg.user_id@ ==> #[trigger] sink_for(final(self).users(), u) == sink_for(
                    old(self).users(),
                    u,
                ),
    {
        let ghost pre = self.users@;
        match self.find(&msg.user_id) {
            Some(i) => {
                proof {
                    lemma_sink_for_at(pre, msg.user_id@, i as int);
                }
                if self.users[i].1 == msg.addr {
                    self.users.remove(i);
                    proof {
                        assert forall|a: int, b: int|
                            0 <= a < b < self.users@.len() implies self.users@[a].0@
                            != self.users@[b].0@ by {
                            assert(self.users@[a] == if a < i {
                                pre[a]
                            } else {
                                pre[a + 1]
                            });
                            assert(self.users@[b] == if b < i {
                                pre[b]
                            } else {
                                pre[b + 1]
                            });
                        }
                        assert(!has_session(self.users@, msg.user_id@)) by {
                            if has_session(self.users@, msg.user_id@) {
                                let k = choose|k: int|
                                    0 <= k < self.users@.len() && self.users@[k].0@
                                        == msg.user_id@;
                                assert(self.users@[k] == if k < i {
                                    pre[k]
                                } else {
                                    pre[k + 1]
                                });
                            }
                        }
                        lemma_sink_for_absent(self.users@, msg.user_id@);
                        assert forall|u: Seq<char>| u != msg.user_id@ implies #[trigger] sink_for(
                            self.users@,
                            u,
                        ) == sink_for(pre, u) by {
                            lemma_sink_for_remove(pre, i as int, u);
                        }
                    }
                }
            },
            None => {
                proof {
                    lemma_sink_for_absent(pre, msg.user_id@);
                }
            },
        }
    }

    /// Route an envelope payload: the frame for `to`'s sink, or nothing
    /// when the recipient is offline (it reconciles on its next fetch).
    pub fn handle_deliver(&self, msg: DeliverMessage) -> (r: Option<(u64, ServerMessage)>)
        requires
            self.wf(),
        ensures
            match r {
                Some((sink, sm)) => sink_for(self.users(), msg.to@) == Some(sink) && sm.payload
                    == msg.payload && sm.id@ == msg.id@,
                None => sink_for(self.users(), msg.to@) is None,
            },
    {
        match self.find(&msg.to) {
            Some(i) => {
                proof {
                    lemma_sink_for_at(self.users@, msg.to@, i as int);
                }
                let sink = self.users[i].1;
                Some((sink, ServerMessage { payload: msg.payload, id: msg.id }))
            },
            None => {
                proof {
                    lemma_sink_for_absent(self.users@, msg.to@);
                }
                None
            },
        }
    }

    /// Route a private message: a `{"from":…,"content":…}` frame for
    /// `to`'s sink, or nothing when the recipient is offline.  `id` names
    /// the frame for receipt purposes.
    pub fn handle_private(&self, msg: PrivateMessage, id: String) -> (r: Option<(
        u64,
        ServerMessage,
    )>)
        requires
            self.wf(),
        ensures
            match r {
                Some((sink, sm)) => sink_for(self.users(), msg.to@) == Some(sink) && sm.payload@
                    == private_frame_json(msg.from@, msg.content@) && sm.id@ == id@,
                None => sink_for(self.users(), msg.to@) is None,
            },
    {
        match self.find(&msg.to) {
            Some(i) => {
                proof {
                    lemma_sink_for_at(self.users@, msg.to@, i as int);
                }
                let sink = self.users[i].1;
                let payload = encode_private_frame(&msg.from, &msg.content);
                Some((sink, ServerMessage { payload, id }))
            },
            None => {
                proof {
                    lemma_sink_for_absent(self.users@, msg.to@);
                }
                None
            },
        }
    }
}

/// Session uniqueness: a well-formed registry points each principal to at
/// most one sink — two entries for the same principal are the same entry.
pub proof fn lemma_session_uniqueness(s: ChatServer, u: Seq<char>, i: int, j: int)
    requires
        s.wf(),
        0 <= i < s.users().len(),
        0 <= j < s.users().len(),
        s.users()[i].0@ == u,
        s.users()[j].0@ == u,
    ensures
        i == j,
        sink_for(s.users(), u) == Some(s.users()[i].1),
{
    if i < j || j < i {
        assert(false);
    }
    assert(forall|k: int| 0 <= k < i ==> s.users()[k].0@ != u);
    lemma_sink_for_at(s.users(), u, i);
}

} // verus!
