//! The registry of connected clients.
use vstd::prelude::*;
use vstd::string::*;
use crate::topic_tree::str_equal;

verus! {

/// A connected client: where it connects from and as whom.
pub struct ClientInfo {
    pub id: String,
    pub host: String,
    pub user: String,
}

/// Maps each connected client's id to its host and user.
pub struct ClientManager {
    clients: Vec<ClientInfo>,
    model: Ghost<Map<Seq<char>, (Seq<char>, Seq<char>)>>,
}

impl View for ClientManager {
    type V = Map<Seq<char>, (Seq<char>, Seq<char>)>;

    closed spec fn view(&self) -> Self::V {
        self.model@
    }
}

impl ClientManager {
    spec fn entry(&self, i: int) -> (Seq<char>, (Seq<char>, Seq<char>)) {
        (self.clients@[i].id@, (self.clients@[i].host@, self.clients@[i].user@))
    }

    pub closed spec fn wf(&self) -> bool {
        &&& forall|i: int|
            0 <= i < self.clients.len() ==> #[trigger] self.model@.contains_key(self.clients@[i].id@)
                && self.model@[self.clients@[i].id@] == self.entry(i).1
        &&& forall|i: int, j: int|
            0 <= i < self.clients.len() && 0 <= j < self.clients.len() && i != j
                ==> #[trigger] self.clients@[i].id@ != #[trigger] self.clients@[j].id@
        &&& forall|k: Seq<char>|
            #[trigger] self.model@.contains_key(k) ==> exists|i: int|
                0 <= i < self.clients.len() && self.clients@[i].id@ == k
    }

    pub fn new() -> (r: ClientManager)
        ensures
            r.wf(),
            r@ == Map::<Seq<char>, (Seq<char>, Seq<char>)>::empty(),
    {
        ClientManager { clients: Vec::new(), model: Ghost(Map::empty()) }
    }

    fn find(&self, id: &str) -> (r: Option<usize>)
        requires
            self.wf(),
        ensures
            r matches Some(i) ==> i < self.clients.len() && self.clients@[i as int].id@ == id@,
            r is None <==> !self@.contains_key(id@),
    {
        let mut i: usize = 0;
        while i < self.clients.len()
            invariant
                self.wf(),
                i <= self.clients.len(),
                forall|j: int| 0 <= j < i ==> self.clients@[j].id@ != id@,
            decreases self.clients.len() - i,
        {
            if str_equal(self.clients[i].id.as_str(), id) {
                assert(self.model@.contains_key(self.clients@[i as int].id@));
                return Some(i);
            }
            i = i + 1;
        }
        proof {
            if self@.contains_key(id@) {
                let j = choose|j: int| 0 <= j < self.clients.len() && self.clients@[j].id@ == id@;
            }
        }
        None
    }

    /// Registers a client, replacing any client with the same id.
    pub fn handle_connect(&mut self, client_id: &str, host: String, user: String)
        requires
            old(self).wf(),
        ensures
            final(self).wf(),
            final(self)@ == old(self)@.insert(client_id@, (host@, user@)),
    {
        self.remove(client_id);
        let ghost mid = *self;
        let info = ClientInfo { id: client_id.to_owned(), host, user };
        self.clients.push(info);
        self.model = Ghost(self.model@.insert(client_id@, (host@, user@)));
        let n = self.clients.len() - 1;
        proof {
            assert forall|i: int| 0 <= i < self.clients.len() implies #[trigger] self.model@.contains_key(
                self.clients@[i].id@,
            ) && self.model@[self.clients@[i].id@] == self.entry(i).1 by {
                if i < n {
                    assert(mid.clients@[i] == self.clients@[i]);
                    assert(mid.model@.contains_key(mid.clients@[i].id@));
                }
            }
            assert forall|i: int, j: int|
                0 <= i < self.clients.len() && 0 <= j < self.clients.len() && i != j
                implies #[trigger] self.clients@[i].id@ != #[trigger] self.clients@[j].id@ by {
                if i < n && j < n {
                    assert(mid.clients@[i].id@ != mid.clients@[j].id@);
                } else if i < n {
                    assert(mid.model@.contains_key(mid.clients@[i].id@));
                } else if j < n {
                    assert(mid.model@.contains_key(mid.clients@[j].id@));
                }
            }
            assert forall|k: Seq<char>| #[trigger] self.model@.contains_key(k) implies exists|i: int|
                0 <= i < self.clients.len() && self.clients@[i].id@ == k by {
                if k == client_id@ {
                    assert(self.clients@[n as int].id@ == k);
                } else {
                    assert(mid.model@.contains_key(k));
                    let i = choose|i: int| 0 <= i < mid.clients.len() && mid.clients@[i].id@ == k;
                    assert(self.clients@[i].id@ == k);
                }
            }
        }
        assert(self.model@ =~= old(self)@.insert(client_id@, (host@, user@)));
    }

    /// Forgets a client.
    pub fn remove(&mut self, client_id: &str)
        requires
            old(self).wf(),
        ensures
            final(self).wf(),
            final(self)@ == old(self)@.remove(client_id@),
    {
        match self.find(client_id) {
            None => {
                assert(self.model@ =~= old(self)@.remove(client_id@));
            },
            Some(i) => {
                let ghost old_clients = self.clients@;
                self.clients.remove(i);
                self.model = Ghost(self.model@.remove(client_id@));
                proof {
                    assert forall|j: int| 0 <= j < self.clients.len() implies #[trigger] self.model@.contains_key(
                        self.clients@[j].id@,
                    ) && self.model@[self.clients@[j].id@] == self.entry(j).1 by {
                        let oj = if j < i { j } else { j + 1 };
                        assert(self.clients@[j] == old_clients[oj]);
                        assert(old(self).clients@[oj] == old_clients[oj]);
                        assert(old(self).model@.contains_key(old(self).clients@[oj].id@));
                        assert(old(self).clients@[oj].id@ != old(self).clients@[i as int].id@);
                    }
                    assert forall|a: int, b: int|
                        0 <= a < self.clients.len() && 0 <= b < self.clients.len() && a != b
                        implies #[trigger] self.clients@[a].id@ != #[trigger] self.clients@[b].id@ by {
                        let oa = if a < i { a } else { a + 1 };
                        let ob = if b < i { b } else { b + 1 };
                        assert(old(self).clients@[oa].id@ != old(self).clients@[ob].id@);
                    }
                    assert forall|k: Seq<char>| #[trigger] self.model@.contains_key(k) implies exists|j: int|
                        0 <= j < self.clients.len() && self.clients@[j].id@ == k by {
                        assert(old(self).model@.contains_key(k));
                        let oj = choose|j: int| 0 <= j < old(self).clients.len() && old(self).clients@[j].id@ == k;
                        assert(oj != i);
                        let j = if oj < i { oj } else { oj - 1 };
                        assert(self.clients@[j] == old_clients[oj]);
                    }
                }
            },
        }
    }

    /// The client with the given id, if connected.
    pub fn get(&self, client_id: &str) -> (r: Option<&ClientInfo>)
        requires
            self.wf(),
        ensures
            r is None <==> !self@.contains_key(client_id@),
            r matches Some(c) ==> self@[client_id@] == (c.host@, c.user@) && c.id@ == client_id@,
    {
        match self.find(client_id) {
            Some(i) => {
                assert(self.model@.contains_key(self.clients@[i as int].id@));
                Some(&self.clients[i])
            },
            None => None,
        }
    }
}

} // verus!
