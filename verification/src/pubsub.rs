//! The publish/subscribe server's registry: the connections of each user,
//! what each user's client subscribed to, and the users subscribed to each
//! topic. The sockets themselves stay with the caller, keyed by connection
//! id.
use vstd::prelude::*;

use crate::client_info::{
    find_id, find_key, has_key, ids_view, key_index, lemma_distinct_push, lemma_distinct_remove, lemma_lookup,
    lemma_push, lemma_remove, lemma_update, pairs_map, subscription_added, subscription_removed, unique_keys,
    with, without, ClientInfo, distinct,
};
use crate::topic::TopicMatcher;

verus! {

/// Lists by key, by their text.
pub open spec fn lists_view(v: Seq<(String, Vec<String>)>) -> Seq<(Seq<char>, Seq<Seq<char>>)> {
    v.map_values(|e: (String, Vec<String>)| (e.0@, ids_view(e.1)))
}

/// Each key once, and each member once in its list.
pub open spec fn lists_ok(v: Seq<(String, Vec<String>)>) -> bool {
    &&& unique_keys(lists_view(v))
    &&& forall|i: int| 0 <= i < v.len() ==> distinct(#[trigger] lists_view(v)[i].1)
}

/// The list under `k`, empty when `k` has none.
pub open spec fn list_at(m: Map<Seq<char>, Seq<Seq<char>>>, k: Seq<char>) -> Seq<Seq<char>> {
    if m.contains_key(k) {
        m[k]
    } else {
        Seq::empty()
    }
}

/// The lists with `x` taken off the list under `k`, the key dropped when
/// its list is left empty.
pub open spec fn drop_member(m: Map<Seq<char>, Seq<Seq<char>>>, k: Seq<char>, x: Seq<char>) -> Map<
    Seq<char>,
    Seq<Seq<char>>,
> {
    if m.contains_key(k) {
        let rest = without(m[k], x);
        if rest.len() == 0 {
            m.remove(k)
        } else {
            m.insert(k, rest)
        }
    } else {
        m
    }
}

/// Adds `member` to the list under `key` (made when missing), once.
fn add_member(lists: &mut Vec<(String, Vec<String>)>, key: &String, member: &String)
    requires
        lists_ok(old(lists)@),
    ensures
        lists_ok(final(lists)@),
        pairs_map(lists_view(final(lists)@)) == pairs_map(lists_view(old(lists)@)).insert(
            key@,
            with(list_at(pairs_map(lists_view(old(lists)@)), key@), member@),
        ),
{
    let ghost t0 = lists_view(lists@);
    match find_key(lists, key) {
        Some(i) => {
            let (name, mut ids) = lists.remove(i);
            let ghost before = ids_view(ids);
            proof {
                lemma_lookup(t0, i as int);
                assert(t0[i as int] == (name@, before));
                assert(distinct(lists_view(old(lists)@)[i as int].1));
            }
            match find_id(&ids, member) {
                Some(p) => {
                    proof {
                        assert(before[p as int] == member@);
                        assert(before.contains(member@));
                    }
                },
                None => {
                    ids.push(member.clone());
                    proof {
                        assert(!before.contains(member@)) by {
                            if before.contains(member@) {
                                let j = choose|j: int| 0 <= j < before.len() && before[j] == member@;
                                assert(ids@[j]@ == before[j]);
                            }
                        }
                        lemma_distinct_push(before, member@);
                        assert(ids_view(ids) =~= before.push(member@));
                    }
                },
            }
            assert(ids_view(ids) == with(before, member@));
            lists.insert(i, (name, ids));
            proof {
                lemma_update(t0, i as int, with(before, member@));
                assert(lists_view(lists@) =~= t0.update(i as int, (t0[i as int].0, with(before, member@))));
                assert forall|j: int| 0 <= j < lists@.len() implies distinct(#[trigger] lists_view(lists@)[j].1) by {
                    if j != i {
                        assert(lists_view(lists@)[j] == t0[j]);
                    }
                }
            }
        },
        None => {
            let mut ids: Vec<String> = Vec::new();
            ids.push(member.clone());
            lists.push((key.clone(), ids));
            proof {
                assert(!has_key(t0, key@)) by {
                    if has_key(t0, key@) {
                        let j = key_index(t0, key@);
                        assert(old(lists)@[j].0@ == t0[j].0);
                    }
                }
                assert(ids_view(ids) =~= seq![member@]);
                assert(with(Seq::<Seq<char>>::empty(), member@) =~= seq![member@]);
                lemma_push(t0, key@, seq![member@]);
                assert(lists_view(lists@) =~= t0.push((key@, seq![member@])));
                assert forall|j: int| 0 <= j < lists@.len() implies distinct(#[trigger] lists_view(lists@)[j].1) by {
                    if j < t0.len() {
                        assert(lists_view(lists@)[j] == t0[j]);
                    }
                }
            }
        },
    }
}

/// Takes `member` off the list under `key`, dropping the key when its list
/// is left empty; gives whether the key was dropped.
fn remove_member(lists: &mut Vec<(String, Vec<String>)>, key: &String, member: &String) -> (emptied: bool)
    requires
        lists_ok(old(lists)@),
    ensures
        lists_ok(final(lists)@),
        pairs_map(lists_view(final(lists)@)) == drop_member(pairs_map(lists_view(old(lists)@)), key@, member@),
        emptied == (pairs_map(lists_view(old(lists)@)).contains_key(key@) && !pairs_map(
            lists_view(final(lists)@),
        ).contains_key(key@)),
{
    let ghost t0 = lists_view(lists@);
    let j = match find_key(lists, key) {
        Some(j) => j,
        None => {
            proof {
                if has_key(t0, key@) {
                    let k = key_index(t0, key@);
                    assert(lists@[k].0@ == t0[k].0);
                }
            }
            return false;
        },
    };
    let (name, mut ids) = lists.remove(j);
    let ghost before = ids_view(ids);
    proof {
        lemma_lookup(t0, j as int);
        assert(t0[j as int] == (name@, before));
        assert(distinct(lists_view(old(lists)@)[j as int].1));
    }
    match find_id(&ids, member) {
        Some(p) => {
            ids.remove(p);
            proof {
                assert(before[p as int] == member@);
                lemma_distinct_remove(before, p as int);
                assert(ids_view(ids) =~= before.remove(p as int));
            }
        },
        None => {
            proof {
                assert(!before.contains(member@)) by {
                    if before.contains(member@) {
                        let q = choose|q: int| 0 <= q < before.len() && before[q] == member@;
                        assert(ids@[q]@ == before[q]);
                    }
                }
            }
        },
    }
    assert(ids_view(ids) == without(before, member@));
    if ids.len() == 0 {
        proof {
            lemma_remove(t0, j as int);
            assert(lists_view(lists@) =~= t0.remove(j as int));
            assert forall|k: int| 0 <= k < lists@.len() implies distinct(#[trigger] lists_view(lists@)[k].1) by {
                let k2 = if k < j {
                    k
                } else {
                    k + 1
                };
                assert(lists_view(lists@)[k] == t0[k2]);
            }
        }
        true
    } else {
        lists.insert(j, (name, ids));
        proof {
            lemma_update(t0, j as int, without(before, member@));
            assert(lists_view(lists@) =~= t0.update(j as int, (t0[j as int].0, without(before, member@))));
            assert forall|k: int| 0 <= k < lists@.len() implies distinct(#[trigger] lists_view(lists@)[k].1) by {
                if k != j {
                    assert(lists_view(lists@)[k] == t0[k]);
                }
            }
        }
        false
    }
}


/// The lists with `x` taken off the list under each key of `ks`, the keys
/// left empty dropped.
pub open spec fn drop_from_all(m: Map<Seq<char>, Seq<Seq<char>>>, ks: Set<Seq<char>>, x: Seq<char>) -> Map<
    Seq<char>,
    Seq<Seq<char>>,
> {
    Map::new(
        |k: Seq<char>| m.contains_key(k) && !(ks.contains(k) && without(m[k], x).len() == 0),
        |k: Seq<char>|
            if ks.contains(k) {
                without(m[k], x)
            } else {
                m[k]
            },
    )
}

/// Taking an element off a list without repeats leaves none of it.
proof fn lemma_without_gone(l: Seq<Seq<char>>, x: Seq<char>)
    requires
        distinct(l),
    ensures
        !without(l, x).contains(x),
{
    if l.contains(x) {
        let p = place_of_x(l, x);
    assert(l[p] == x);
        lemma_distinct_remove(l, p);
        let w = l.remove(p);
        if w.contains(x) {
            let q = choose|q: int| 0 <= q < w.len() && w[q] == x;
            let q2 = if q < p {
                q
            } else {
                q + 1
            };
            assert(w[q] == l[q2]);
            if q2 < p {
                assert(l[q2] != l[p]);
            } else {
                assert(l[p] != l[q2]);
            }
        }
    }
}

/// The place of `x` in `l`.
spec fn place_of_x(l: Seq<Seq<char>>, x: Seq<char>) -> int {
    choose|i: int| 0 <= i < l.len() && l[i] == x
}

/// The lists of sound lists have no repeats.
proof fn lemma_lists_distinct(v: Seq<(String, Vec<String>)>, k: Seq<char>)
    requires
        lists_ok(v),
        pairs_map(lists_view(v)).contains_key(k),
    ensures
        distinct(pairs_map(lists_view(v))[k]),
{
    let t = lists_view(v);
    let i = key_index(t, k);
    lemma_lookup(t, i);
    assert(distinct(lists_view(v)[i].1));
}

/// Taking `x` off one more key's list extends the keys it is taken from.
proof fn lemma_drop_step(m: Map<Seq<char>, Seq<Seq<char>>>, ks: Set<Seq<char>>, k: Seq<char>, x: Seq<char>)
    requires
        forall|j: Seq<char>| #[trigger] m.contains_key(j) ==> distinct(m[j]),
    ensures
        drop_member(drop_from_all(m, ks, x), k, x) == drop_from_all(m, ks.insert(k), x),
{
    let a = drop_from_all(m, ks, x);
    let b = drop_from_all(m, ks.insert(k), x);
    if ks.contains(k) && m.contains_key(k) {
        let w = without(m[k], x);
        lemma_without_gone(m[k], x);
        assert(without(w, x) == w);
    }
    assert(ks.insert(k).contains(k));
    assert(drop_member(a, k, x) =~= b);
}

/// Taking `x` off no list changes nothing.
proof fn lemma_drop_none(m: Map<Seq<char>, Seq<Seq<char>>>, x: Seq<char>)
    ensures
        drop_from_all(m, Set::empty(), x) == m,
{
    assert(drop_from_all(m, Set::empty(), x) =~= m);
}

/// The clients by user, by their text.
pub open spec fn clients_view(v: Seq<(String, ClientInfo)>) -> Seq<(Seq<char>, ClientInfo)> {
    v.map_values(|e: (String, ClientInfo)| (e.0@, e.1))
}

/// Whether a client holds no subscription.
pub open spec fn fresh_client(c: ClientInfo) -> bool {
    &&& c.subscription_map() == Map::<Seq<char>, Seq<char>>::empty()
    &&& c.topic_map() == Map::<Seq<char>, Seq<Seq<char>>>::empty()
    &&& c.subscription_count() == 0
}

/// The registry of the server.
pub struct PubSub {
    topic_to_subscribers: Vec<(String, Vec<String>)>,
    client_info: Vec<(String, ClientInfo)>,
    connections: Vec<(String, Vec<String>)>,
}

impl PubSub {
    /// The users subscribed to each topic.
    pub closed spec fn subscribers(&self) -> Map<Seq<char>, Seq<Seq<char>>> {
        pairs_map(lists_view(self.topic_to_subscribers@))
    }

    /// The connection ids of each user.
    pub closed spec fn connection_ids(&self) -> Map<Seq<char>, Seq<Seq<char>>> {
        pairs_map(lists_view(self.connections@))
    }

    /// The client of each user.
    pub closed spec fn clients(&self) -> Map<Seq<char>, ClientInfo> {
        pairs_map(clients_view(self.client_info@))
    }

    /// Each key once, each list without repeats, and each client sound.
    pub closed spec fn wf(&self) -> bool {
        &&& lists_ok(self.topic_to_subscribers@)
        &&& lists_ok(self.connections@)
        &&& unique_keys(clients_view(self.client_info@))
        &&& forall|i: int| 0 <= i < self.client_info@.len() ==> (#[trigger] self.client_info@[i]).1.wf()
    }

    /// A registry with no connection, client or subscriber.
    pub fn new() -> (r: Self)
        ensures
            r.wf(),
            r.subscribers() == Map::<Seq<char>, Seq<Seq<char>>>::empty(),
            r.connection_ids() == Map::<Seq<char>, Seq<Seq<char>>>::empty(),
            r.clients() == Map::<Seq<char>, ClientInfo>::empty(),
    {
        let r = PubSub { topic_to_subscribers: Vec::new(), client_info: Vec::new(), connections: Vec::new() };
        assert(lists_view(r.topic_to_subscribers@) =~= Seq::empty());
        assert(lists_view(r.connections@) =~= Seq::empty());
        assert(clients_view(r.client_info@) =~= Seq::empty());
        assert(r.subscribers() =~= Map::empty());
        assert(r.connection_ids() =~= Map::empty());
        assert(r.clients() =~= Map::empty());
        r
    }

    /// The users subscribed to `topic`.
    pub fn get_subscribers(&self, topic: &String) -> (r: Vec<String>)
        requires
            self.wf(),
        ensures
            ids_view(r) == list_at(self.subscribers(), topic@),
    {
        let ghost t0 = lists_view(self.topic_to_subscribers@);
        match find_key(&self.topic_to_subscribers, topic) {
            Some(i) => {
                proof {
                    lemma_lookup(t0, i as int);
                }
                let src = &self.topic_to_subscribers[i].1;
                let mut r: Vec<String> = Vec::new();
                for k in 0..src.len()
                    invariant
                        ids_view(r) == ids_view(*src).take(k as int),
                {
                    let c = src[k].clone();
                    assert(c@ == src@[k as int]@);
                    let ghost r0 = ids_view(r);
                    r.push(c);
                    assert(ids_view(r) =~= r0.push(c@));
                    assert(ids_view(r) =~= ids_view(*src).take(k + 1));
                }
                assert(ids_view(*src).take(src@.len() as int) =~= ids_view(*src));
                r
            },
            None => {
                proof {
                    if has_key(t0, topic@) {
                        let k = key_index(t0, topic@);
                        assert(self.topic_to_subscribers@[k].0@ == t0[k].0);
                    }
                }
                let r: Vec<String> = Vec::new();
                assert(ids_view(r) =~= Seq::empty());
                r
            },
        }
    }

    /// Records connection `connection_id` of `user_id`.
    pub fn add_connection(&mut self, user_id: &String, connection_id: &String)
        requires
            old(self).wf(),
        ensures
            final(self).wf(),
            final(self).connection_ids() == old(self).connection_ids().insert(
                user_id@,
                with(list_at(old(self).connection_ids(), user_id@), connection_id@),
            ),
            final(self).subscribers() == old(self).subscribers(),
            final(self).clients() == old(self).clients(),
    {
        add_member(&mut self.connections, user_id, connection_id);
    }

    /// Subscribes `user_id`'s subscription `subscription_id` to `topic`,
    /// when the user has a connection: the user's client (made when
    /// missing) takes the subscription, and when it is the client's first
    /// to the topic the user joins the topic's subscribers. Gives whether
    /// the user has a connection.
    pub fn subscribe(&mut self, user_id: &String, subscription_id: &String, topic: &String) -> (r: bool)
        requires
            old(self).wf(),
        ensures
            final(self).wf(),
            r == old(self).connection_ids().contains_key(user_id@),
            final(self).connection_ids() == old(self).connection_ids(),
            !r ==> final(self).subscribers() == old(self).subscribers() && final(self).clients() == old(
                self,
            ).clients(),
            r ==> exists|c0: ClientInfo, first: bool|
                (if old(self).clients().contains_key(user_id@) {
                    c0 == old(self).clients()[user_id@]
                } else {
                    fresh_client(c0)
                }) && final(self).clients().contains_key(user_id@) && #[trigger] subscription_added(
                    c0,
                    final(self).clients()[user_id@],
                    subscription_id@,
                    topic@,
                    first,
                ) && final(self).clients() == old(self).clients().insert(user_id@, final(self).clients()[user_id@])
                    && final(self).subscribers() == (if first {
                    old(self).subscribers().insert(
                        topic@,
                        with(list_at(old(self).subscribers(), topic@), user_id@),
                    )
                } else {
                    old(self).subscribers()
                }),
    {
        let ghost cs0 = clients_view(self.client_info@);
        let ghost k0 = lists_view(self.connections@);
        match find_key(&self.connections, user_id) {
            Some(j) => {
                assert(k0[j as int].0 == user_id@);
                assert(has_key(k0, user_id@));
            },
            None => {
                proof {
                    if has_key(k0, user_id@) {
                        let k = key_index(k0, user_id@);
                        assert(self.connections@[k].0@ == k0[k].0);
                    }
                }
                return false;
            },
        }
        let i = match find_key(&self.client_info, user_id) {
            Some(i) => {
                proof {
                    lemma_lookup(cs0, i as int);
                }
                i
            },
            None => {
                let fresh = ClientInfo::default();
                proof {
                    assert(!has_key(cs0, user_id@)) by {
                        if has_key(cs0, user_id@) {
                            let k = key_index(cs0, user_id@);
                            assert(self.client_info@[k].0@ == cs0[k].0);
                        }
                    }
                    lemma_push(cs0, user_id@, fresh);
                }
                self.client_info.push((user_id.clone(), fresh));
                proof {
                    assert(clients_view(self.client_info@) =~= cs0.push((user_id@, fresh)));
                    lemma_lookup(clients_view(self.client_info@), cs0.len() as int);
                    assert forall|j: int| 0 <= j < self.client_info@.len() implies (#[trigger] self.client_info@[j]).1.wf() by {
                        if j < cs0.len() {
                            assert(self.client_info@[j] == old(self).client_info@[j]);
                        }
                    }
                }
                self.client_info.len() - 1
            },
        };
        let ghost cs1 = clients_view(self.client_info@);
        let ghost c_before = self.client_info@[i as int].1;
        let (name, mut client) = self.client_info.remove(i);
        assert(client == c_before);
        let first = client.add_subscription(subscription_id, topic);
        let ghost c_after = client;
        self.client_info.insert(i, (name, client));
        proof {
            lemma_update(cs1, i as int, c_after);
            assert(clients_view(self.client_info@) =~= cs1.update(i as int, (cs1[i as int].0, c_after)));
            assert forall|j: int| 0 <= j < self.client_info@.len() implies (#[trigger] self.client_info@[j]).1.wf() by {
                if j != i {
                    assert(clients_view(self.client_info@)[j] == cs1[j]);
                    assert(self.client_info@[j].1 == clients_view(self.client_info@)[j].1);
                }
            }
            lemma_lookup(clients_view(self.client_info@), i as int);
            assert(self.clients() =~= pairs_map(cs0).insert(user_id@, c_after));
        }
        match &first {
            Some(t) => {
                add_member(&mut self.topic_to_subscribers, t, user_id);
            },
            None => {},
        }
        proof {
            let c0 = c_before;
            assert(subscription_added(c0, self.clients()[user_id@], subscription_id@, topic@, first is Some));
        }
        true
    }

    /// Drops `user_id`'s subscription `subscription_id`: the user's client
    /// lets it go; when no subscription of the client is left to its topic
    /// the user leaves the topic's subscribers; an empty client is
    /// forgotten.
    pub fn unsubscribe(&mut self, user_id: &String, subscription_id: &String)
        requires
            old(self).wf(),
        ensures
            final(self).wf(),
            final(self).connection_ids() == old(self).connection_ids(),
            !old(self).clients().contains_key(user_id@) ==> final(self).subscribers() == old(self).subscribers()
                && final(self).clients() == old(self).clients(),
            old(self).clients().contains_key(user_id@) ==> exists|c2: ClientInfo, gone: Option<Seq<char>>|
                #[trigger] subscription_removed(old(self).clients()[user_id@], c2, subscription_id@, gone)
                    && final(self).subscribers() == (match gone {
                    Some(t) => drop_member(old(self).subscribers(), t, user_id@),
                    None => old(self).subscribers(),
                }) && final(self).clients() == (if c2.subscription_map().dom().len() == 0
                    && c2.topic_map().dom().len() == 0 {
                    old(self).clients().remove(user_id@)
                } else {
                    old(self).clients().insert(user_id@, c2)
                }),
    {
        let ghost cs0 = clients_view(self.client_info@);
        let i = match find_key(&self.client_info, user_id) {
            Some(i) => i,
            None => {
                proof {
                    if has_key(cs0, user_id@) {
                        let k = key_index(cs0, user_id@);
                        assert(self.client_info@[k].0@ == cs0[k].0);
                    }
                }
                return;
            },
        };
        proof {
            lemma_lookup(cs0, i as int);
        }
        let ghost c_before = self.client_info@[i as int].1;
        let (name, mut client) = self.client_info.remove(i);
        let gone = client.remove_subscription(subscription_id);
        let ghost c_after = client;
        match &gone {
            Some(t) => {
                remove_member(&mut self.topic_to_subscribers, t, user_id);
            },
            None => {},
        }
        if client.is_empty() {
            proof {
                lemma_remove(cs0, i as int);
                assert(clients_view(self.client_info@) =~= cs0.remove(i as int));
                assert forall|j: int| 0 <= j < self.client_info@.len() implies (#[trigger] self.client_info@[j]).1.wf() by {
                    let j2 = if j < i {
                        j
                    } else {
                        j + 1
                    };
                    assert(self.client_info@[j] == old(self).client_info@[j2]);
                }
            }
        } else {
            self.client_info.insert(i, (name, client));
            proof {
                lemma_update(cs0, i as int, c_after);
                assert(clients_view(self.client_info@) =~= cs0.update(i as int, (cs0[i as int].0, c_after)));
                assert forall|j: int| 0 <= j < self.client_info@.len() implies (#[trigger] self.client_info@[j]).1.wf() by {
                    if j != i {
                        assert(self.client_info@[j] == old(self).client_info@[j]);
                    }
                }
            }
        }
        proof {
            let g = match gone {
                Some(t) => Some(t@),
                None => None,
            };
            assert(subscription_removed(c_before, c_after, subscription_id@, g));
        }
    }

    /// Forgets `user_id`'s client and takes the user off the subscribers of
    /// each topic the client listed, dropping topics left without one.
    pub fn remove_all_subscriptions(&mut self, user_id: &String)
        requires
            old(self).wf(),
        ensures
            final(self).wf(),
            final(self).connection_ids() == old(self).connection_ids(),
            !old(self).clients().contains_key(user_id@) ==> final(self).subscribers() == old(self).subscribers()
                && final(self).clients() == old(self).clients(),
            old(self).clients().contains_key(user_id@) ==> final(self).clients() == old(self).clients().remove(
                user_id@,
            ) && final(self).subscribers() == drop_from_all(
                old(self).subscribers(),
                old(self).clients()[user_id@].topic_map().dom(),
                user_id@,
            ),
    {
        let ghost cs0 = clients_view(self.client_info@);
        let ghost m0 = self.subscribers();
        let i = match find_key(&self.client_info, user_id) {
            Some(i) => i,
            None => {
                proof {
                    if has_key(cs0, user_id@) {
                        let k = key_index(cs0, user_id@);
                        assert(self.client_info@[k].0@ == cs0[k].0);
                    }
                }
                return;
            },
        };
        proof {
            lemma_lookup(cs0, i as int);
        }
        let (_, client) = self.client_info.remove(i);
        proof {
            lemma_remove(cs0, i as int);
            assert(clients_view(self.client_info@) =~= cs0.remove(i as int));
            assert forall|j: int| 0 <= j < self.client_info@.len() implies (#[trigger] self.client_info@[j]).1.wf() by {
                let j2 = if j < i {
                    j
                } else {
                    j + 1
                };
                assert(self.client_info@[j] == old(self).client_info@[j2]);
            }
            assert(client.wf());
            assert forall|j: Seq<char>| #[trigger] m0.contains_key(j) implies distinct(m0[j]) by {
                lemma_lists_distinct(old(self).topic_to_subscribers@, j);
            }
            lemma_drop_none(m0, user_id@);
        }
        let topics = client.all_topics();
        let ghost dom = client.topic_map().dom();
        let mut k: usize = 0;
        while k < topics.len()
            invariant
                self.wf(),
                forall|j: Seq<char>| #[trigger] m0.contains_key(j) ==> distinct(m0[j]),
                k <= topics@.len(),
                self.subscribers() == drop_from_all(
                    m0,
                    Set::new(|x: Seq<char>| exists|q: int| 0 <= q < k && topics@[q]@ == x),
                    user_id@,
                ),
                self.clients() == old(self).clients().remove(user_id@),
                self.connection_ids() == old(self).connection_ids(),
            decreases topics@.len() - k,
        {
            let ghost before = Set::new(|x: Seq<char>| exists|q: int| 0 <= q < k && topics@[q]@ == x);
            remove_member(&mut self.topic_to_subscribers, &topics[k], user_id);
            proof {
                lemma_drop_step(m0, before, topics@[k as int]@, user_id@);
                let after = Set::new(|x: Seq<char>| exists|q: int| 0 <= q < k + 1 && topics@[q]@ == x);
                assert forall|x: Seq<char>| after.contains(x) <==> before.insert(topics@[k as int]@).contains(x) by {
                    if after.contains(x) {
                        let q = choose|q: int| 0 <= q < k + 1 && topics@[q]@ == x;
                        if q < k {
                            assert(before.contains(x));
                        }
                    }
                    if before.contains(x) {
                        let q = choose|q: int| 0 <= q < k && topics@[q]@ == x;
                        assert(after.contains(x));
                    }
                }
                assert(after =~= before.insert(topics@[k as int]@));
            }
            k = k + 1;
        }
        proof {
            let all = Set::new(|x: Seq<char>| exists|q: int| 0 <= q < topics@.len() && topics@[q]@ == x);
            assert forall|x: Seq<char>| all.contains(x) <==> dom.contains(x) by {
                assert(client.topic_map().contains_key(x) <==> exists|q: int| 0 <= q < topics@.len() && topics@[q]@ == x);
            }
            assert(all =~= dom);
        }
    }

    /// Forgets connection `connection_id` of `user_id`; when the user has
    /// no connection left, also all of the user's subscriptions. Gives
    /// whether the connection was recorded.
    pub fn remove_connection(&mut self, user_id: &String, connection_id: &String) -> (r: bool)
        requires
            old(self).wf(),
        ensures
            final(self).wf(),
            r == (old(self).connection_ids().contains_key(user_id@) && old(self).connection_ids()[user_id@].contains(
                connection_id@,
            )),
            !r ==> final(self).connection_ids() == old(self).connection_ids() && final(self).subscribers() == old(
                self,
            ).subscribers() && final(self).clients() == old(self).clients(),
            r ==> final(self).connection_ids() == drop_member(old(self).connection_ids(), user_id@, connection_id@),
            r && final(self).connection_ids().contains_key(user_id@) ==> final(self).subscribers() == old(
                self,
            ).subscribers() && final(self).clients() == old(self).clients(),
            r && !final(self).connection_ids().contains_key(user_id@) && old(self).clients().contains_key(user_id@)
                ==> final(self).clients() == old(self).clients().remove(user_id@) && final(self).subscribers()
                == drop_from_all(old(self).subscribers(), old(self).clients()[user_id@].topic_map().dom(), user_id@),
            r && !final(self).connection_ids().contains_key(user_id@) && !old(self).clients().contains_key(user_id@)
                ==> final(self).subscribers() == old(self).subscribers() && final(self).clients() == old(self).clients(),
    {
        let ghost k0 = lists_view(self.connections@);
        let j = match find_key(&self.connections, user_id) {
            Some(j) => j,
            None => {
                proof {
                    if has_key(k0, user_id@) {
                        let k = key_index(k0, user_id@);
                        assert(self.connections@[k].0@ == k0[k].0);
                    }
                }
                return false;
            },
        };
        proof {
            lemma_lookup(k0, j as int);
        }
        let held = match find_id(&self.connections[j].1, connection_id) {
            Some(p) => {
                proof {
                    assert(ids_view(self.connections@[j as int].1)[p as int] == connection_id@);
                }
                true
            },
            None => {
                proof {
                    let l = ids_view(self.connections@[j as int].1);
                    if l.contains(connection_id@) {
                        let q = choose|q: int| 0 <= q < l.len() && l[q] == connection_id@;
                        assert(self.connections@[j as int].1@[q]@ == l[q]);
                    }
                }
                false
            },
        };
        if !held {
            return false;
        }
        let emptied = remove_member(&mut self.connections, user_id, connection_id);
        if emptied {
            self.remove_all_subscriptions(user_id);
        }
        true
    }

    /// Adds `handler` to the handlers of `topic`.
    pub fn add_handler<H>(handlers: &mut TopicMatcher<Vec<H>>, topic: &str, handler: H)
        requires
            old(handlers).wf(),
        ensures
            match crate::topic::find_entry(old(handlers).entries(), topic@) {
                Some(i) => final(handlers).entries() == old(handlers).entries().update(
                    i,
                    (topic@, final(handlers).entries()[i].1),
                ) && final(handlers).entries()[i].1@ == old(handlers).entries()[i].1@.push(handler),
                None => final(handlers).entries().len() == old(handlers).entries().len() + 1
                    && final(handlers).entries() == old(handlers).entries().push(
                    (topic@, final(handlers).entries().last().1),
                ) && final(handlers).entries().last().1@ == seq![handler],
            },
    {
        match handlers.get_mut(topic) {
            Some(existing) => {
                existing.push(handler);
            },
            None => {
                let mut v: Vec<H> = Vec::new();
                v.push(handler);
                let key = crate::text::string_from_chars(crate::text::str_chars(topic).as_slice());
                handlers.insert(key, v);
            },
        }
    }
}

} // verus!
