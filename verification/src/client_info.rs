//! What the publish/subscribe server keeps of each client: the topic of
//! each of its subscriptions, by subscription id, and the ids subscribed
//! to each topic.
use vstd::prelude::*;

verus! {

/// Whether `k` is the key of one of the pairs.
pub open spec fn has_key<V>(s: Seq<(Seq<char>, V)>, k: Seq<char>) -> bool {
    exists|i: int| #![trigger s[i]] 0 <= i < s.len() && s[i].0 == k
}

/// The place of key `k` among the pairs.
pub open spec fn key_index<V>(s: Seq<(Seq<char>, V)>, k: Seq<char>) -> int {
    choose|i: int| #![trigger s[i]] 0 <= i < s.len() && s[i].0 == k
}

/// Whether no key occurs twice among the pairs.
pub open spec fn unique_keys<V>(s: Seq<(Seq<char>, V)>) -> bool {
    forall|i: int, j: int| #![trigger s[i], s[j]] 0 <= i < j < s.len() ==> s[i].0 != s[j].0
}

/// The pairs as a map from key to value.
pub open spec fn pairs_map<V>(s: Seq<(Seq<char>, V)>) -> Map<Seq<char>, V> {
    Map::new(|k: Seq<char>| has_key(s, k), |k: Seq<char>| s[key_index(s, k)].1)
}

/// The place of `x` in `s`.
pub open spec fn place_of(s: Seq<Seq<char>>, x: Seq<char>) -> int {
    choose|i: int| 0 <= i < s.len() && s[i] == x
}

/// A pair's key and value give the map's entry for that key.
pub(crate) proof fn lemma_lookup<V>(s: Seq<(Seq<char>, V)>, i: int)
    requires
        unique_keys(s),
        0 <= i < s.len(),
    ensures
        has_key(s, s[i].0),
        key_index(s, s[i].0) == i,
        pairs_map(s).contains_key(s[i].0),
        pairs_map(s)[s[i].0] == s[i].1,
{
    let k = s[i].0;
    assert(has_key(s, k));
    let j = key_index(s, k);
    assert(s[j].0 == k);
    if j != i {
        if j < i {
            assert(s[j].0 != s[i].0);
        } else {
            assert(s[i].0 != s[j].0);
        }
    }
}

/// Adding a pair with a new key adds its entry.
pub(crate) proof fn lemma_push<V>(s: Seq<(Seq<char>, V)>, k: Seq<char>, v: V)
    requires
        unique_keys(s),
        !has_key(s, k),
    ensures
        unique_keys(s.push((k, v))),
        pairs_map(s.push((k, v))) == pairs_map(s).insert(k, v),
{
    let t = s.push((k, v));
    assert forall|i: int, j: int| #![trigger t[i], t[j]] 0 <= i < j < t.len() implies t[i].0 != t[j].0 by {
        if j < s.len() {
            assert(s[i] == t[i] && s[j] == t[j]);
        } else {
            assert(s[i] == t[i]);
        }
    }
    assert forall|x: Seq<char>| has_key(t, x) == (has_key(s, x) || x == k) by {
        if has_key(s, x) {
            let i = key_index(s, x);
            assert(t[i] == s[i]);
        }
        if x == k {
            assert(t[s.len() as int].0 == k);
        }
        if has_key(t, x) {
            let i = key_index(t, x);
            if i < s.len() {
                assert(s[i] == t[i]);
            }
        }
    }
    assert forall|x: Seq<char>| #[trigger] pairs_map(t).contains_key(x) implies pairs_map(t)[x] == pairs_map(
        s,
    ).insert(k, v)[x] by {
        if x == k {
            lemma_lookup(t, s.len() as int);
        } else {
            let i = key_index(s, x);
            lemma_lookup(s, i);
            assert(t[i] == s[i]);
            lemma_lookup(t, i);
        }
    }
    assert(pairs_map(t) =~= pairs_map(s).insert(k, v));
}

/// Changing the value of the pair at `i` changes its entry.
pub(crate) proof fn lemma_update<V>(s: Seq<(Seq<char>, V)>, i: int, v: V)
    requires
        unique_keys(s),
        0 <= i < s.len(),
    ensures
        unique_keys(s.update(i, (s[i].0, v))),
        pairs_map(s.update(i, (s[i].0, v))) == pairs_map(s).insert(s[i].0, v),
{
    let k = s[i].0;
    let t = s.update(i, (k, v));
    assert forall|a: int, b: int| #![trigger t[a], t[b]] 0 <= a < b < t.len() implies t[a].0 != t[b].0 by {
        assert(t[a].0 == s[a].0 && t[b].0 == s[b].0);
    }
    assert forall|x: Seq<char>| has_key(t, x) == has_key(s, x) by {
        if has_key(s, x) {
            let j = key_index(s, x);
            assert(t[j].0 == s[j].0);
        }
        if has_key(t, x) {
            let j = key_index(t, x);
            assert(t[j].0 == s[j].0);
        }
    }
    assert forall|x: Seq<char>| #[trigger] pairs_map(t).contains_key(x) implies pairs_map(t)[x] == pairs_map(
        s,
    ).insert(k, v)[x] by {
        if x == k {
            lemma_lookup(t, i);
        } else {
            let j = key_index(s, x);
            lemma_lookup(s, j);
            assert(t[j] == s[j]);
            lemma_lookup(t, j);
        }
    }
    assert(pairs_map(t) =~= pairs_map(s).insert(k, v));
}

/// Taking out the pair at `i` takes out its entry.
pub(crate) proof fn lemma_remove<V>(s: Seq<(Seq<char>, V)>, i: int)
    requires
        unique_keys(s),
        0 <= i < s.len(),
    ensures
        unique_keys(s.remove(i)),
        pairs_map(s.remove(i)) == pairs_map(s).remove(s[i].0),
{
    let k = s[i].0;
    let t = s.remove(i);
    assert forall|a: int| 0 <= a < t.len() implies #[trigger] t[a] == (if a < i { s[a] } else { s[a + 1] }) by {}
    assert forall|a: int, b: int| #![trigger t[a], t[b]] 0 <= a < b < t.len() implies t[a].0 != t[b].0 by {
        let a2 = if a < i { a } else { a + 1 };
        let b2 = if b < i { b } else { b + 1 };
        assert(t[a] == s[a2] && t[b] == s[b2]);
        assert(s[a2].0 != s[b2].0);
    }
    assert forall|x: Seq<char>| has_key(t, x) == (has_key(s, x) && x != k) by {
        if has_key(s, x) && x != k {
            let j = key_index(s, x);
            assert(j != i);
            let j2 = if j < i { j } else { j - 1 };
            assert(t[j2] == s[j]);
        }
        if has_key(t, x) {
            let j = key_index(t, x);
            let j2 = if j < i { j } else { j + 1 };
            assert(t[j] == s[j2]);
            if x == k {
                assert(s[j2].0 == s[i].0);
                if j2 < i {
                    assert(s[j2].0 != s[i].0);
                } else {
                    assert(s[i].0 != s[j2].0);
                }
            }
        }
    }
    assert forall|x: Seq<char>| #[trigger] pairs_map(t).contains_key(x) implies pairs_map(t)[x] == pairs_map(
        s,
    ).remove(k)[x] by {
        let j = key_index(t, x);
        lemma_lookup(t, j);
        let j2 = if j < i { j } else { j + 1 };
        assert(t[j] == s[j2]);
        lemma_lookup(s, j2);
    }
    assert(pairs_map(t) =~= pairs_map(s).remove(k));
}

/// The keys of the map are those of the pairs.
pub(crate) proof fn lemma_dom_keys<V>(s: Seq<(Seq<char>, V)>)
    ensures
        pairs_map(s).dom() == s.map_values(|e: (Seq<char>, V)| e.0).to_set(),
{
    let keys = s.map_values(|e: (Seq<char>, V)| e.0);
    assert forall|x: Seq<char>| pairs_map(s).dom().contains(x) <==> keys.to_set().contains(x) by {
        if has_key(s, x) {
            let i = key_index(s, x);
            assert(keys[i] == x);
        }
        if keys.contains(x) {
            let i = choose|i: int| 0 <= i < keys.len() && keys[i] == x;
            assert(s[i].0 == x);
        }
    }
    assert(pairs_map(s).dom() =~= keys.to_set());
}

/// The map holds no entry exactly when there is no pair.
pub(crate) proof fn lemma_dom_len_any<V>(s: Seq<(Seq<char>, V)>)
    ensures
        (pairs_map(s).dom().len() == 0) == (s.len() == 0),
{
    lemma_dom_keys(s);
    let keys = s.map_values(|e: (Seq<char>, V)| e.0);
    keys.lemma_cardinality_of_empty_set_is_0();
}

/// With each key once, the map has an entry per pair.
pub(crate) proof fn lemma_dom_len<V>(s: Seq<(Seq<char>, V)>)
    requires
        unique_keys(s),
    ensures
        pairs_map(s).dom().len() == s.len(),
{
    lemma_dom_keys(s);
    let keys = s.map_values(|e: (Seq<char>, V)| e.0);
    assert forall|i: int, j: int| 0 <= i < keys.len() && 0 <= j < keys.len() && i != j implies keys[i] != keys[j] by {
        if i < j {
            assert(s[i].0 != s[j].0);
        } else {
            assert(s[j].0 != s[i].0);
        }
    }
    assert(keys.no_duplicates());
    keys.unique_seq_to_set();
}

/// Whether no element occurs twice.
pub open spec fn distinct(s: Seq<Seq<char>>) -> bool {
    forall|i: int, j: int| #![trigger s[i], s[j]] 0 <= i < j < s.len() ==> s[i] != s[j]
}

/// The ids subscribed to a topic, as kept: without the one removed.
pub open spec fn without(s: Seq<Seq<char>>, x: Seq<char>) -> Seq<Seq<char>> {
    if s.contains(x) {
        s.remove(place_of(s, x))
    } else {
        s
    }
}

/// The ids subscribed to a topic after adding `x`: at the end, once.
pub open spec fn with(s: Seq<Seq<char>>, x: Seq<char>) -> Seq<Seq<char>> {
    if s.contains(x) {
        s
    } else {
        s.push(x)
    }
}


/// Adding an id not listed keeps the ids distinct.
pub(crate) proof fn lemma_distinct_push(s: Seq<Seq<char>>, x: Seq<char>)
    requires
        distinct(s),
        !s.contains(x),
    ensures
        distinct(s.push(x)),
{
    let t = s.push(x);
    assert forall|i: int, j: int| #![trigger t[i], t[j]] 0 <= i < j < t.len() implies t[i] != t[j] by {
        if j == s.len() {
            assert(t[i] == s[i]);
            if s[i] == x {
                assert(s.contains(x));
            }
        } else {
            assert(t[i] == s[i] && t[j] == s[j]);
        }
    }
}

/// Removing the id at `p` keeps the ids distinct, and `p` is where the
/// id is.
pub(crate) proof fn lemma_distinct_remove(s: Seq<Seq<char>>, p: int)
    requires
        distinct(s),
        0 <= p < s.len(),
    ensures
        distinct(s.remove(p)),
        s.contains(s[p]),
        place_of(s, s[p]) == p,
        without(s, s[p]) == s.remove(p),
{
    let t = s.remove(p);
    assert forall|i: int, j: int| #![trigger t[i], t[j]] 0 <= i < j < t.len() implies t[i] != t[j] by {
        let i2 = if i < p { i } else { i + 1 };
        let j2 = if j < p { j } else { j + 1 };
        assert(t[i] == s[i2] && t[j] == s[j2]);
        assert(s[i2] != s[j2]);
    }
    assert(s.contains(s[p]));
    let q = place_of(s, s[p]);
    assert(s[q] == s[p]);
    if q != p {
        if q < p {
            assert(s[q] != s[p]);
        } else {
            assert(s[p] != s[q]);
        }
    }
}

/// The place of `key` in the pairs, if there.
pub(crate) fn find_key<V>(v: &Vec<(String, V)>, key: &String) -> (r: Option<usize>)
    ensures
        match r {
            Some(i) => i < v@.len() && v@[i as int].0@ == key@,
            None => forall|i: int| 0 <= i < v@.len() ==> v@[i].0@ != key@,
        },
{
    for i in 0..v.len()
        invariant
            forall|j: int| 0 <= j < i ==> v@[j].0@ != key@,
    {
        if v[i].0 == *key {
            return Some(i);
        }
    }
    None
}

/// The place of `x` in `v`, if there.
pub(crate) fn find_id(v: &Vec<String>, x: &String) -> (r: Option<usize>)
    ensures
        match r {
            Some(i) => i < v@.len() && v@[i as int]@ == x@,
            None => forall|i: int| 0 <= i < v@.len() ==> v@[i]@ != x@,
        },
{
    for i in 0..v.len()
        invariant
            forall|j: int| 0 <= j < i ==> v@[j]@ != x@,
    {
        if v[i] == *x {
            return Some(i);
        }
    }
    None
}

/// What the server keeps of a client: the topic of each subscription by
/// id, and the ids subscribed to each topic in the order they came.
pub struct ClientInfo {
    subscriptions: Vec<(String, String)>,
    topics: Vec<(String, Vec<String>)>,
}

/// The ids of a topic by their text.
pub open spec fn ids_view(v: Vec<String>) -> Seq<Seq<char>> {
    v@.map_values(|s: String| s@)
}

/// The ids a client lists under `topic`, none when it lists the topic not.
pub open spec fn topic_ids(c: ClientInfo, topic: Seq<char>) -> Seq<Seq<char>> {
    if c.topic_map().contains_key(topic) {
        c.topic_map()[topic]
    } else {
        Seq::empty()
    }
}

/// What subscribing `id` to `topic` makes of client `c`: client `c2`;
/// `first` tells whether no id was subscribed to the topic before. A
/// client with 500 subscriptions takes no more.
pub open spec fn subscription_added(c: ClientInfo, c2: ClientInfo, id: Seq<char>, topic: Seq<char>, first: bool) -> bool {
    if c.subscription_count() >= 500 {
        &&& !first
        &&& c2.subscription_map() == c.subscription_map()
        &&& c2.topic_map() == c.topic_map()
        &&& c2.subscription_count() == c.subscription_count()
    } else {
        let before = topic_ids(c, topic);
        &&& c2.subscription_map() == c.subscription_map().insert(id, topic)
        &&& c2.subscription_count() == c.subscription_count() + (if c.subscription_map().contains_key(id) {
            0int
        } else {
            1int
        })
        &&& c2.topic_map() == c.topic_map().insert(topic, with(before, id))
        &&& first == (before.len() == 0)
    }
}

/// What dropping subscription `id` makes of client `c`: client `c2`;
/// `gone` is the topic no id is left subscribed to, if any.
pub open spec fn subscription_removed(c: ClientInfo, c2: ClientInfo, id: Seq<char>, gone: Option<Seq<char>>) -> bool {
    if !c.subscription_map().contains_key(id) {
        &&& gone is None
        &&& c2.subscription_map() == c.subscription_map()
        &&& c2.topic_map() == c.topic_map()
        &&& c2.subscription_count() == c.subscription_count()
    } else {
        let t = c.subscription_map()[id];
        &&& c2.subscription_map() == c.subscription_map().remove(id)
        &&& c2.subscription_count() == c.subscription_count() - 1
        &&& if c.topic_map().contains_key(t) {
            let rest = without(c.topic_map()[t], id);
            if rest.len() == 0 {
                c2.topic_map() == c.topic_map().remove(t) && gone == Some(t)
            } else {
                c2.topic_map() == c.topic_map().insert(t, rest) && gone is None
            }
        } else {
            c2.topic_map() == c.topic_map() && gone is None
        }
    }
}

impl ClientInfo {
    /// The subscriptions as pairs of id and topic.
    pub closed spec fn subs(&self) -> Seq<(Seq<char>, Seq<char>)> {
        self.subscriptions@.map_values(|e: (String, String)| (e.0@, e.1@))
    }

    /// The topics as pairs of topic and the ids subscribed to it.
    pub closed spec fn tops(&self) -> Seq<(Seq<char>, Seq<Seq<char>>)> {
        self.topics@.map_values(|e: (String, Vec<String>)| (e.0@, ids_view(e.1)))
    }

    /// The topic of each subscription, by id.
    pub open spec fn subscription_map(&self) -> Map<Seq<char>, Seq<char>> {
        pairs_map(self.subs())
    }

    /// The ids subscribed to each topic, in the order they came.
    pub open spec fn topic_map(&self) -> Map<Seq<char>, Seq<Seq<char>>> {
        pairs_map(self.tops())
    }

    /// The number of subscriptions.
    pub open spec fn subscription_count(&self) -> nat {
        self.subs().len()
    }

    /// Each id and each topic is kept once, and each topic lists an id once.
    pub open spec fn wf(&self) -> bool {
        &&& unique_keys(self.subs())
        &&& unique_keys(self.tops())
        &&& forall|i: int| 0 <= i < self.tops().len() ==> distinct(#[trigger] self.tops()[i].1)
    }

    /// A client with no subscription.
    pub fn default() -> (r: Self)
        ensures
            r.wf(),
            r.subscription_map() == Map::<Seq<char>, Seq<char>>::empty(),
            r.topic_map() == Map::<Seq<char>, Seq<Seq<char>>>::empty(),
            r.subscription_count() == 0,
    {
        let r = ClientInfo { subscriptions: Vec::new(), topics: Vec::new() };
        assert(r.subs() =~= Seq::empty());
        assert(r.tops() =~= Seq::empty());
        assert(r.subscription_map() =~= Map::empty());
        assert(r.topic_map() =~= Map::empty());
        r
    }

    /// Subscribes `subscription_id` to `topic`, unless the client already
    /// holds 500 subscriptions. An id already subscribed is moved to the
    /// new topic (and stays listed under the old one). Gives the topic
    /// when no id was subscribed to it before.
    pub fn add_subscription(&mut self, subscription_id: &String, topic: &String) -> (r: Option<String>)
        requires
            old(self).wf(),
        ensures
            final(self).wf(),
            subscription_added(*old(self), *final(self), subscription_id@, topic@, r is Some),
            r matches Some(t) ==> t@ == topic@,
    {
        if self.subscriptions.len() >= 500 {
            return None;
        }
        let ghost s0 = self.subs();
        let entry = (subscription_id.clone(), topic.clone());
        match find_key(&self.subscriptions, subscription_id) {
            Some(i) => {
                self.subscriptions.set(i, entry);
                proof {
                    lemma_update(s0, i as int, topic@);
                    lemma_lookup(s0, i as int);
                    assert(self.subs() =~= s0.update(i as int, (s0[i as int].0, topic@)));
                }
            },
            None => {
                self.subscriptions.push(entry);
                proof {
                    assert(!has_key(s0, subscription_id@)) by {
                        if has_key(s0, subscription_id@) {
                            let j = key_index(s0, subscription_id@);
                            assert(self.subscriptions@[j].0@ == s0[j].0);
                        }
                    }
                    lemma_push(s0, subscription_id@, topic@);
                    assert(self.subs() =~= s0.push((subscription_id@, topic@)));
                }
            },
        }
        let ghost t0 = self.tops();
        match find_key(&self.topics, topic) {
            Some(i) => {
                let (name, mut ids) = self.topics.remove(i);
                let was_empty = ids.len() == 0;
                let ghost before = ids_view(ids);
                proof {
                    lemma_lookup(t0, i as int);
                    assert(t0[i as int] == (name@, before));
                    assert(distinct(t0[i as int].1));
                }
                match find_id(&ids, subscription_id) {
                    Some(p) => {
                        proof {
                            assert(before[p as int] == subscription_id@);
                            assert(before.contains(subscription_id@));
                        }
                    },
                    None => {
                        ids.push(subscription_id.clone());
                        proof {
                            assert(!before.contains(subscription_id@)) by {
                                if before.contains(subscription_id@) {
                                    let j = choose|j: int| 0 <= j < before.len() && before[j] == subscription_id@;
                                    assert(ids@[j]@ == before[j]);
                                }
                            }
                            lemma_distinct_push(before, subscription_id@);
                            assert(ids_view(ids) =~= before.push(subscription_id@));
                            assert(ids_view(ids) == with(before, subscription_id@));
                        }
                    },
                }
                assert(ids_view(ids) == with(before, subscription_id@));
                self.topics.insert(i, (name, ids));
                proof {
                    lemma_update(t0, i as int, with(before, subscription_id@));
                    assert(self.tops() =~= t0.update(i as int, (t0[i as int].0, with(before, subscription_id@))));
                    assert forall|j: int| 0 <= j < self.tops().len() implies distinct(#[trigger] self.tops()[j].1) by {
                        if j != i {
                            assert(self.tops()[j] == t0[j]);
                        }
                    }
                }
                if was_empty {
                    Some(topic.clone())
                } else {
                    None
                }
            },
            None => {
                let mut ids: Vec<String> = Vec::new();
                ids.push(subscription_id.clone());
                self.topics.push((topic.clone(), ids));
                proof {
                    assert(!has_key(t0, topic@)) by {
                        if has_key(t0, topic@) {
                            let j = key_index(t0, topic@);
                            assert(self.topics@[j].0@ == t0[j].0);
                        }
                    }
                    assert(ids_view(ids) =~= seq![subscription_id@]);
                    assert(with(Seq::<Seq<char>>::empty(), subscription_id@) =~= seq![subscription_id@]);
                    lemma_push(t0, topic@, seq![subscription_id@]);
                    assert(self.tops() =~= t0.push((topic@, seq![subscription_id@])));
                    assert forall|j: int| 0 <= j < self.tops().len() implies distinct(#[trigger] self.tops()[j].1) by {
                        if j < t0.len() {
                            assert(self.tops()[j] == t0[j]);
                        }
                    }
                }
                Some(topic.clone())
            },
        }
    }

    /// Drops the subscription `subscription_id`, if held, and takes the id
    /// off its topic. Gives the topic when no id is left subscribed to it
    /// (the topic is then forgotten).
    pub fn remove_subscription(&mut self, subscription_id: &String) -> (r: Option<String>)
        requires
            old(self).wf(),
        ensures
            final(self).wf(),
            subscription_removed(
                *old(self),
                *final(self),
                subscription_id@,
                match r {
                    Some(t) => Some(t@),
                    None => None,
                },
            ),
    {
        let ghost s0 = self.subs();
        let i = match find_key(&self.subscriptions, subscription_id) {
            Some(i) => i,
            None => {
                proof {
                    if has_key(s0, subscription_id@) {
                        let j = key_index(s0, subscription_id@);
                        assert(self.subscriptions@[j].0@ == s0[j].0);
                    }
                }
                return None;
            },
        };
        let (_, topic) = self.subscriptions.remove(i);
        proof {
            lemma_lookup(s0, i as int);
            lemma_remove(s0, i as int);
            assert(self.subs() =~= s0.remove(i as int));
        }
        let ghost t0 = self.tops();
        let j = match find_key(&self.topics, &topic) {
            Some(j) => j,
            None => {
                proof {
                    if has_key(t0, topic@) {
                        let k = key_index(t0, topic@);
                        assert(self.topics@[k].0@ == t0[k].0);
                    }
                }
                return None;
            },
        };
        let (name, mut ids) = self.topics.remove(j);
        let ghost before = ids_view(ids);
        proof {
            lemma_lookup(t0, j as int);
            assert(t0[j as int] == (name@, before));
            assert(distinct(before));
        }
        match find_id(&ids, subscription_id) {
            Some(p) => {
                ids.remove(p);
                proof {
                    assert(before[p as int] == subscription_id@);
                    lemma_distinct_remove(before, p as int);
                    assert(ids_view(ids) =~= before.remove(p as int));
                }
            },
            None => {
                proof {
                    assert(!before.contains(subscription_id@)) by {
                        if before.contains(subscription_id@) {
                            let q = choose|q: int| 0 <= q < before.len() && before[q] == subscription_id@;
                            assert(ids@[q]@ == before[q]);
                        }
                    }
                }
            },
        }
        assert(ids_view(ids) == without(before, subscription_id@));
        if ids.len() == 0 {
            proof {
                lemma_remove(t0, j as int);
                assert(self.tops() =~= t0.remove(j as int));
                assert forall|k: int| 0 <= k < self.tops().len() implies distinct(#[trigger] self.tops()[k].1) by {
                    let k2 = if k < j { k } else { k + 1 };
                    assert(self.tops()[k] == t0[k2]);
                }
            }
            Some(topic)
        } else {
            self.topics.insert(j, (name, ids));
            proof {
                lemma_update(t0, j as int, without(before, subscription_id@));
                assert(self.tops() =~= t0.update(j as int, (t0[j as int].0, without(before, subscription_id@))));
                assert forall|k: int| 0 <= k < self.tops().len() implies distinct(#[trigger] self.tops()[k].1) by {
                    if k != j {
                        assert(self.tops()[k] == t0[k]);
                    }
                }
            }
            None
        }
    }

    /// The topics with an id subscribed, each once.
    pub fn all_topics(&self) -> (r: Vec<String>)
        requires
            self.wf(),
        ensures
            r@.len() == self.topic_map().dom().len(),
            forall|x: Seq<char>| #[trigger] self.topic_map().contains_key(x) <==> exists|i: int|
                0 <= i < r@.len() && r@[i]@ == x,
    {
        let mut r: Vec<String> = Vec::new();
        for i in 0..self.topics.len()
            invariant
                r@.len() == i,
                forall|j: int| 0 <= j < i ==> #[trigger] r@[j]@ == self.tops()[j].0,
        {
            r.push(self.topics[i].0.clone());
        }
        proof {
            let t = self.tops();
            assert forall|x: Seq<char>| #[trigger] self.topic_map().contains_key(x) <==> exists|i: int|
                0 <= i < r@.len() && r@[i]@ == x by {
                if self.topic_map().contains_key(x) {
                    let i = key_index(t, x);
                    assert(r@[i]@ == x);
                }
                if exists|i: int| 0 <= i < r@.len() && r@[i]@ == x {
                    let i = choose|i: int| 0 <= i < r@.len() && r@[i]@ == x;
                    assert(t[i].0 == x);
                    assert(has_key(t, x));
                }
            }
            lemma_dom_len(t);
        }
        r
    }

    /// Whether the client holds no subscription and lists no topic.
    pub fn is_empty(&self) -> (r: bool)
        ensures
            r == (self.subscription_map().dom().len() == 0 && self.topic_map().dom().len() == 0),
    {
        proof {
            lemma_dom_len_any(self.subs());
            lemma_dom_len_any(self.tops());
        }
        self.subscriptions.len() == 0 && self.topics.len() == 0
    }
}

} // verus!
