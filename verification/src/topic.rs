//! Topic filters for publish/subscribe: `/`-separated fields where `+`
//! matches any one field and `#` matches the rest, and a table of values
//! stored under filters.
use vstd::prelude::*;

use crate::text::{split, split_chars, str_chars};

verus! {

/// Whether the filter fields `f` match the topic fields `t`: field by
/// field, `+` matching any field and `#` matching everything from there on
/// (also nothing).
pub open spec fn fields_match(f: Seq<Seq<char>>, t: Seq<Seq<char>>) -> bool
    decreases f.len(),
{
    if f.len() == 0 {
        t.len() == 0
    } else if f[0] == seq!['#'] {
        true
    } else if t.len() == 0 {
        false
    } else if f[0] == seq!['+'] || f[0] == t[0] {
        fields_match(f.drop_first(), t.drop_first())
    } else {
        false
    }
}

/// Whether the filter matches the topic, both split at `/`.
pub open spec fn filter_matches(filter: Seq<char>, topic: Seq<char>) -> bool {
    fields_match(split(filter, '/'), split(topic, '/'))
}

/// Whether a field is the one-character text `c`.
fn is_sign(v: &[char], c: char) -> (r: bool)
    ensures
        r == (v@ == seq![c]),
{
    let r = v.len() == 1 && v[0] == c;
    proof {
        if v@ == seq![c] {
            assert(v@[0] == c);
        }
        if r {
            assert(v@ =~= seq![c]);
        }
    }
    r
}

/// Whether the filter fields match the topic fields: see `fields_match`.
fn fields_match_exec(f: &Vec<Vec<char>>, t: &Vec<Vec<char>>) -> (r: bool)
    ensures
        r == fields_match(f@.map_values(|v: Vec<char>| v@), t@.map_values(|v: Vec<char>| v@)),
{
    let ghost fv = f@.map_values(|v: Vec<char>| v@);
    let ghost tv = t@.map_values(|v: Vec<char>| v@);
    let mut i: usize = 0;
    assert(fv.skip(0) =~= fv);
    assert(tv.skip(0) =~= tv);
    while i < f.len()
        invariant
            fv == f@.map_values(|v: Vec<char>| v@),
            tv == t@.map_values(|v: Vec<char>| v@),
            i <= f.len(),
            i <= t.len(),
            fields_match(fv, tv) == fields_match(fv.skip(i as int), tv.skip(i as int)),
        decreases f.len() - i,
    {
        let ghost fs = fv.skip(i as int);
        let ghost ts = tv.skip(i as int);
        assert(fs[0] == f@[i as int]@);
        if is_sign(f[i].as_slice(), '#') {
            return true;
        }
        if i >= t.len() {
            return false;
        }
        assert(ts[0] == t@[i as int]@);
        if is_sign(f[i].as_slice(), '+') || crate::text::chars_eq(f[i].as_slice(), t[i].as_slice()) {
            assert(fs.drop_first() =~= fv.skip(i + 1));
            assert(ts.drop_first() =~= tv.skip(i + 1));
            i = i + 1;
        } else {
            return false;
        }
    }
    assert(fv.skip(i as int).len() == 0);
    i == t.len()
}

/// Whether the filter matches the topic: both are split at `/`, and they
/// match field by field, where `+` matches any one field and `#` matches
/// everything from there on, even nothing.
pub fn topic_matches(filter: &str, topic: &str) -> (r: bool)
    ensures
        r == filter_matches(filter@, topic@),
{
    let f = split_chars(str_chars(filter).as_slice(), '/');
    let t = split_chars(str_chars(topic).as_slice(), '/');
    assert(f@.map_values(|v: Vec<char>| v@) =~= split(filter@, '/'));
    assert(t@.map_values(|v: Vec<char>| v@) =~= split(topic@, '/'));
    fields_match_exec(&f, &t)
}

/// Whether the filter fields match the topic fields: see `fields_match`.
pub fn topic_matches_iter(filter: &[&str], topic: &[&str]) -> (r: bool)
    ensures
        r == fields_match(
            filter@.map_values(|s: &str| s@),
            topic@.map_values(|s: &str| s@),
        ),
{
    let mut f: Vec<Vec<char>> = Vec::new();
    for i in 0..filter.len()
        invariant
            f@.map_values(|v: Vec<char>| v@) == filter@.take(i as int).map_values(|s: &str| s@),
    {
        let c = str_chars(filter[i]);
        assert(c@ == filter@[i as int]@);
        let ghost before = f@;
        f.push(c);
        assert(f@.map_values(|v: Vec<char>| v@) =~= before.map_values(|v: Vec<char>| v@).push(c@));
        assert(f@.map_values(|v: Vec<char>| v@) =~= filter@.take(i + 1).map_values(|s: &str| s@));
    }
    let mut t: Vec<Vec<char>> = Vec::new();
    for i in 0..topic.len()
        invariant
            t@.map_values(|v: Vec<char>| v@) == topic@.take(i as int).map_values(|s: &str| s@),
    {
        let c = str_chars(topic[i]);
        assert(c@ == topic@[i as int]@);
        let ghost before = t@;
        t.push(c);
        assert(t@.map_values(|v: Vec<char>| v@) =~= before.map_values(|v: Vec<char>| v@).push(c@));
        assert(t@.map_values(|v: Vec<char>| v@) =~= topic@.take(i + 1).map_values(|s: &str| s@));
    }
    assert(filter@.take(filter@.len() as int) =~= filter@);
    assert(topic@.take(topic@.len() as int) =~= topic@);
    fields_match_exec(&f, &t)
}

/// Values stored under topic filters, each filter once, in the order the
/// filters were first stored; `removed` counts the filters emptied since
/// the table was last pruned or cleared (their places are kept until then).
pub struct TopicMatcher<T> {
    entries: Vec<(String, T)>,
    removed: usize,
}

/// The index of the entry stored under `filter`, if any.
pub open spec fn find_entry<T>(entries: Seq<(Seq<char>, T)>, filter: Seq<char>) -> Option<int> {
    if exists|i: int| 0 <= i < entries.len() && entries[i].0 == filter {
        Some(choose|i: int| 0 <= i < entries.len() && entries[i].0 == filter)
    } else {
        None
    }
}

/// Whether each filter is stored once.
pub open spec fn keys_unique<T>(entries: Seq<(Seq<char>, T)>) -> bool {
    forall|i: int, j: int| 0 <= i < j < entries.len() ==> entries[i].0 != entries[j].0
}

impl<T> TopicMatcher<T> {
    /// The stored filters and values, in storing order.
    pub closed spec fn entries(&self) -> Seq<(Seq<char>, T)> {
        self.entries@.map_values(|e: (String, T)| (e.0@, e.1))
    }

    /// How many filters were emptied since the last prune or clear.
    pub closed spec fn removed_count(&self) -> nat {
        self.removed as nat
    }

    /// Each filter is stored once.
    pub open spec fn wf(&self) -> bool {
        keys_unique(self.entries())
    }

    /// An empty table.
    pub fn new() -> (r: Self)
        ensures
            r.entries().len() == 0,
            r.removed_count() == 0,
            r.wf(),
    {
        let r = TopicMatcher { entries: Vec::new(), removed: 0 };
        assert(r.entries() =~= Seq::<(Seq<char>, T)>::empty());
        r
    }

    /// Whether nothing is stored and no emptied filter keeps its place.
    pub fn is_empty(&self) -> (r: bool)
        ensures
            r == (self.entries().len() == 0 && self.removed_count() == 0),
    {
        self.entries.len() == 0 && self.removed == 0
    }

    /// Removes everything.
    pub fn clear(&mut self)
        ensures
            final(self).entries().len() == 0,
            final(self).removed_count() == 0,
            final(self).wf(),
    {
        self.entries = Vec::new();
        self.removed = 0;
        assert(self.entries() =~= Seq::<(Seq<char>, T)>::empty());
    }

    /// The index of the entry under `filter`.
    fn index_of(&self, filter: &[char]) -> (r: Option<usize>)
        ensures
            match r {
                Some(i) => i < self.entries().len() && self.entries()[i as int].0 == filter@,
                None => forall|i: int| 0 <= i < self.entries().len() ==> self.entries()[i].0 != filter@,
            },
    {
        for i in 0..self.entries.len()
            invariant
                forall|j: int| 0 <= j < i ==> self.entries()[j].0 != filter@,
        {
            let k = str_chars(self.entries[i].0.as_str());
            assert(self.entries()[i as int].0 == k@);
            if crate::text::chars_eq(k.as_slice(), filter) {
                return Some(i);
            }
        }
        None
    }

    /// Stores `val` under `filter`, replacing a value stored there.
    pub fn insert(&mut self, filter: String, val: T)
        requires
            old(self).wf(),
        ensures
            final(self).wf(),
            final(self).removed_count() == old(self).removed_count(),
            match find_entry(old(self).entries(), filter@) {
                Some(i) => final(self).entries() == old(self).entries().update(i, (filter@, val)),
                None => final(self).entries() == old(self).entries().push((filter@, val)),
            },
    {
        let fc = str_chars(filter.as_str());
        match self.index_of(fc.as_slice()) {
            Some(i) => {
                proof {
                    let e = self.entries();
                    assert(e[i as int].0 == filter@);
                    let j = choose|j: int| 0 <= j < e.len() && e[j].0 == filter@;
                    assert(j == i as int);
                }
                self.entries.set(i, (filter, val));
                assert(self.entries() =~= old(self).entries().update(i as int, (fc@, val)));
            },
            None => {
                self.entries.push((filter, val));
                assert(self.entries() =~= old(self).entries().push((fc@, val)));
            },
        }
    }

    /// The value stored under `filter`, if any.
    pub fn get(&self, filter: &str) -> (r: Option<&T>)
        requires
            self.wf(),
        ensures
            match find_entry(self.entries(), filter@) {
                Some(i) => r == Some(&self.entries()[i].1),
                None => r is None,
            },
    {
        match self.get_key_value(filter) {
            Some((_, v)) => Some(v),
            None => None,
        }
    }

    /// The filter and value stored under `filter`, if any.
    pub fn get_key_value(&self, filter: &str) -> (r: Option<(&str, &T)>)
        requires
            self.wf(),
        ensures
            match find_entry(self.entries(), filter@) {
                Some(i) => r matches Some((k, v)) && k@ == filter@ && *v == self.entries()[i].1,
                None => r is None,
            },
    {
        let fc = str_chars(filter);
        match self.index_of(fc.as_slice()) {
            Some(i) => {
                proof {
                    let e = self.entries();
                    let j = choose|j: int| 0 <= j < e.len() && e[j].0 == filter@;
                    assert(j == i as int);
                }
                let e = &self.entries[i];
                Some((e.0.as_str(), &e.1))
            },
            None => None,
        }
    }

    /// The value stored under `filter`, if any, to change in place.
    pub fn get_mut(&mut self, filter: &str) -> (r: Option<&mut T>)
        requires
            old(self).wf(),
        ensures
            match find_entry(old(self).entries(), filter@) {
                Some(i) => r matches Some(v) && *v == old(self).entries()[i].1 && final(self).entries() == old(
                    self,
                ).entries().update(i, (filter@, *final(v))) && final(self).removed_count() == old(
                    self,
                ).removed_count(),
                None => r is None && *final(self) == *old(self),
            },
    {
        let fc = str_chars(filter);
        match self.index_of(fc.as_slice()) {
            Some(i) => {
                proof {
                    let e = self.entries();
                    let j = choose|j: int| 0 <= j < e.len() && e[j].0 == filter@;
                    assert(j == i as int);
                }
                Some(&mut self.entries[i].1)
            },
            None => None,
        }
    }

    /// Takes out the value stored under `filter`, if any; its place is kept
    /// until the next prune.
    pub fn remove(&mut self, filter: &str) -> (r: Option<T>)
        requires
            old(self).wf(),
            old(self).removed_count() < usize::MAX,
        ensures
            final(self).wf(),
            match find_entry(old(self).entries(), filter@) {
                Some(i) => r == Some(old(self).entries()[i].1) && final(self).entries() == old(
                    self,
                ).entries().remove(i) && final(self).removed_count() == old(self).removed_count() + 1,
                None => r is None && final(self).entries() == old(self).entries()
                    && final(self).removed_count() == old(self).removed_count(),
            },
    {
        let fc = str_chars(filter);
        match self.index_of(fc.as_slice()) {
            Some(i) => {
                proof {
                    let e = self.entries();
                    let j = choose|j: int| 0 <= j < e.len() && e[j].0 == filter@;
                    assert(j == i as int);
                }
                let (_, v) = self.entries.remove(i);
                self.removed = self.removed + 1;
                assert(self.entries() =~= old(self).entries().remove(i as int));
                Some(v)
            },
            None => None,
        }
    }

    /// Forgets the places of emptied filters.
    pub fn prune(&mut self)
        ensures
            final(self).entries() == old(self).entries(),
            final(self).removed_count() == 0,
    {
        self.removed = 0;
    }

    /// Forgets the places of emptied filters.
    pub fn shrink_to_fit(&mut self)
        ensures
            final(self).entries() == old(self).entries(),
            final(self).removed_count() == 0,
    {
        self.removed = 0;
    }

    /// The stored filters and values, in storing order.
    pub fn iter(&self) -> (r: Vec<(&str, &T)>)
        ensures
            r@.len() == self.entries().len(),
            forall|i: int|
                0 <= i < r@.len() ==> (#[trigger] r@[i]).0@ == self.entries()[i].0 && *r@[i].1
                    == self.entries()[i].1,
    {
        let mut r: Vec<(&str, &T)> = Vec::new();
        for i in 0..self.entries.len()
            invariant
                r@.len() == i,
                forall|j: int|
                    0 <= j < i ==> (#[trigger] r@[j]).0@ == self.entries()[j].0 && *r@[j].1 == self.entries()[j].1,
        {
            let e = &self.entries[i];
            r.push((e.0.as_str(), &e.1));
        }
        r
    }

    /// The stored filters that match `topic`, with their values, in storing order.
    pub fn matches(&self, topic: &str) -> (r: Vec<(&str, &T)>)
        ensures
            r@.len() == matching(self.entries(), topic@, self.entries().len() as int).len(),
            forall|i: int|
                0 <= i < r@.len() ==> (#[trigger] r@[i]).0@ == matching(
                    self.entries(),
                    topic@,
                    self.entries().len() as int,
                )[i].0 && *r@[i].1 == matching(self.entries(), topic@, self.entries().len() as int)[i].1,
    {
        let mut r: Vec<(&str, &T)> = Vec::new();
        let ghost es = self.entries();
        for i in 0..self.entries.len()
            invariant
                es == self.entries(),
                r@.len() == matching(es, topic@, i as int).len(),
                forall|j: int|
                    0 <= j < r@.len() ==> (#[trigger] r@[j]).0@ == matching(es, topic@, i as int)[j].0 && *r@[j].1
                        == matching(es, topic@, i as int)[j].1,
        {
            let e = &self.entries[i];
            assert(es[i as int] == (e.0@, e.1));
            if topic_matches(e.0.as_str(), topic) {
                r.push((e.0.as_str(), &e.1));
            }
        }
        r
    }

    /// Whether some stored filter matches `topic`.
    pub fn has_match(&self, topic: &str) -> (r: bool)
        ensures
            r == (matching(self.entries(), topic@, self.entries().len() as int).len() > 0),
    {
        self.matches(topic).len() > 0
    }
}

/// The entries among the first `k` whose filter matches `topic`.
pub open spec fn matching<T>(entries: Seq<(Seq<char>, T)>, topic: Seq<char>, k: int) -> Seq<(Seq<char>, T)>
    decreases k,
{
    if k <= 0 {
        Seq::empty()
    } else {
        matching(entries, topic, k - 1) + if filter_matches(entries[k - 1].0, topic) {
            seq![entries[k - 1]]
        } else {
            Seq::empty()
        }
    }
}

impl<T: Clone> TopicMatcher<T> {
    /// Stores a copy of `val` under each of `filters`.
    pub fn insert_many(&mut self, filters: &[&str], val: T)
        requires
            old(self).wf(),
        ensures
            final(self).wf(),
            final(self).removed_count() == old(self).removed_count(),
            forall|i: int|
                0 <= i < filters@.len() ==> find_entry(final(self).entries(), (#[trigger] filters@[i])@) is Some,
    {
        for k in 0..filters.len()
            invariant
                self.wf(),
                self.removed_count() == old(self).removed_count(),
                forall|i: int| 0 <= i < k ==> find_entry(self.entries(), (#[trigger] filters@[i])@) is Some,
        {
            let f = filters[k].to_owned();
            let ghost before = self.entries();
            self.insert(f, val.clone());
            proof {
                assert forall|i: int| 0 <= i <= k implies find_entry(self.entries(), (#[trigger] filters@[i])@) is Some by {
                    let key = filters@[i]@;
                    let j = choose|j: int| 0 <= j < before.len() && before[j].0 == key;
                    if i < k {
                        if find_entry(before, filters@[k as int]@) is Some {
                            assert(self.entries()[j].0 == key);
                        } else {
                            assert(self.entries()[j].0 == key);
                        }
                    } else {
                        if find_entry(before, key) is Some {
                            let m = find_entry(before, key).unwrap();
                            assert(self.entries()[m].0 == key);
                        } else {
                            assert(self.entries()[before.len() as int].0 == key);
                        }
                    }
                }
            }
        }
    }
}

/// Whether no field of `f` is a wildcard.
pub open spec fn literal_fields(f: Seq<Seq<char>>) -> bool {
    forall|i: int| 0 <= i < f.len() ==> #[trigger] f[i] != seq!['+'] && f[i] != seq!['#']
}

/// A filter without wildcards matches exactly the topic with the same
/// fields: a literal field matches only an identical field.
pub proof fn law_literal_filter_matches_itself(f: Seq<Seq<char>>, t: Seq<Seq<char>>)
    requires
        literal_fields(f),
    ensures
        fields_match(f, t) <==> f == t,
    decreases f.len(),
{
    if f.len() > 0 {
        assert(f[0] != seq!['+'] && f[0] != seq!['#']);
        let f1 = f.drop_first();
        assert(literal_fields(f1)) by {
            assert forall|i: int| 0 <= i < f1.len() implies #[trigger] f1[i] != seq!['+'] && f1[i] != seq!['#'] by {
                assert(f1[i] == f[i + 1]);
            }
        }
        if t.len() > 0 {
            law_literal_filter_matches_itself(f1, t.drop_first());
            if f == t {
                assert(f1 == t.drop_first());
            }
            if f[0] == t[0] && f1 == t.drop_first() {
                assert(f =~= t) by {
                    assert forall|i: int| 0 <= i < f.len() implies f[i] == t[i] by {
                        if i > 0 {
                            assert(f[i] == f1[i - 1]);
                            assert(t[i] == t.drop_first()[i - 1]);
                        }
                    }
                }
            }
        }
    } else {
        if t.len() == 0 {
            assert(f =~= t);
        }
    }
}

/// Whether no field of `f` is `#`.
pub open spec fn no_rest_field(f: Seq<Seq<char>>) -> bool {
    forall|i: int| 0 <= i < f.len() ==> #[trigger] f[i] != seq!['#']
}

/// A filter without `#` matches exactly the topics with as many fields,
/// each field equal to the filter's or matched by a `+` there.
pub proof fn law_filter_fields_match(f: Seq<Seq<char>>, t: Seq<Seq<char>>)
    requires
        no_rest_field(f),
    ensures
        fields_match(f, t) <==> f.len() == t.len() && forall|i: int|
            0 <= i < f.len() ==> #[trigger] f[i] == seq!['+'] || f[i] == t[i],
    decreases f.len(),
{
    if f.len() > 0 && t.len() > 0 {
        let f1 = f.drop_first();
        let t1 = t.drop_first();
        assert(no_rest_field(f1)) by {
            assert forall|i: int| 0 <= i < f1.len() implies #[trigger] f1[i] != seq!['#'] by {
                assert(f1[i] == f[i + 1]);
            }
        }
        law_filter_fields_match(f1, t1);
        assert(f[0] != seq!['#']);
        if f.len() == t.len() && forall|i: int| 0 <= i < f.len() ==> #[trigger] f[i] == seq!['+'] || f[i] == t[i] {
            assert(f[0] == seq!['+'] || f[0] == t[0]);
            assert forall|i: int| 0 <= i < f1.len() implies #[trigger] f1[i] == seq!['+'] || f1[i] == t1[i] by {
                assert(f1[i] == f[i + 1] && t1[i] == t[i + 1]);
            }
        }
        if fields_match(f, t) {
            assert forall|i: int| 0 <= i < f.len() implies #[trigger] f[i] == seq!['+'] || f[i] == t[i] by {
                if i > 0 {
                    assert(f1[i - 1] == f[i] && t1[i - 1] == t[i]);
                }
            }
        }
    } else if f.len() > 0 {
        assert(f[0] != seq!['#']);
    }
}

} // verus!
