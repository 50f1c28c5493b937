//! The topic registry: which connections are subscribed to which topics.
use vstd::prelude::*;

use crate::ConnId;

verus! {

/// Some entry of `names` reads `k`.
pub open spec fn listed(names: Seq<String>, k: Seq<char>) -> bool {
    exists|i: int| 0 <= i < names.len() && #[trigger] names[i]@ == k
}

/// Some entry of `ms` subscribes `c` to `k`.
pub open spec fn pair_in(ms: Seq<Membership>, k: Seq<char>, c: ConnId) -> bool {
    exists|j: int| 0 <= j < ms.len() && #[trigger] ms[j].topic@ == k && ms[j].conn == c
}

/// No two entries of `ms` subscribe the same connection to the same topic.
pub open spec fn distinct_pairs(ms: Seq<Membership>) -> bool {
    forall|i: int, j: int|
        0 <= i < j < ms.len() ==> !(#[trigger] ms[i].topic@ == #[trigger] ms[j].topic@ && ms[i].conn == ms[j].conn)
}

/// How many entries among the first `n` of `ms` subscribe `c` to `k`.
pub open spec fn count_upto(ms: Seq<Membership>, k: Seq<char>, c: ConnId, n: int) -> nat
    decreases n,
{
    if n <= 0 {
        0
    } else {
        count_upto(ms, k, c, n - 1) + if ms[n - 1].topic@ == k && ms[n - 1].conn == c { 1nat } else { 0nat }
    }
}

/// One subscription of a connection to a topic.
pub struct Membership {
    pub topic: String,
    pub conn: ConnId,
}

/// Mapping from topic name to the set of subscribed connections.
///
/// A topic is created by its first subscription and stays, even with no
/// subscribers, until it is closed.
pub struct TopicRegistry {
    names: Vec<String>,
    members: Vec<Membership>,
}

/// `after` is `before` with `conn` subscribed to each topic of `names`, the
/// missing topics created.
pub open spec fn subscribed(before: TopicRegistry, after: TopicRegistry, names: Seq<String>, conn: ConnId) -> bool {
    &&& forall|k: Seq<char>| #[trigger] after.has_topic(k) == (before.has_topic(k) || listed(names, k))
    &&& forall|k: Seq<char>, c: ConnId|
        #[trigger] after.is_member(k, c) == (before.is_member(k, c) || (listed(names, k) && c == conn))
}

/// `after` is `before` with `conn` taken out of each topic of `names`; the
/// topics themselves stay.
pub open spec fn unsubscribed(before: TopicRegistry, after: TopicRegistry, names: Seq<String>, conn: ConnId) -> bool {
    &&& forall|k: Seq<char>| #[trigger] after.has_topic(k) == before.has_topic(k)
    &&& forall|k: Seq<char>, c: ConnId|
        #[trigger] after.is_member(k, c) == (before.is_member(k, c) && !(listed(names, k) && c == conn))
}

/// `after` is `before` with each connection of `failed` taken out of topic
/// `name`.
pub open spec fn pruned(before: TopicRegistry, after: TopicRegistry, name: Seq<char>, failed: Seq<ConnId>) -> bool {
    &&& forall|k: Seq<char>| #[trigger] after.has_topic(k) == before.has_topic(k)
    &&& forall|k: Seq<char>, c: ConnId|
        #[trigger] after.is_member(k, c) == (before.is_member(k, c) && !(k == name && failed.contains(c)))
}

impl TopicRegistry {
    /// The topic `k` exists.
    pub closed spec fn has_topic(&self, k: Seq<char>) -> bool {
        exists|i: int| 0 <= i < self.names@.len() && #[trigger] self.names@[i]@ == k
    }

    /// The connection `c` is subscribed to topic `k`.
    pub closed spec fn is_member(&self, k: Seq<char>, c: ConnId) -> bool {
        pair_in(self.members@, k, c)
    }

    /// How many times the subscription of `c` to `k` is recorded.
    pub closed spec fn subscription_count(&self, k: Seq<char>, c: ConnId) -> nat {
        count_upto(self.members@, k, c, self.members@.len() as int)
    }

    /// Each subscription is recorded once, and only on an existing topic.
    pub closed spec fn wf(&self) -> bool {
        &&& distinct_pairs(self.members@)
        &&& forall|j: int|
            0 <= j < self.members@.len() ==> self.has_topic(#[trigger] self.members@[j].topic@)
    }

    /// The registry as a map from topic name to its subscribers.
    pub open spec fn view(&self) -> Map<Seq<char>, Set<ConnId>> {
        Map::new(|k: Seq<char>| self.has_topic(k), |k: Seq<char>| Set::new(|c: ConnId| self.is_member(k, c)))
    }

    /// An empty registry.
    pub fn new() -> (r: Self)
        ensures
            r.wf(),
            forall|k: Seq<char>| !r.has_topic(k),
            forall|k: Seq<char>, c: ConnId| !r.is_member(k, c),
    {
        TopicRegistry { names: Vec::new(), members: Vec::new() }
    }

    /// Topic `name` exists.
    pub fn topic_exists(&self, name: &String) -> (r: bool)
        ensures
            r == self@.dom().contains(name@),
    {
        let mut i: usize = 0;
        while i < self.names.len()
            invariant
                0 <= i <= self.names@.len(),
                forall|p: int| 0 <= p < i ==> self.names@[p]@ != name@,
            decreases self.names@.len() - i,
        {
            if self.names[i] == *name {
                return true;
            }
            i = i + 1;
        }
        false
    }

    fn find_member(&self, name: &String, conn: ConnId) -> (r: Option<usize>)
        ensures
            r is None ==> !self.is_member(name@, conn),
            r matches Some(j) ==> j < self.members@.len() && self.members@[j as int].topic@ == name@
                && self.members@[j as int].conn == conn,
    {
        let mut j: usize = 0;
        while j < self.members.len()
            invariant
                0 <= j <= self.members@.len(),
                forall|p: int|
                    0 <= p < j ==> !(self.members@[p].topic@ == name@ && self.members@[p].conn == conn),
            decreases self.members@.len() - j,
        {
            if self.members[j].conn == conn && self.members[j].topic == *name {
                return Some(j);
            }
            j = j + 1;
        }
        None
    }

    fn add_member(&mut self, name: &String, conn: ConnId)
        requires
            old(self).wf(),
        ensures
            final(self).wf(),
            forall|k: Seq<char>| #[trigger] final(self).has_topic(k) == (old(self).has_topic(k) || k == name@),
            forall|k: Seq<char>, c: ConnId|
                #[trigger] final(self).is_member(k, c) == (old(self).is_member(k, c) || (k == name@ && c == conn)),
    {
        let ghost g = *self;
        if !self.topic_exists(name) {
            self.names.push(name.clone());
        }
        let ghost h = *self;
        assert forall|k: Seq<char>| #[trigger] h.has_topic(k) == (g.has_topic(k) || k == name@) by {
            if g.has_topic(k) {
                let i = choose|i: int| 0 <= i < g.names@.len() && #[trigger] g.names@[i]@ == k;
                assert(h.names@[i] == g.names@[i]);
            }
            if h.has_topic(k) && k != name@ {
                let i = choose|i: int| 0 <= i < h.names@.len() && #[trigger] h.names@[i]@ == k;
                assert(g.names@[i] == h.names@[i]);
            }
            if k == name@ && !g.has_topic(k) {
                assert(h.names@[h.names@.len() - 1]@ == k);
            }
        }
        assert(h.members@ == g.members@);
        match self.find_member(name, conn) {
            Some(_) => {},
            None => {
                let m = Membership { topic: name.clone(), conn };
                self.members.push(m);
                assert(self.members@[self.members@.len() - 1].topic@ == name@);
                assert(self.names@ == h.names@);
                assert forall|k: Seq<char>| #[trigger] self.has_topic(k) == h.has_topic(k) by {}
                assert forall|k: Seq<char>, c: ConnId|
                    #[trigger] self.is_member(k, c) == (h.is_member(k, c) || (k == name@ && c == conn)) by {
                    if h.is_member(k, c) {
                        let j = choose|j: int| 0 <= j < h.members@.len() && #[trigger] h.members@[j].topic@ == k
                            && h.members@[j].conn == c;
                        assert(self.members@[j] == h.members@[j]);
                    }
                    if self.is_member(k, c) && !(k == name@ && c == conn) {
                        let j = choose|j: int| 0 <= j < self.members@.len() && #[trigger] self.members@[j].topic@ == k
                            && self.members@[j].conn == c;
                        assert(h.members@[j] == self.members@[j]);
                    }
                }
                assert forall|j: int| 0 <= j < self.members@.len() implies self.has_topic(
                    #[trigger] self.members@[j].topic@) by {
                    if j < h.members@.len() {
                        assert(h.members@[j] == self.members@[j]);
                        assert(h.has_topic(h.members@[j].topic@));
                    } else {
                        assert(h.has_topic(name@));
                    }
                }
            },
        }
    }

    fn remove_member(&mut self, name: &String, conn: ConnId)
        requires
            old(self).wf(),
        ensures
            final(self).wf(),
            forall|k: Seq<char>| #[trigger] final(self).has_topic(k) == old(self).has_topic(k),
            forall|k: Seq<char>, c: ConnId|
                #[trigger] final(self).is_member(k, c) == (old(self).is_member(k, c) && !(k == name@ && c == conn)),
    {
        let ghost g = *self;
        match self.find_member(name, conn) {
            None => {},
            Some(j) => {
                self.members.remove(j);
                assert(self.names@ == g.names@);
                assert forall|k: Seq<char>| #[trigger] self.has_topic(k) == g.has_topic(k) by {}
                assert forall|k: Seq<char>, c: ConnId|
                    #[trigger] self.is_member(k, c) == (g.is_member(k, c) && !(k == name@ && c == conn)) by {
                    if g.is_member(k, c) && !(k == name@ && c == conn) {
                        let p = choose|p: int| 0 <= p < g.members@.len() && #[trigger] g.members@[p].topic@ == k
                            && g.members@[p].conn == c;
                        if p < j {
                            assert(self.members@[p] == g.members@[p]);
                        } else {
                            assert(self.members@[p - 1] == g.members@[p]);
                        }
                    }
                    if self.is_member(k, c) {
                        let q = choose|q: int| 0 <= q < self.members@.len() && #[trigger] self.members@[q].topic@ == k
                            && self.members@[q].conn == c;
                        if q < j {
                            assert(self.members@[q] == g.members@[q]);
                        } else {
                            assert(self.members@[q] == g.members@[q + 1]);
                        }
                    }
                }
                assert forall|a: int, b: int|
                    0 <= a < b < self.members@.len() implies !(#[trigger] self.members@[a].topic@
                        == #[trigger] self.members@[b].topic@ && self.members@[a].conn
                        == self.members@[b].conn) by {
                    let a0 = if a < j { a } else { a + 1 };
                    let b0 = if b < j { b } else { b + 1 };
                    assert(self.members@[a] == g.members@[a0]);
                    assert(self.members@[b] == g.members@[b0]);
                    assert(g.members@[a0].topic@ == g.members@[b0].topic@ ==> g.members@[a0].conn != g.members@[b0].conn);
                }
                assert forall|q: int| 0 <= q < self.members@.len() implies self.has_topic(
                    #[trigger] self.members@[q].topic@) by {
                    let q0 = if q < j { q } else { q + 1 };
                    assert(self.members@[q] == g.members@[q0]);
                    assert(g.has_topic(g.members@[q0].topic@));
                }
            },
        }
    }

    /// Subscribes `conn` to each topic of `names`, creating the topics that
    /// do not exist yet. Subscribing twice is the same as subscribing once.
    pub fn subscribe(&mut self, names: &Vec<String>, conn: ConnId)
        requires
            old(self).wf(),
        ensures
            final(self).wf(),
            subscribed(*old(self), *final(self), names@, conn),
    {
        let ghost g = *self;
        let mut i: usize = 0;
        while i < names.len()
            invariant
                0 <= i <= names@.len(),
                self.wf(),
                forall|k: Seq<char>| #[trigger] self.has_topic(k) == (g.has_topic(k) || listed(names@.take(i as int), k)),
                forall|k: Seq<char>, c: ConnId|
                    #[trigger] self.is_member(k, c) == (g.is_member(k, c) || (listed(names@.take(i as int), k) && c == conn)),
            decreases names@.len() - i,
        {
            let ghost before = names@.take(i as int);
            self.add_member(&names[i], conn);
            let ghost after = names@.take(i + 1);
            assert forall|k: Seq<char>| listed(after, k) == (listed(before, k) || k == names@[i as int]@) by {
                if listed(after, k) {
                    let p = choose|p: int| 0 <= p < after.len() && #[trigger] after[p]@ == k;
                    if p < i {
                        assert(before[p] == after[p]);
                    }
                }
                if listed(before, k) {
                    let p = choose|p: int| 0 <= p < before.len() && #[trigger] before[p]@ == k;
                    assert(before[p] == after[p]);
                }
                assert(after[i as int] == names@[i as int]);
            }
            i = i + 1;
        }
        assert(names@.take(names@.len() as int) == names@);
    }

    /// Removes `conn` from each topic of `names`. A topic that does not exist,
    /// or that `conn` is not subscribed to, is left as it is.
    pub fn unsubscribe(&mut self, names: &Vec<String>, conn: ConnId)
        requires
            old(self).wf(),
        ensures
            final(self).wf(),
            unsubscribed(*old(self), *final(self), names@, conn),
    {
        let ghost g = *self;
        let mut i: usize = 0;
        while i < names.len()
            invariant
                0 <= i <= names@.len(),
                self.wf(),
                forall|k: Seq<char>| #[trigger] self.has_topic(k) == g.has_topic(k),
                forall|k: Seq<char>, c: ConnId|
                    #[trigger] self.is_member(k, c) == (g.is_member(k, c) && !(listed(names@.take(i as int), k) && c == conn)),
            decreases names@.len() - i,
        {
            let ghost before = names@.take(i as int);
            self.remove_member(&names[i], conn);
            let ghost after = names@.take(i + 1);
            assert forall|k: Seq<char>| listed(after, k) == (listed(before, k) || k == names@[i as int]@) by {
                if listed(after, k) {
                    let p = choose|p: int| 0 <= p < after.len() && #[trigger] after[p]@ == k;
                    if p < i {
                        assert(before[p] == after[p]);
                    }
                }
                if listed(before, k) {
                    let p = choose|p: int| 0 <= p < before.len() && #[trigger] before[p]@ == k;
                    assert(before[p] == after[p]);
                }
                assert(after[i as int] == names@[i as int]);
            }
            i = i + 1;
        }
        assert(names@.take(names@.len() as int) == names@);
    }

    /// Removes from topic `name` each connection of `failed`: the second
    /// phase of a publish, for the subscribers whose delivery failed.
    pub fn prune(&mut self, name: &String, failed: &Vec<ConnId>)
        requires
            old(self).wf(),
        ensures
            final(self).wf(),
            pruned(*old(self), *final(self), name@, failed@),
    {
        let ghost g = *self;
        let mut i: usize = 0;
        while i < failed.len()
            invariant
                0 <= i <= failed@.len(),
                self.wf(),
                forall|k: Seq<char>| #[trigger] self.has_topic(k) == g.has_topic(k),
                forall|k: Seq<char>, c: ConnId|
                    #[trigger] self.is_member(k, c) == (g.is_member(k, c) && !(k == name@ && failed@.take(i as int).contains(c))),
            decreases failed@.len() - i,
        {
            let ghost before = failed@.take(i as int);
            self.remove_member(name, failed[i]);
            let ghost after = failed@.take(i + 1);
            assert forall|c: ConnId| after.contains(c) == (before.contains(c) || c == failed@[i as int]) by {
                if after.contains(c) {
                    let p = choose|p: int| 0 <= p < after.len() && after[p] == c;
                    if p < i {
                        assert(before[p] == after[p]);
                    }
                }
                if before.contains(c) {
                    let p = choose|p: int| 0 <= p < before.len() && before[p] == c;
                    assert(before[p] == after[p]);
                }
                assert(after[i as int] == failed@[i as int]);
            }
            i = i + 1;
        }
        assert(failed@.take(failed@.len() as int) == failed@);
    }

    spec fn member_among(&self, k: Seq<char>, c: ConnId, n: int) -> bool {
        exists|p: int| 0 <= p < n && #[trigger] self.members@[p].topic@ == k && self.members@[p].conn == c
    }

    proof fn lemma_member_among_step(&self, k: Seq<char>, c: ConnId, n: int)
        requires
            0 <= n < self.members@.len(),
        ensures
            self.member_among(k, c, n + 1) == (self.member_among(k, c, n) || (self.members@[n].topic@ == k
                && self.members@[n].conn == c)),
    {
        if self.member_among(k, c, n + 1) {
            let p = choose|p: int| 0 <= p < n + 1 && #[trigger] self.members@[p].topic@ == k && self.members@[p].conn == c;
            if p < n {
                assert(self.member_among(k, c, n));
            }
        }
    }

    /// The first phase of a publish: a snapshot of the subscribers of topic
    /// `name`, each once, leaving out `except` (the publishing connection).
    /// A topic that does not exist has no subscribers.
    pub fn recipients(&self, name: &String, except: Option<ConnId>) -> (r: Vec<ConnId>)
        requires
            self.wf(),
        ensures
            r@.no_duplicates(),
            forall|c: ConnId| #[trigger] r@.contains(c) == (self.is_member(name@, c) && except != Some(c)),
    {
        let mut r: Vec<ConnId> = Vec::new();
        let mut j: usize = 0;
        while j < self.members.len()
            invariant
                0 <= j <= self.members@.len(),
                self.wf(),
                r@.no_duplicates(),
                forall|x: ConnId| #[trigger] r@.contains(x) == (except != Some(x) && self.member_among(name@, x, j as int)),
            decreases self.members@.len() - j,
        {
            let c = self.members[j].conn;
            let ghost prev = r@;
            proof {
                assert forall|x: ConnId| self.member_among(name@, x, j + 1) == (self.member_among(name@, x, j as int)
                    || (self.members@[j as int].topic@ == name@ && self.members@[j as int].conn == x)) by {
                    self.lemma_member_among_step(name@, x, j as int);
                }
            }
            if self.members[j].topic == *name && except != Some(c) {
                proof {
                    if prev.contains(c) {
                        let p = choose|p: int|
                            0 <= p < j && #[trigger] self.members@[p].topic@ == name@ && self.members@[p].conn == c;
                        assert(self.members@[p].topic@ == self.members@[j as int].topic@);
                    }
                }
                r.push(c);
                assert forall|x: ConnId| #[trigger] r@.contains(x) == (prev.contains(x) || x == c) by {
                    if r@.contains(x) && x != c {
                        let q = choose|q: int| 0 <= q < r@.len() && r@[q] == x;
                        assert(prev[q] == x);
                    }
                    if prev.contains(x) {
                        let q = choose|q: int| 0 <= q < prev.len() && prev[q] == x;
                        assert(r@[q] == x);
                    }
                    assert(r@[r@.len() - 1] == c);
                }
            }
            j = j + 1;
        }
        proof {
            assert forall|x: ConnId| self.member_among(name@, x, self.members@.len() as int) == self.is_member(name@, x) by {
                if self.is_member(name@, x) {
                    let p = choose|p: int| 0 <= p < self.members@.len() && #[trigger] self.members@[p].topic@ == name@
                        && self.members@[p].conn == x;
                    assert(self.member_among(name@, x, self.members@.len() as int));
                }
            }
        }
        r
    }

    /// Removes topic `name` with all its subscriptions, and returns the
    /// connections that were subscribed to it, each once, for closing.
    pub fn close_topic(&mut self, name: &String) -> (r: Vec<ConnId>)
        requires
            old(self).wf(),
        ensures
            final(self).wf(),
            r@.no_duplicates(),
            forall|c: ConnId| #[trigger] r@.contains(c) == old(self).is_member(name@, c),
            forall|k: Seq<char>| #[trigger] final(self).has_topic(k) == (old(self).has_topic(k) && k != name@),
            forall|k: Seq<char>, c: ConnId|
                #[trigger] final(self).is_member(k, c) == (old(self).is_member(k, c) && k != name@),
    {
        let r = self.recipients(name, None);
        let mut names: Vec<String> = Vec::new();
        let mut i: usize = 0;
        while i < self.names.len()
            invariant
                0 <= i <= self.names@.len(),
                forall|k: Seq<char>| #[trigger] listed(names@, k) == (k != name@ && listed(self.names@.take(i as int), k)),
            decreases self.names@.len() - i,
        {
            let ghost before = self.names@.take(i as int);
            let ghost prev = names@;
            let ghost after = self.names@.take(i + 1);
            assert forall|k: Seq<char>| listed(after, k) == (listed(before, k) || k == self.names@[i as int]@) by {
                if listed(after, k) {
                    let p = choose|p: int| 0 <= p < after.len() && #[trigger] after[p]@ == k;
                    if p < i {
                        assert(before[p] == after[p]);
                    }
                }
                if listed(before, k) {
                    let p = choose|p: int| 0 <= p < before.len() && #[trigger] before[p]@ == k;
                    assert(before[p] == after[p]);
                }
                assert(after[i as int] == self.names@[i as int]);
            }
            if !(self.names[i] == *name) {
                names.push(self.names[i].clone());
                assert forall|k: Seq<char>| listed(names@, k) == (listed(prev, k) || k == self.names@[i as int]@) by {
                    if listed(names@, k) {
                        let p = choose|p: int| 0 <= p < names@.len() && #[trigger] names@[p]@ == k;
                        if p < prev.len() {
                            assert(prev[p] == names@[p]);
                        }
                    }
                    if listed(prev, k) {
                        let p = choose|p: int| 0 <= p < prev.len() && #[trigger] prev[p]@ == k;
                        assert(prev[p] == names@[p]);
                    }
                    assert(names@[prev.len() as int]@ == self.names@[i as int]@);
                }
            }
            assert forall|k: Seq<char>| #[trigger] listed(names@, k) == (k != name@ && listed(after, k)) by {
                assert(listed(after, k) == (listed(before, k) || k == self.names@[i as int]@));
                assert(listed(prev, k) == (k != name@ && listed(before, k)));
                if self.names@[i as int]@ == name@ {
                    assert(names@ == prev);
                } else {
                    assert(listed(names@, k) == (listed(prev, k) || k == self.names@[i as int]@));
                }
            }
            i = i + 1;
        }
        let mut members: Vec<Membership> = Vec::new();
        let mut j: usize = 0;
        while j < self.members.len()
            invariant
                0 <= j <= self.members@.len(),
                self.wf(),
                distinct_pairs(members@),
                forall|k: Seq<char>, c: ConnId|
                    #[trigger] pair_in(members@, k, c) == (k != name@ && self.member_among(k, c, j as int)),
            decreases self.members@.len() - j,
        {
            let ghost prev = members@;
            let ghost mj = self.members@[j as int];
            proof {
                assert forall|k: Seq<char>, c: ConnId| self.member_among(k, c, j + 1) == (self.member_among(k, c, j as int)
                    || (mj.topic@ == k && mj.conn == c)) by {
                    self.lemma_member_among_step(k, c, j as int);
                }
            }
            if !(self.members[j].topic == *name) {
                proof {
                    if pair_in(prev, mj.topic@, mj.conn) {
                        let p = choose|p: int|
                            0 <= p < j && #[trigger] self.members@[p].topic@ == mj.topic@ && self.members@[p].conn == mj.conn;
                        assert(self.members@[p].topic@ == self.members@[j as int].topic@);
                    }
                }
                let m = Membership { topic: self.members[j].topic.clone(), conn: self.members[j].conn };
                members.push(m);
                assert(members@[prev.len() as int] == m);
                assert forall|k: Seq<char>, c: ConnId| #[trigger] pair_in(members@, k, c) == (pair_in(prev, k, c)
                    || (mj.topic@ == k && mj.conn == c)) by {
                    if pair_in(members@, k, c) {
                        let q = choose|q: int| 0 <= q < members@.len() && #[trigger] members@[q].topic@ == k && members@[q].conn == c;
                        if q < prev.len() {
                            assert(prev[q] == members@[q]);
                        }
                    }
                    if pair_in(prev, k, c) {
                        let q = choose|q: int| 0 <= q < prev.len() && #[trigger] prev[q].topic@ == k && prev[q].conn == c;
                        assert(prev[q] == members@[q]);
                    }
                }
                assert forall|a: int, b: int| 0 <= a < b < members@.len() implies !(#[trigger] members@[a].topic@
                    == #[trigger] members@[b].topic@ && members@[a].conn == members@[b].conn) by {
                    assert(members@[a] == prev[a]);
                    if b < prev.len() {
                        assert(members@[b] == prev[b]);
                    }
                }
            }
            j = j + 1;
        }
        let ghost g = *self;
        proof {
            assert(self.names@.take(self.names@.len() as int) == self.names@);
            assert forall|k: Seq<char>, c: ConnId| self.member_among(k, c, self.members@.len() as int) == self.is_member(k, c) by {
                if self.is_member(k, c) {
                    let p = choose|p: int| 0 <= p < self.members@.len() && #[trigger] self.members@[p].topic@ == k
                        && self.members@[p].conn == c;
                    assert(self.member_among(k, c, self.members@.len() as int));
                }
            }
        }
        self.names = names;
        self.members = members;
        proof {
            assert forall|k: Seq<char>| #[trigger] self.has_topic(k) == listed(self.names@, k) by {}
            assert forall|k: Seq<char>| #[trigger] g.has_topic(k) == listed(g.names@, k) by {}
            assert forall|q: int| 0 <= q < self.members@.len() implies self.has_topic(#[trigger] self.members@[q].topic@) by {
                let k = self.members@[q].topic@;
                let c = self.members@[q].conn;
                assert(pair_in(self.members@, k, c));
                assert(g.is_member(k, c));
                let p = choose|p: int| 0 <= p < g.members@.len() && #[trigger] g.members@[p].topic@ == k && g.members@[p].conn == c;
                assert(g.has_topic(g.members@[p].topic@));
                assert(listed(self.names@, k));
            }
        }
        r
    }

    fn contains_conn(v: &Vec<ConnId>, c: ConnId) -> (r: bool)
        ensures
            r == v@.contains(c),
    {
        let mut i: usize = 0;
        while i < v.len()
            invariant
                0 <= i <= v@.len(),
                forall|p: int| 0 <= p < i ==> v@[p] != c,
            decreases v@.len() - i,
        {
            if v[i] == c {
                return true;
            }
            i = i + 1;
        }
        false
    }

    /// Removes every topic and subscription, and returns each connection that
    /// was subscribed anywhere exactly once, however many topics it was in.
    pub fn close_all(&mut self) -> (r: Vec<ConnId>)
        requires
            old(self).wf(),
        ensures
            final(self).wf(),
            r@.no_duplicates(),
            forall|c: ConnId| #[trigger] r@.contains(c) == exists|k: Seq<char>| #[trigger] old(self).is_member(k, c),
            forall|k: Seq<char>| !(#[trigger] final(self).has_topic(k)),
            forall|k: Seq<char>, c: ConnId| !(#[trigger] final(self).is_member(k, c)),
    {
        let mut r: Vec<ConnId> = Vec::new();
        let mut j: usize = 0;
        while j < self.members.len()
            invariant
                0 <= j <= self.members@.len(),
                r@.no_duplicates(),
                forall|x: ConnId| #[trigger] r@.contains(x) == exists|p: int| 0 <= p < j && #[trigger] self.members@[p].conn == x,
            decreases self.members@.len() - j,
        {
            let c = self.members[j].conn;
            let ghost prev = r@;
            if !Self::contains_conn(&r, c) {
                r.push(c);
                assert forall|x: ConnId| #[trigger] r@.contains(x) == (prev.contains(x) || x == c) by {
                    if r@.contains(x) && x != c {
                        let q = choose|q: int| 0 <= q < r@.len() && r@[q] == x;
                        assert(prev[q] == x);
                    }
                    if prev.contains(x) {
                        let q = choose|q: int| 0 <= q < prev.len() && prev[q] == x;
                        assert(r@[q] == x);
                    }
                    assert(r@[r@.len() - 1] == c);
                }
            }
            assert forall|x: ConnId| #[trigger] r@.contains(x) == exists|p: int| 0 <= p < j + 1 && #[trigger] self.members@[p].conn == x by {
                if exists|p: int| 0 <= p < j + 1 && #[trigger] self.members@[p].conn == x {
                    let p = choose|p: int| 0 <= p < j + 1 && #[trigger] self.members@[p].conn == x;
                    if p < j {
                        assert(prev.contains(x));
                    }
                }
            }
            j = j + 1;
        }
        proof {
            assert forall|c: ConnId| #[trigger] r@.contains(c) == exists|k: Seq<char>| #[trigger] self.is_member(k, c) by {
                if exists|p: int| 0 <= p < self.members@.len() && #[trigger] self.members@[p].conn == c {
                    let p = choose|p: int| 0 <= p < self.members@.len() && #[trigger] self.members@[p].conn == c;
                    assert(self.is_member(self.members@[p].topic@, c));
                }
                if exists|k: Seq<char>| #[trigger] self.is_member(k, c) {
                    let k = choose|k: Seq<char>| #[trigger] self.is_member(k, c);
                    let p = choose|p: int| 0 <= p < self.members@.len() && #[trigger] self.members@[p].topic@ == k
                        && self.members@[p].conn == c;
                    assert(self.members@[p].conn == c);
                }
            }
        }
        self.names = Vec::new();
        self.members = Vec::new();
        r
    }

    proof fn lemma_count_upto(&self, k: Seq<char>, c: ConnId, n: int)
        requires
            self.wf(),
            0 <= n <= self.members@.len(),
        ensures
            count_upto(self.members@, k, c, n) == if self.member_among(k, c, n) { 1nat } else { 0nat },
        decreases n,
    {
        if n > 0 {
            self.lemma_count_upto(k, c, n - 1);
            self.lemma_member_among_step(k, c, n - 1);
            if self.member_among(k, c, n - 1) && self.members@[n - 1].topic@ == k && self.members@[n - 1].conn == c {
                let p = choose|p: int| 0 <= p < n - 1 && #[trigger] self.members@[p].topic@ == k && self.members@[p].conn == c;
                assert(self.members@[p].topic@ == self.members@[n - 1].topic@);
            }
        }
    }

    /// A subscription is recorded once if it exists and not at all otherwise.
    pub proof fn lemma_subscription_count(&self, k: Seq<char>, c: ConnId)
        requires
            self.wf(),
        ensures
            self.subscription_count(k, c) == if self.is_member(k, c) { 1nat } else { 0nat },
    {
        self.lemma_count_upto(k, c, self.members@.len() as int);
        if self.is_member(k, c) {
            let p = choose|p: int| 0 <= p < self.members@.len() && #[trigger] self.members@[p].topic@ == k
                && self.members@[p].conn == c;
            assert(self.member_among(k, c, self.members@.len() as int));
        }
    }
}

impl Default for TopicRegistry {
    fn default() -> (r: Self)
        ensures
            r.wf(),
            r@ == Map::<Seq<char>, Set<ConnId>>::empty(),
    {
        let r = TopicRegistry::new();
        proof {
            assert(r@ =~= Map::<Seq<char>, Set<ConnId>>::empty());
        }
        r
    }
}

/// The subscribers that a publish failed to reach: those of `recipients`
/// whose entry in `delivered` is false, each once.
pub fn failed_deliveries(recipients: &Vec<ConnId>, delivered: &Vec<bool>) -> (r: Vec<ConnId>)
    requires
        recipients@.len() == delivered@.len(),
    ensures
        r@.no_duplicates(),
        forall|c: ConnId| #[trigger] r@.contains(c) == exists|i: int|
            0 <= i < recipients@.len() && #[trigger] recipients@[i] == c && !delivered@[i],
{
    let mut r: Vec<ConnId> = Vec::new();
    let mut i: usize = 0;
    while i < recipients.len()
        invariant
            0 <= i <= recipients@.len(),
            recipients@.len() == delivered@.len(),
            r@.no_duplicates(),
            forall|c: ConnId| #[trigger] r@.contains(c) == exists|p: int|
                0 <= p < i && #[trigger] recipients@[p] == c && !delivered@[p],
        decreases recipients@.len() - i,
    {
        let c = recipients[i];
        let ghost prev = r@;
        if !delivered[i] && !TopicRegistry::contains_conn(&r, c) {
            r.push(c);
            assert forall|x: ConnId| #[trigger] r@.contains(x) == (prev.contains(x) || x == c) by {
                if r@.contains(x) && x != c {
                    let q = choose|q: int| 0 <= q < r@.len() && r@[q] == x;
                    assert(prev[q] == x);
                }
                if prev.contains(x) {
                    let q = choose|q: int| 0 <= q < prev.len() && prev[q] == x;
                    assert(r@[q] == x);
                }
                assert(r@[r@.len() - 1] == c);
            }
        }
        assert forall|x: ConnId| #[trigger] r@.contains(x) == exists|p: int|
            0 <= p < i + 1 && #[trigger] recipients@[p] == x && !delivered@[p] by {
            if exists|p: int| 0 <= p < i + 1 && #[trigger] recipients@[p] == x && !delivered@[p] {
                let p = choose|p: int| 0 <= p < i + 1 && #[trigger] recipients@[p] == x && !delivered@[p];
                if p < i {
                    assert(prev.contains(x));
                } else {
                    assert(r@.contains(x));
                }
            }
        }
        i = i + 1;
    }
    r
}

/// Two registries with the same topics and the same subscriptions have the
/// same view.
pub proof fn lemma_same_view(a: TopicRegistry, b: TopicRegistry)
    requires
        forall|k: Seq<char>| #[trigger] a.has_topic(k) == b.has_topic(k),
        forall|k: Seq<char>, c: ConnId| #[trigger] a.is_member(k, c) == b.is_member(k, c),
    ensures
        a@ == b@,
{
    assert forall|k: Seq<char>| a@.dom().contains(k) implies #[trigger] a@[k] == b@[k] by {
        assert(a@[k] =~= b@[k]);
    }
    assert(a@ =~= b@);
}

/// Subscribing a connection to the same topics a second time changes
/// nothing, and each of those subscriptions stays recorded exactly once.
pub proof fn lemma_subscribe_twice(
    r0: TopicRegistry,
    r1: TopicRegistry,
    r2: TopicRegistry,
    names: Seq<String>,
    conn: ConnId,
    k: Seq<char>,
)
    requires
        r0.wf(),
        r1.wf(),
        r2.wf(),
        subscribed(r0, r1, names, conn),
        subscribed(r1, r2, names, conn),
        listed(names, k),
    ensures
        r2@ == r1@,
        r2.subscription_count(k, conn) == 1,
{
    lemma_same_view(r2, r1);
    r2.lemma_subscription_count(k, conn);
}

/// Unsubscribing a connection from topics it is not subscribed to, whether
/// or not they exist, leaves the registry as it was.
pub proof fn lemma_unsubscribe_absent(r0: TopicRegistry, r1: TopicRegistry, names: Seq<String>, conn: ConnId)
    requires
        unsubscribed(r0, r1, names, conn),
        forall|k: Seq<char>| listed(names, k) ==> !r0.is_member(k, conn),
    ensures
        r1@ == r0@,
{
    lemma_same_view(r1, r0);
}

/// After the second phase of a publish, no subscriber whose delivery failed
/// is left on the topic, and every other subscription is as it was.
pub proof fn lemma_failed_subscribers_pruned(
    r0: TopicRegistry,
    r1: TopicRegistry,
    name: Seq<char>,
    failed: Seq<ConnId>,
)
    requires
        pruned(r0, r1, name, failed),
    ensures
        forall|c: ConnId| failed.contains(c) ==> !(#[trigger] r1.is_member(name, c)),
        forall|k: Seq<char>, c: ConnId|
            !(k == name && failed.contains(c)) ==> (#[trigger] r1.is_member(k, c) == r0.is_member(k, c)),
        r1@.dom() == r0@.dom(),
{
    assert(r1@.dom() =~= r0@.dom());
}

} // verus!
