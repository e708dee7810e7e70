//! The notification hub: a broadcast of changed document stems to every
//! connected session, through bounded inboxes, with the latest stems kept for
//! sessions that join later.
use vstd::prelude::*;

verus! {

/// One session's inbox: the stems not yet forwarded, oldest first.
struct Inbox {
    id: u64,
    queue: Vec<String>,
}

/// The hub's state, as the contracts see it.
pub struct HubState {
    /// The most stems an inbox holds.
    pub capacity: nat,
    /// The stems published so far, each once, in the order of their latest publication.
    pub latest: Seq<Seq<char>>,
    /// Each session's identifier and inbox, in the order of subscription.
    pub sessions: Seq<(u64, Seq<Seq<char>>)>,
    /// The identifier that the next session receives.
    pub next_id: nat,
}

/// Broadcasts notifications to sessions. Publishing never waits on a session:
/// where an inbox is full its oldest stem is dropped.
pub struct Hub {
    capacity: usize,
    latest: Vec<String>,
    sessions: Vec<Inbox>,
    next_id: u64,
}

pub open spec fn texts(v: Seq<String>) -> Seq<Seq<char>> {
    v.map_values(|s: String| s@)
}

spec fn inboxes(v: Seq<Inbox>) -> Seq<(u64, Seq<Seq<char>>)> {
    v.map_values(|b: Inbox| (b.id, texts(b.queue@)))
}

/// A sequence without the occurrences of one element.
pub open spec fn without(xs: Seq<Seq<char>>, x: Seq<char>) -> Seq<Seq<char>>
    decreases xs.len(),
{
    if xs.len() == 0 {
        xs
    } else if xs.last() == x {
        without(xs.drop_last(), x)
    } else {
        without(xs.drop_last(), x).push(xs.last())
    }
}

pub open spec fn distinct(xs: Seq<Seq<char>>) -> bool {
    forall|i: int, j: int| 0 <= i < j < xs.len() ==> xs[i] != xs[j]
}

/// An inbox after a stem arrives: where it overflows, the oldest stem goes.
pub open spec fn bounded_push(q: Seq<Seq<char>>, x: Seq<char>, capacity: nat) -> Seq<Seq<char>> {
    let p = q.push(x);
    if p.len() > capacity {
        p.drop_first()
    } else {
        p
    }
}

/// What a new session finds in its inbox: the most recent stems, as many as fit.
pub open spec fn replay(latest: Seq<Seq<char>>, capacity: nat) -> Seq<Seq<char>> {
    if latest.len() > capacity {
        latest.subrange(latest.len() - capacity, latest.len() as int)
    } else {
        latest
    }
}

/// The hub after a stem is published.
pub open spec fn publish_spec(h: HubState, stem: Seq<char>) -> HubState {
    HubState {
        latest: without(h.latest, stem).push(stem),
        sessions: h.sessions.map_values(|s: (u64, Seq<Seq<char>>)| (s.0, bounded_push(s.1, stem, h.capacity))),
        ..h
    }
}

/// The hub after a session subscribes.
pub open spec fn subscribe_spec(h: HubState) -> HubState {
    HubState {
        sessions: h.sessions.push((h.next_id as u64, replay(h.latest, h.capacity))),
        next_id: h.next_id + 1,
        ..h
    }
}

/// The position of the first session with an identifier, at or after `i`, or -1.
pub open spec fn find_from(sessions: Seq<(u64, Seq<Seq<char>>)>, id: u64, i: int) -> int
    decreases sessions.len() - i,
{
    if i < 0 || i >= sessions.len() {
        -1
    } else if sessions[i].0 == id {
        i
    } else {
        find_from(sessions, id, i + 1)
    }
}

/// The position of the session with an identifier, or -1.
pub open spec fn find(sessions: Seq<(u64, Seq<Seq<char>>)>, id: u64) -> int {
    find_from(sessions, id, 0)
}

proof fn lemma_find_from(sessions: Seq<(u64, Seq<Seq<char>>)>, id: u64, i: int)
    ensures
        find_from(sessions, id, i) == -1 || (i <= find_from(sessions, id, i) < sessions.len()
            && sessions[find_from(sessions, id, i)].0 == id),
    decreases sessions.len() - i,
{
    if 0 <= i < sessions.len() && sessions[i].0 != id {
        lemma_find_from(sessions, id, i + 1);
    }
}

/// The invariant of a hub: inboxes within capacity, each stem kept once, and
/// session identifiers distinct and below the next one.
pub open spec fn hub_wf(h: HubState) -> bool {
    &&& h.capacity > 0
    &&& distinct(h.latest)
    &&& forall|i: int| 0 <= i < h.sessions.len() ==> (#[trigger] h.sessions[i]).1.len() <= h.capacity
    &&& forall|i: int| 0 <= i < h.sessions.len() ==> (#[trigger] h.sessions[i]).0 < h.next_id
    &&& forall|i: int, j: int| 0 <= i < j < h.sessions.len() ==> h.sessions[i].0 != h.sessions[j].0
    &&& h.next_id <= u64::MAX
}

proof fn lemma_without(xs: Seq<Seq<char>>, x: Seq<char>)
    ensures
        forall|i: int| 0 <= i < without(xs, x).len() ==> without(xs, x)[i] != x,
        forall|y: Seq<char>| !xs.contains(y) ==> !without(xs, x).contains(y),
        distinct(xs) ==> distinct(without(xs, x)),
    decreases xs.len(),
{
    if xs.len() > 0 {
        let init = xs.drop_last();
        lemma_without(init, x);
        assert forall|y: Seq<char>| !xs.contains(y) implies !without(xs, x).contains(y) by {
            if init.contains(y) {
                let k = choose|k: int| 0 <= k < init.len() && init[k] == y;
                assert(xs[k] == y);
            }
        }
        if distinct(xs) {
            assert(!init.contains(xs.last())) by {
                if init.contains(xs.last()) {
                    let k = choose|k: int| 0 <= k < init.len() && init[k] == xs.last();
                    assert(xs[k] == xs[xs.len() - 1]);
                }
            }
            assert(distinct(init));
            let w = without(init, x);
            assert(!w.contains(xs.last()));
            if xs.last() != x {
                assert forall|i: int, j: int| 0 <= i < j < w.push(xs.last()).len() implies w.push(xs.last())[i] != w.push(xs.last())[j] by {
                    if j == w.len() {
                        assert(w.push(xs.last())[i] == w[i]);
                    }
                }
            }
        }
    }
}

/// The hub after a session ends.
pub open spec fn close_spec(h: HubState, id: u64) -> HubState {
    let k = find(h.sessions, id);
    if k < 0 {
        h
    } else {
        HubState { sessions: h.sessions.remove(k), ..h }
    }
}

/// The inbox of the session with an identifier, if there is one.
pub open spec fn inbox_of(h: HubState, id: u64) -> Option<Seq<Seq<char>>> {
    let k = find(h.sessions, id);
    if k < 0 {
        None
    } else {
        Some(h.sessions[k].1)
    }
}

proof fn lemma_find_at(ss: Seq<(u64, Seq<Seq<char>>)>, id: u64, i: int, j: int)
    requires
        0 <= i <= j < ss.len(),
        ss[j].0 == id,
        forall|m: int| i <= m < j ==> ss[m].0 != id,
    ensures
        find_from(ss, id, i) == j,
    decreases j - i,
{
    if i < j {
        lemma_find_at(ss, id, i + 1, j);
    }
}

proof fn lemma_find_absent(ss: Seq<(u64, Seq<Seq<char>>)>, id: u64, i: int)
    requires
        0 <= i <= ss.len(),
        forall|m: int| i <= m < ss.len() ==> ss[m].0 != id,
    ensures
        find_from(ss, id, i) == -1,
    decreases ss.len() - i,
{
    if i < ss.len() {
        lemma_find_absent(ss, id, i + 1);
    }
}

/// A session that subscribes after a stem was published finds that stem in its
/// inbox exactly once, as the newest entry.
pub proof fn lemma_late_joiner_receives_once(h: HubState, stem: Seq<char>)
    requires
        hub_wf(h),
        h.next_id < u64::MAX,
    ensures
        ({
            let q = subscribe_spec(publish_spec(h, stem)).sessions.last().1;
            &&& q.len() >= 1
            &&& q.last() == stem
            &&& forall|i: int| 0 <= i < q.len() - 1 ==> q[i] != stem
        }),
{
    lemma_without(h.latest, stem);
    let w = without(h.latest, stem);
    let l = w.push(stem);
    let q = replay(l, h.capacity);
    assert(subscribe_spec(publish_spec(h, stem)).sessions.last().1 == q);
    if l.len() > h.capacity {
        let start = l.len() - h.capacity;
        assert forall|i: int| 0 <= i < q.len() - 1 implies q[i] != stem by {
            assert(q[i] == l[start + i]);
            assert(l[start + i] == w[start + i]);
        }
    } else {
        assert forall|i: int| 0 <= i < q.len() - 1 implies q[i] != stem by {
            assert(q[i] == w[i]);
        }
    }
}

/// Publishing never waits on a full inbox: every session, full or not, receives
/// the stem as its newest entry; a full one loses only its oldest stem.
pub proof fn lemma_publish_reaches_every_session(h: HubState, stem: Seq<char>, j: int)
    requires
        hub_wf(h),
        0 <= j < h.sessions.len(),
    ensures
        ({
            let q = publish_spec(h, stem).sessions[j].1;
            let before = h.sessions[j].1;
            &&& publish_spec(h, stem).sessions[j].0 == h.sessions[j].0
            &&& q.last() == stem
            &&& before.len() < h.capacity ==> q == before.push(stem)
            &&& before.len() == h.capacity ==> q == before.drop_first().push(stem)
        }),
{
    let before = h.sessions[j].1;
    if before.len() == h.capacity {
        assert(before.push(stem).drop_first() =~= before.drop_first().push(stem));
    }
}

/// Ending one session leaves the inbox of every other session as it was.
pub proof fn lemma_close_isolates(h: HubState, id: u64, other: u64)
    requires
        hub_wf(h),
        other != id,
    ensures
        inbox_of(close_spec(h, id), other) == inbox_of(h, other),
{
    let ss = h.sessions;
    let k = find(ss, id);
    lemma_find_from(ss, id, 0);
    if k >= 0 {
        let rs = ss.remove(k);
        let j = find(ss, other);
        lemma_find_from(ss, other, 0);
        if j >= 0 {
            assert(j != k);
            let j2 = if j < k { j } else { j - 1 };
            assert(rs[j2] == ss[j]);
            assert forall|m: int| 0 <= m < j2 implies rs[m].0 != other by {
                let m2 = if m < k { m } else { m + 1 };
                assert(rs[m] == ss[m2]);
            }
            lemma_find_at(rs, other, 0, j2);
        } else {
            assert forall|m: int| 0 <= m < rs.len() implies rs[m].0 != other by {
                let m2 = if m < k { m } else { m + 1 };
                assert(rs[m] == ss[m2]);
                if ss[m2].0 == other {
                    lemma_find_at(ss, other, 0, m2);
                }
            }
            lemma_find_absent(rs, other, 0);
        }
    }
}

proof fn lemma_texts_push(v: Seq<String>, x: String)
    ensures
        texts(v.push(x)) == texts(v).push(x@),
{
    assert(texts(v.push(x)) =~= texts(v).push(x@));
}

proof fn lemma_inboxes_push(v: Seq<Inbox>, b: Inbox)
    ensures
        inboxes(v.push(b)) == inboxes(v).push((b.id, texts(b.queue@))),
{
    assert(inboxes(v.push(b)) =~= inboxes(v).push((b.id, texts(b.queue@))));
}

/// Copies the stems of a vector from a position to its end.
fn copy_from(v: &Vec<String>, start: usize) -> (r: Vec<String>)
    requires
        start <= v.len(),
    ensures
        texts(r@) == texts(v@).subrange(start as int, v.len() as int),
{
    let mut r: Vec<String> = Vec::new();
    let mut i: usize = start;
    while i < v.len()
        invariant
            start <= i <= v.len(),
            texts(r@) == texts(v@).subrange(start as int, i as int),
        decreases v.len() - i,
    {
        let ghost before = r@;
        let x = v[i].clone();
        r.push(x);
        proof {
            lemma_texts_push(before, x);
            assert(texts(v@).subrange(start as int, i + 1) =~= texts(v@).subrange(start as int, i as int).push(v@[i as int]@));
        }
        i = i + 1;
    }
    r
}

impl Hub {
    /// The hub's state, as the contracts see it.
    pub closed spec fn model(&self) -> HubState {
        HubState {
            capacity: self.capacity as nat,
            latest: texts(self.latest@),
            sessions: inboxes(self.sessions@),
            next_id: self.next_id as nat,
        }
    }

    pub open spec fn wf(&self) -> bool {
        hub_wf(self.model())
    }

    /// A hub without sessions, whose inboxes hold at most `capacity` stems.
    pub fn new(capacity: usize) -> (r: Hub)
        requires
            capacity > 0,
        ensures
            r.wf(),
            r.model() == (HubState { capacity: capacity as nat, latest: Seq::empty(), sessions: Seq::empty(), next_id: 0 }),
    {
        let r = Hub { capacity, latest: Vec::new(), sessions: Vec::new(), next_id: 0 };
        proof {
            assert(r.model().latest =~= Seq::empty());
            assert(r.model().sessions =~= Seq::empty());
        }
        r
    }

    /// The number of sessions subscribed.
    pub fn session_count(&self) -> (r: usize)
        ensures
            r == self.model().sessions.len(),
    {
        self.sessions.len()
    }

    /// Subscribes a new session, whose inbox starts with the most recent stems;
    /// `None` once every identifier has been handed out.
    pub fn subscribe(&mut self) -> (r: Option<u64>)
        requires
            old(self).wf(),
        ensures
            final(self).wf(),
            old(self).model().next_id < u64::MAX ==> r == Some(old(self).model().next_id as u64)
                && final(self).model() == subscribe_spec(old(self).model()),
            old(self).model().next_id == u64::MAX ==> r is None && final(self).model() == old(self).model(),
    {
        if self.next_id == u64::MAX {
            return None;
        }
        let ghost h = self.model();
        let start: usize = if self.latest.len() > self.capacity { self.latest.len() - self.capacity } else { 0 };
        let queue = copy_from(&self.latest, start);
        let id = self.next_id;
        let ghost before = self.sessions@;
        let b = Inbox { id, queue };
        self.sessions.push(b);
        self.next_id = self.next_id + 1;
        proof {
            lemma_inboxes_push(before, b);
            assert(texts(self.latest@).subrange(start as int, self.latest@.len() as int) =~= replay(h.latest, h.capacity)) by {
                if h.latest.len() <= h.capacity {
                    assert(h.latest.subrange(0, h.latest.len() as int) =~= h.latest);
                }
            }
            assert(self.model() == subscribe_spec(h));
        }
        Some(id)
    }

    /// Publishes a stem: it becomes the latest entry of the replay list, and every
    /// session's inbox receives it, dropping its oldest stem where it is full.
    pub fn publish(&mut self, stem: String)
        requires
            old(self).wf(),
        ensures
            final(self).wf(),
            final(self).model() == publish_spec(old(self).model(), stem@),
    {
        let ghost h = self.model();
        let mut latest: Vec<String> = Vec::new();
        let mut i: usize = 0;
        proof {
            assert(texts(latest@) =~= Seq::empty());
            assert(h.latest.subrange(0, 0) =~= Seq::empty());
        }
        while i < self.latest.len()
            invariant
                i <= self.latest.len(),
                h == self.model(),
                texts(latest@) == without(h.latest.subrange(0, i as int), stem@),
            decreases self.latest.len() - i,
        {
            let ghost before = latest@;
            proof {
                assert(h.latest.subrange(0, i + 1).drop_last() =~= h.latest.subrange(0, i as int));
                assert(h.latest.subrange(0, i + 1).last() == self.latest@[i as int]@);
            }
            if !(self.latest[i] == stem) {
                let x = self.latest[i].clone();
                latest.push(x);
                proof {
                    lemma_texts_push(before, x);
                }
            }
            i = i + 1;
        }
        let ghost before = latest@;
        let fresh = stem.clone();
        latest.push(fresh);
        self.latest = latest;
        proof {
            lemma_texts_push(before, fresh);
            assert(h.latest.subrange(0, i as int) =~= h.latest);
            lemma_without(h.latest, stem@);
            let w = without(h.latest, stem@);
            assert(!w.contains(stem@));
            assert forall|a: int, b: int| 0 <= a < b < w.push(stem@).len() implies w.push(stem@)[a] != w.push(stem@)[b] by {
                if b == w.len() {
                    assert(w.push(stem@)[a] == w[a]);
                }
            }
        }
        let mut rest: Vec<Inbox> = Vec::new();
        std::mem::swap(&mut rest, &mut self.sessions);
        let ghost orig = rest@;
        let n = rest.len();
        let mut done: Vec<Inbox> = Vec::new();
        let mut k: usize = 0;
        proof {
            assert(inboxes(done@) =~= Seq::empty());
            assert(orig.subrange(0, 0) =~= Seq::empty());
        }
        while k < n
            invariant
                k <= n,
                n == orig.len(),
                rest@ == orig.subrange(k as int, n as int),
                h.sessions == inboxes(orig),
                self.capacity == h.capacity,
                h.capacity > 0,
                inboxes(done@) == inboxes(orig.subrange(0, k as int)).map_values(
                    |s: (u64, Seq<Seq<char>>)| (s.0, bounded_push(s.1, stem@, h.capacity)),
                ),
            decreases n - k,
        {
            let ghost before = done@;
            let mut b = rest.remove(0);
            proof {
                assert(b == orig[k as int]);
            }
            let ghost q0 = b.queue@;
            let x = stem.clone();
            b.queue.push(x);
            if b.queue.len() > self.capacity {
                b.queue.remove(0);
            }
            done.push(b);
            proof {
                lemma_texts_push(q0, x);
                assert(texts(b.queue@) =~= bounded_push(texts(q0), stem@, h.capacity));
                lemma_inboxes_push(before, b);
                assert(orig.subrange(0, k + 1) =~= orig.subrange(0, k as int).push(orig[k as int]));
                lemma_inboxes_push(orig.subrange(0, k as int), orig[k as int]);
                assert(rest@ =~= orig.subrange(k + 1, n as int));
                assert(inboxes(orig.subrange(0, k + 1)).map_values(
                    |s: (u64, Seq<Seq<char>>)| (s.0, bounded_push(s.1, stem@, h.capacity)),
                ) =~= inboxes(orig.subrange(0, k as int)).map_values(
                    |s: (u64, Seq<Seq<char>>)| (s.0, bounded_push(s.1, stem@, h.capacity)),
                ).push((b.id, texts(b.queue@))));
            }
            k = k + 1;
        }
        self.sessions = done;
        proof {
            assert(orig.subrange(0, n as int) =~= orig);
            let m = self.model();
            assert(m.sessions =~= publish_spec(h, stem@).sessions);
            assert(m == publish_spec(h, stem@));
            assert forall|j: int| 0 <= j < m.sessions.len() implies (#[trigger] m.sessions[j]).1.len() <= m.capacity by {
                assert(h.sessions[j].1.len() <= h.capacity);
            }
            assert forall|j: int| 0 <= j < m.sessions.len() implies (#[trigger] m.sessions[j]).0 < m.next_id by {
                assert(h.sessions[j].0 < h.next_id);
            }
            assert forall|a: int, b: int| 0 <= a < b < m.sessions.len() implies m.sessions[a].0 != m.sessions[b].0 by {
                assert(h.sessions[a].0 != h.sessions[b].0);
            }
        }
    }

    /// The position of the session with an identifier.
    fn position(&self, id: u64) -> (r: Option<usize>)
        ensures
            match r {
                Some(k) => k as int == find(self.model().sessions, id) && k < self.model().sessions.len(),
                None => find(self.model().sessions, id) == -1,
            },
    {
        let ghost ss = self.model().sessions;
        let mut i: usize = 0;
        while i < self.sessions.len()
            invariant
                i <= self.sessions.len(),
                ss == self.model().sessions,
                ss.len() == self.sessions.len(),
                find(ss, id) == find_from(ss, id, i as int),
            decreases self.sessions.len() - i,
        {
            proof {
                assert(ss[i as int].0 == self.sessions@[i as int].id);
            }
            if self.sessions[i].id == id {
                return Some(i);
            }
            i = i + 1;
        }
        None
    }

    /// Hands out the oldest stem in a session's inbox, for the session to forward;
    /// `None` where the session is unknown or its inbox is empty.
    pub fn take(&mut self, id: u64) -> (r: Option<String>)
        requires
            old(self).wf(),
        ensures
            final(self).wf(),
            ({
                let h = old(self).model();
                let k = find(h.sessions, id);
                if k < 0 || h.sessions[k].1.len() == 0 {
                    r is None && final(self).model() == h
                } else {
                    &&& r matches Some(x) && x@ == h.sessions[k].1[0]
                    &&& final(self).model() == (HubState {
                        sessions: h.sessions.update(k, (id, h.sessions[k].1.drop_first())),
                        ..h
                    })
                }
            }),
    {
        let ghost h = self.model();
        let k = match self.position(id) {
            Some(k) => k,
            None => return None,
        };
        proof {
            assert(h.sessions[k as int] == (self.sessions@[k as int].id, texts(self.sessions@[k as int].queue@)));
        }
        if self.sessions[k].queue.len() == 0 {
            return None;
        }
        let ghost v = self.sessions@;
        proof {
            lemma_find_from(h.sessions, id, 0);
            assert(v[k as int].id == id);
        }
        let mut b = self.sessions.remove(k);
        let ghost q0 = b.queue@;
        let x = b.queue.remove(0);
        self.sessions.insert(k, b);
        proof {
            assert(self.sessions@ =~= v.update(k as int, b));
            assert(texts(b.queue@) =~= texts(q0).drop_first());
            assert(inboxes(self.sessions@) =~= h.sessions.update(k as int, (id, h.sessions[k as int].1.drop_first())));
            let m = self.model();
            assert forall|j: int| 0 <= j < m.sessions.len() implies (#[trigger] m.sessions[j]).1.len() <= m.capacity by {
                assert(h.sessions[j].1.len() <= h.capacity);
            }
            assert forall|j: int| 0 <= j < m.sessions.len() implies (#[trigger] m.sessions[j]).0 < m.next_id by {
                assert(h.sessions[j].0 < h.next_id);
            }
            assert forall|a: int, c: int| 0 <= a < c < m.sessions.len() implies m.sessions[a].0 != m.sessions[c].0 by {
                assert(h.sessions[a].0 != h.sessions[c].0);
            }
        }
        Some(x)
    }

    /// Ends a session: its inbox goes, and every other session is left as it was.
    /// Returns whether the session was known.
    pub fn close(&mut self, id: u64) -> (r: bool)
        requires
            old(self).wf(),
        ensures
            final(self).wf(),
            r == (find(old(self).model().sessions, id) >= 0),
            final(self).model() == close_spec(old(self).model(), id),
    {
        let ghost h = self.model();
        let k = match self.position(id) {
            Some(k) => k,
            None => return false,
        };
        let ghost v = self.sessions@;
        self.sessions.remove(k);
        proof {
            assert(inboxes(self.sessions@) =~= h.sessions.remove(k as int));
            let m = self.model();
            assert forall|j: int| 0 <= j < m.sessions.len() implies (#[trigger] m.sessions[j]).1.len() <= m.capacity by {
                if j < k { assert(m.sessions[j] == h.sessions[j]); } else { assert(m.sessions[j] == h.sessions[j + 1]); }
            }
            assert forall|j: int| 0 <= j < m.sessions.len() implies (#[trigger] m.sessions[j]).0 < m.next_id by {
                if j < k { assert(m.sessions[j] == h.sessions[j]); } else { assert(m.sessions[j] == h.sessions[j + 1]); }
            }
            assert forall|a: int, c: int| 0 <= a < c < m.sessions.len() implies m.sessions[a].0 != m.sessions[c].0 by {
                let a2 = if a < k { a } else { a + 1 };
                let c2 = if c < k { c } else { c + 1 };
                assert(m.sessions[a] == h.sessions[a2]);
                assert(m.sessions[c] == h.sessions[c2]);
            }
        }
        true
    }
}

} // verus!
