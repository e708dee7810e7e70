//! Per-path sequencing of renders: each render of a path takes a token, and
//! only the render holding the path's latest token may write and announce its
//! result. Renders of different paths never wait on each other.
use vstd::prelude::*;

verus! {

/// The tokens handed out, as the contracts see them.
pub struct SequenceState {
    /// The latest token of each path with a render in flight.
    pub latest: Map<Seq<char>, u64>,
    /// The token that the next render receives.
    pub next: nat,
}

/// Hands out render tokens per path.
pub struct Sequencer {
    entries: Vec<(String, u64)>,
    next: u64,
}

spec fn map_of(es: Seq<(String, u64)>) -> Map<Seq<char>, u64>
    decreases es.len(),
{
    if es.len() == 0 {
        Map::empty()
    } else {
        map_of(es.drop_last()).insert(es.last().0@, es.last().1)
    }
}

spec fn without_path(es: Seq<(String, u64)>, p: Seq<char>) -> Seq<(String, u64)>
    decreases es.len(),
{
    if es.len() == 0 {
        es
    } else if es.last().0@ == p {
        without_path(es.drop_last(), p)
    } else {
        without_path(es.drop_last(), p).push(es.last())
    }
}

proof fn lemma_without_path(es: Seq<(String, u64)>, p: Seq<char>)
    ensures
        map_of(without_path(es, p)) == map_of(es).remove(p),
    decreases es.len(),
{
    if es.len() > 0 {
        let init = es.drop_last();
        lemma_without_path(init, p);
        let l = es.last();
        if l.0@ == p {
            assert(map_of(es).remove(p) =~= map_of(init).remove(p));
        } else {
            assert(without_path(es, p).drop_last() == without_path(init, p));
            assert(map_of(without_path(es, p)) =~= map_of(es).remove(p));
        }
    }
}

/// The state after a render of a path begins.
pub open spec fn begin_spec(s: SequenceState, p: Seq<char>) -> SequenceState {
    SequenceState { latest: s.latest.insert(p, s.next as u64), next: s.next + 1 }
}

/// Whether a render holds the latest token of its path.
pub open spec fn is_latest(s: SequenceState, p: Seq<char>, token: u64) -> bool {
    s.latest.contains_key(p) && s.latest[p] == token
}

/// The state after a render of a path ends.
pub open spec fn finish_spec(s: SequenceState, p: Seq<char>, token: u64) -> SequenceState {
    if is_latest(s, p, token) {
        SequenceState { latest: s.latest.remove(p), next: s.next }
    } else {
        s
    }
}

/// Once a second render of a path has begun, the first one's result is
/// discarded however the two finish, so the newer render's outcome is the one
/// that is written and announced; a render of another path is not affected.
pub proof fn lemma_last_render_wins(s: SequenceState, p: Seq<char>, q: Seq<char>)
    requires
        s.next + 1 < u64::MAX,
        p != q,
    ensures
        ({
            let first = s.next as u64;
            let second = (s.next + 1) as u64;
            let both = begin_spec(begin_spec(s, p), p);
            &&& !is_latest(both, p, first)
            &&& is_latest(both, p, second)
            &&& !is_latest(finish_spec(both, p, second), p, first)
            &&& is_latest(begin_spec(both, q), p, second)
        }),
{
}

impl Sequencer {
    pub closed spec fn model(&self) -> SequenceState {
        SequenceState { latest: map_of(self.entries@), next: self.next as nat }
    }

    /// A sequencer with no render in flight.
    pub fn new() -> (r: Sequencer)
        ensures
            r.model() == (SequenceState { latest: Map::empty(), next: 0 }),
    {
        Sequencer { entries: Vec::new(), next: 0 }
    }

    /// Begins a render of a path and hands out its token; `None` once every token
    /// has been handed out.
    pub fn begin(&mut self, path: &str) -> (r: Option<u64>)
        ensures
            old(self).model().next < u64::MAX ==> r == Some(old(self).model().next as u64)
                && final(self).model() == begin_spec(old(self).model(), path@),
            old(self).model().next == u64::MAX ==> r is None && final(self).model() == old(self).model(),
    {
        if self.next == u64::MAX {
            return None;
        }
        let t = self.next;
        let ghost before = self.entries@;
        self.entries.push((path.to_owned(), t));
        self.next = self.next + 1;
        proof {
            assert(self.entries@.drop_last() == before);
        }
        Some(t)
    }

    /// Ends a render of a path. Returns whether it held the path's latest token,
    /// that is, whether its result is to be written and announced.
    pub fn finish(&mut self, path: &str, token: u64) -> (r: bool)
        ensures
            r == is_latest(old(self).model(), path@, token),
            final(self).model() == finish_spec(old(self).model(), path@, token),
    {
        let ghost es = self.entries@;
        let mut latest: Option<u64> = None;
        let mut kept: Vec<(String, u64)> = Vec::new();
        let mut i: usize = 0;
        let p = path.to_owned();
        proof {
            assert(es.subrange(0, 0) =~= Seq::<(String, u64)>::empty());
            assert(kept@ =~= Seq::<(String, u64)>::empty());
        }
        while i < self.entries.len()
            invariant
                i <= self.entries.len(),
                es == self.entries@,
                p@ == path@,
                kept@ == without_path(es.subrange(0, i as int), path@),
                latest == (if map_of(es.subrange(0, i as int)).contains_key(path@) {
                    Some(map_of(es.subrange(0, i as int))[path@])
                } else {
                    None
                }),
            decreases self.entries.len() - i,
        {
            proof {
                assert(es.subrange(0, i + 1).drop_last() =~= es.subrange(0, i as int));
                assert(es.subrange(0, i + 1).last() == es[i as int]);
            }
            if self.entries[i].0 == p {
                latest = Some(self.entries[i].1);
            } else {
                kept.push((self.entries[i].0.clone(), self.entries[i].1));
            }
            i = i + 1;
        }
        proof {
            assert(es.subrange(0, i as int) =~= es);
            lemma_without_path(es, path@);
        }
        let current = match latest {
            Some(t) => t == token,
            None => false,
        };
        if current {
            self.entries = kept;
        }
        current
    }
}

} // verus!
