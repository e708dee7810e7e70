//! Coalescing of raw file change events into one change event per path and
//! quiet window.
use crate::path::{extension_of, is_markdown, markdown_extension};
use vstd::prelude::*;

verus! {

/// What happened to a file.
#[derive(Clone, Copy, Debug, PartialEq, Eq, Structural)]
pub enum ChangeKind {
    Created,
    Modified,
    Removed,
}

/// A coalesced change of one path.
#[derive(Debug)]
pub struct ChangeEvent {
    pub path: String,
    pub kind: ChangeKind,
}

/// A path whose quiet window is running.
#[derive(Debug)]
struct Pending {
    path: String,
    kind: ChangeKind,
    last_seen: u64,
}

/// A running timer, as the contracts see it.
pub struct Timer {
    pub path: Seq<char>,
    pub kind: ChangeKind,
    pub last_seen: nat,
}

/// The state of a debouncer, as the contracts see it.
pub struct DebounceState {
    pub window: nat,
    pub clock: nat,
    pub pending: Seq<Timer>,
}

/// Coalesces bursts of raw events on the same path: each raw event restarts the
/// path's timer, and the path's change is emitted once its timer has run for the
/// whole quiet window. Only Markdown paths are kept.
pub struct Debouncer {
    quiet_window: u64,
    clock: u64,
    pending: Vec<Pending>,
}

/// The elements of a sequence that satisfy a predicate, in their order.
pub open spec fn keep(ts: Seq<Timer>, f: spec_fn(Timer) -> bool) -> Seq<Timer>
    decreases ts.len(),
{
    if ts.len() == 0 {
        ts
    } else if f(ts.last()) {
        keep(ts.drop_last(), f).push(ts.last())
    } else {
        keep(ts.drop_last(), f)
    }
}

pub open spec fn max_nat(a: nat, b: nat) -> nat {
    if a >= b { a } else { b }
}

/// Whether a timer's quiet window has elapsed at a time.
pub open spec fn is_due(t: Timer, window: nat, now: nat) -> bool {
    t.last_seen + window <= now
}

/// The state after a raw event on a path at a time: the clock never runs
/// backwards, and a Markdown path's timer restarts at the end of the queue.
pub open spec fn observe_spec(s: DebounceState, path: Seq<char>, kind: ChangeKind, at: nat) -> DebounceState {
    let clock = max_nat(s.clock, at);
    if extension_of(path) == markdown_extension() {
        DebounceState {
            window: s.window,
            clock,
            pending: keep(s.pending, |t: Timer| t.path != path).push(Timer { path, kind, last_seen: clock }),
        }
    } else {
        DebounceState { window: s.window, clock, pending: s.pending }
    }
}

/// The state after the clock reaches a time, and the timers that elapse then,
/// in the order in which their windows closed.
pub open spec fn poll_spec(s: DebounceState, now: nat) -> (DebounceState, Seq<Timer>) {
    let clock = max_nat(s.clock, now);
    (
        DebounceState {
            window: s.window,
            clock,
            pending: keep(s.pending, |t: Timer| !is_due(t, s.window, clock)),
        },
        keep(s.pending, |t: Timer| is_due(t, s.window, clock)),
    )
}

/// The change events that a sequence of timers stands for.
pub open spec fn timer_events(ts: Seq<Timer>) -> Seq<(Seq<char>, ChangeKind)> {
    ts.map_values(|t: Timer| (t.path, t.kind))
}

pub open spec fn events_view(v: Seq<ChangeEvent>) -> Seq<(Seq<char>, ChangeKind)> {
    v.map_values(|e: ChangeEvent| (e.path@, e.kind))
}

pub open spec fn timers_sorted(ts: Seq<Timer>) -> bool {
    forall|i: int, j: int| 0 <= i < j < ts.len() ==> ts[i].last_seen <= ts[j].last_seen
}

pub open spec fn timers_before(ts: Seq<Timer>, c: nat) -> bool {
    forall|i: int| 0 <= i < ts.len() ==> ts[i].last_seen <= c
}

pub open spec fn timers_lack(ts: Seq<Timer>, p: Seq<char>) -> bool {
    forall|i: int| 0 <= i < ts.len() ==> ts[i].path != p
}

/// At most one timer per path.
pub open spec fn timers_distinct(ts: Seq<Timer>) -> bool {
    forall|i: int, j: int| 0 <= i < j < ts.len() ==> ts[i].path != ts[j].path
}

/// The invariant of a debouncer's state: one timer per path, ordered by the
/// time its window closes, none started after the clock.
pub open spec fn state_wf(s: DebounceState) -> bool {
    &&& timers_sorted(s.pending)
    &&& timers_before(s.pending, s.clock)
    &&& timers_distinct(s.pending)
}

/// Keeping a part of a sequence keeps its order, its bounds, and its distinct paths.
proof fn lemma_keep(ts: Seq<Timer>, f: spec_fn(Timer) -> bool)
    ensures
        keep(ts, f).len() <= ts.len(),
        forall|i: int| 0 <= i < keep(ts, f).len() ==> f(#[trigger] keep(ts, f)[i]),
        forall|c: nat| timers_before(ts, c) ==> timers_before(keep(ts, f), c),
        forall|p: Seq<char>| timers_lack(ts, p) ==> timers_lack(keep(ts, f), p),
        timers_sorted(ts) ==> timers_sorted(keep(ts, f)),
        timers_distinct(ts) ==> timers_distinct(keep(ts, f)),
    decreases ts.len(),
{
    if ts.len() > 0 {
        let init = ts.drop_last();
        lemma_keep(init, f);
        assert forall|c: nat| timers_before(ts, c) implies timers_before(keep(ts, f), c) by {
            assert(timers_before(init, c));
        }
        assert forall|p: Seq<char>| timers_lack(ts, p) implies timers_lack(keep(ts, f), p) by {
            assert(timers_lack(init, p));
        }
        if timers_sorted(ts) {
            assert(timers_sorted(init));
            assert(timers_before(init, ts.last().last_seen));
        }
        if timers_distinct(ts) {
            assert(timers_distinct(init));
            assert(timers_lack(init, ts.last().path));
        }
    }
}

spec fn views(v: Seq<Pending>) -> Seq<Timer> {
    v.map_values(|p: Pending| p.view())
}

proof fn lemma_views_push(v: Seq<Pending>, p: Pending)
    ensures
        views(v.push(p)) == views(v).push(p.view()),
        views(v).len() == v.len(),
{
    assert(views(v.push(p)) =~= views(v).push(p.view()));
}

/// A raw event, as the laws see it.
pub struct Arrival {
    pub path: Seq<char>,
    pub kind: ChangeKind,
    pub at: nat,
}

/// The state of a new debouncer.
pub open spec fn initial_state(window: nat) -> DebounceState {
    DebounceState { window, clock: 0, pending: Seq::empty() }
}

/// Feeds raw events one after another, advancing the clock to each event's time
/// before it is observed: the state reached, and how many change events came out.
pub open spec fn feed(s: DebounceState, evs: Seq<Arrival>) -> (DebounceState, nat)
    decreases evs.len(),
{
    if evs.len() == 0 {
        (s, 0)
    } else {
        let before = feed(s, evs.drop_last());
        let e = evs.last();
        let polled = poll_spec(before.0, e.at);
        (observe_spec(polled.0, e.path, e.kind, e.at), before.1 + polled.1.len())
    }
}

/// How many change events a new debouncer emits for a sequence of raw events,
/// counting those that come out once every window has closed.
pub open spec fn emitted_count(window: nat, evs: Seq<Arrival>) -> nat {
    let fed = feed(initial_state(window), evs);
    fed.1 + fed.0.pending.len()
}

proof fn lemma_keep_single(t: Timer)
    ensures
        forall|f: spec_fn(Timer) -> bool| #[trigger] keep(seq![t], f) == (if f(t) { seq![t] } else { Seq::<Timer>::empty() }),
{
    assert forall|f: spec_fn(Timer) -> bool| #[trigger] keep(seq![t], f) == (if f(t) { seq![t] } else { Seq::<Timer>::empty() }) by {
        assert(seq![t].drop_last() =~= Seq::<Timer>::empty());
        assert(seq![t].last() == t);
        assert(keep(Seq::<Timer>::empty(), f) == Seq::<Timer>::empty());
        if f(t) {
            assert(Seq::<Timer>::empty().push(t) =~= seq![t]);
        }
    }
}

/// A burst of raw events on one Markdown path, each less than the quiet window
/// after the one before, leaves one running timer for that path and emits nothing
/// while it lasts.
proof fn lemma_burst_prefix(window: nat, evs: Seq<Arrival>, k: int)
    requires
        1 <= k <= evs.len(),
        extension_of(evs[0].path) == markdown_extension(),
        forall|i: int| 0 <= i < evs.len() ==> #[trigger] evs[i].path == evs[0].path,
        forall|i: int| 0 <= i < evs.len() - 1 ==> evs[i].at <= #[trigger] evs[i + 1].at < evs[i].at + window,
    ensures
        feed(initial_state(window), evs.subrange(0, k)) == (DebounceState {
            window,
            clock: evs[k - 1].at,
            pending: seq![Timer { path: evs[0].path, kind: evs[k - 1].kind, last_seen: evs[k - 1].at }],
        }, 0nat),
    decreases k,
{
    let sub = evs.subrange(0, k);
    assert(sub.drop_last() =~= evs.subrange(0, k - 1));
    assert(sub.last() == evs[k - 1]);
    let e = evs[k - 1];
    let p = evs[0].path;
    let fresh = Timer { path: p, kind: e.kind, last_seen: e.at };
    assert(extension_of(e.path) == markdown_extension());
    if k == 1 {
        assert(evs.subrange(0, 0) =~= Seq::<Arrival>::empty());
        assert(feed(initial_state(window), evs.subrange(0, 0)) == (initial_state(window), 0nat));
        let polled = poll_spec(initial_state(window), e.at);
        assert(polled.0.pending == Seq::<Timer>::empty());
        assert(polled.1.len() == 0);
        assert(keep(Seq::<Timer>::empty(), |x: Timer| x.path != e.path) == Seq::<Timer>::empty());
        assert(Seq::<Timer>::empty().push(fresh) =~= seq![fresh]);
        assert(feed(initial_state(window), sub).1 == 0);
        assert(feed(initial_state(window), sub).0.pending == seq![fresh]);
    } else {
        lemma_burst_prefix(window, evs, k - 1);
        let t = Timer { path: p, kind: evs[k - 2].kind, last_seen: evs[k - 2].at };
        let j = k - 2;
        assert(evs[j].at <= evs[j + 1].at < evs[j].at + window);
        assert(evs[j + 1] == evs[k - 1]);
        assert(evs[k - 1].path == evs[0].path);
        lemma_keep_single(t);
        let prev = feed(initial_state(window), evs.subrange(0, k - 1));
        let polled = poll_spec(prev.0, e.at);
        assert(polled.0.pending == seq![t]);
        assert(polled.1 == Seq::<Timer>::empty());
        assert(keep(seq![t], |x: Timer| x.path != e.path) == Seq::<Timer>::empty());
        assert(Seq::<Timer>::empty().push(fresh) =~= seq![fresh]);
        assert(feed(initial_state(window), sub).1 == 0);
        assert(feed(initial_state(window), sub).0.pending == seq![fresh]);
    }
}

/// Raw events on one Markdown path that each arrive less than the quiet window
/// after the one before are coalesced into exactly one change event.
pub proof fn lemma_burst_emits_once(window: nat, evs: Seq<Arrival>)
    requires
        evs.len() >= 1,
        extension_of(evs[0].path) == markdown_extension(),
        forall|i: int| 0 <= i < evs.len() ==> #[trigger] evs[i].path == evs[0].path,
        forall|i: int| 0 <= i < evs.len() - 1 ==> evs[i].at <= #[trigger] evs[i + 1].at < evs[i].at + window,
    ensures
        emitted_count(window, evs) == 1,
{
    lemma_burst_prefix(window, evs, evs.len() as int);
    assert(evs.subrange(0, evs.len() as int) =~= evs);
}

/// Raw events on Markdown paths, each more than the quiet window after the one
/// before, leave the last one's timer running and emit one change event for each
/// of the others.
proof fn lemma_spaced_prefix(window: nat, evs: Seq<Arrival>, k: int)
    requires
        1 <= k <= evs.len(),
        forall|i: int| 0 <= i < evs.len() ==> extension_of(#[trigger] evs[i].path) == markdown_extension(),
        forall|i: int| 0 <= i < evs.len() - 1 ==> evs[i].at + window < #[trigger] evs[i + 1].at,
    ensures
        feed(initial_state(window), evs.subrange(0, k)) == (DebounceState {
            window,
            clock: evs[k - 1].at,
            pending: seq![Timer { path: evs[k - 1].path, kind: evs[k - 1].kind, last_seen: evs[k - 1].at }],
        }, (k - 1) as nat),
    decreases k,
{
    let sub = evs.subrange(0, k);
    assert(sub.drop_last() =~= evs.subrange(0, k - 1));
    assert(sub.last() == evs[k - 1]);
    let e = evs[k - 1];
    let fresh = Timer { path: e.path, kind: e.kind, last_seen: e.at };
    assert(extension_of(e.path) == markdown_extension());
    assert(Seq::<Timer>::empty().push(fresh) =~= seq![fresh]);
    if k == 1 {
        assert(evs.subrange(0, 0) =~= Seq::<Arrival>::empty());
        assert(feed(initial_state(window), evs.subrange(0, 0)) == (initial_state(window), 0nat));
        let polled = poll_spec(initial_state(window), e.at);
        assert(polled.0.pending == Seq::<Timer>::empty());
        assert(polled.1.len() == 0);
        assert(keep(Seq::<Timer>::empty(), |x: Timer| x.path != e.path) == Seq::<Timer>::empty());
        assert(feed(initial_state(window), sub).1 == 0);
        assert(feed(initial_state(window), sub).0.pending == seq![fresh]);
    } else {
        lemma_spaced_prefix(window, evs, k - 1);
        let t = Timer { path: evs[k - 2].path, kind: evs[k - 2].kind, last_seen: evs[k - 2].at };
        let j = k - 2;
        assert(evs[j].at + window < evs[j + 1].at);
        assert(evs[j + 1] == evs[k - 1]);
        lemma_keep_single(t);
        let prev = feed(initial_state(window), evs.subrange(0, k - 1));
        let polled = poll_spec(prev.0, e.at);
        assert(polled.0.pending == Seq::<Timer>::empty());
        assert(polled.1 == seq![t]);
        assert(polled.1.len() == 1);
        assert(keep(Seq::<Timer>::empty(), |x: Timer| x.path != e.path) == Seq::<Timer>::empty());
        assert(feed(initial_state(window), sub).1 == k - 1);
        assert(feed(initial_state(window), sub).0.pending == seq![fresh]);
    }
}

/// Raw events on Markdown paths that each arrive more than the quiet window after
/// the one before each give exactly one change event.
pub proof fn lemma_spaced_emits_each(window: nat, evs: Seq<Arrival>)
    requires
        forall|i: int| 0 <= i < evs.len() ==> extension_of(#[trigger] evs[i].path) == markdown_extension(),
        forall|i: int| 0 <= i < evs.len() - 1 ==> evs[i].at + window < #[trigger] evs[i + 1].at,
    ensures
        emitted_count(window, evs) == evs.len(),
{
    if evs.len() > 0 {
        lemma_spaced_prefix(window, evs, evs.len() as int);
        assert(evs.subrange(0, evs.len() as int) =~= evs);
    }
}

impl Pending {
    spec fn view(&self) -> Timer {
        Timer { path: self.path@, kind: self.kind, last_seen: self.last_seen as nat }
    }

    fn duplicate(&self) -> (r: Pending)
        ensures
            r.view() == self.view(),
    {
        Pending { path: self.path.clone(), kind: self.kind, last_seen: self.last_seen }
    }
}

impl Debouncer {
    /// The debouncer's state, as the contracts see it.
    pub closed spec fn model(&self) -> DebounceState {
        DebounceState {
            window: self.quiet_window as nat,
            clock: self.clock as nat,
            pending: views(self.pending@),
        }
    }

    pub open spec fn wf(&self) -> bool {
        state_wf(self.model())
    }

    /// A debouncer with no running timer, at time zero.
    pub fn new(quiet_window: u64) -> (r: Debouncer)
        ensures
            r.wf(),
            r.model() == (DebounceState { window: quiet_window as nat, clock: 0, pending: Seq::empty() }),
    {
        let r = Debouncer { quiet_window, clock: 0, pending: Vec::new() };
        proof {
            assert(r.model().pending =~= Seq::empty());
        }
        r
    }

    /// The number of paths whose timer is running.
    pub fn pending_len(&self) -> (r: usize)
        ensures
            r == self.model().pending.len(),
    {
        self.pending.len()
    }

    /// Records a raw event on a path at a time (in milliseconds). The path's
    /// timer restarts; a path that is not a Markdown document is dropped.
    pub fn observe(&mut self, path: String, kind: ChangeKind, at: u64)
        requires
            old(self).wf(),
        ensures
            final(self).wf(),
            final(self).model() == observe_spec(old(self).model(), path@, kind, at as nat),
    {
        let now = if at > self.clock { at } else { self.clock };
        self.clock = now;
        let ghost s = self.model();
        proof {
            lemma_keep(s.pending, |t: Timer| t.path != path@);
        }
        if !is_markdown(path.as_str()) {
            return;
        }
        let ghost f = |t: Timer| t.path != path@;
        let mut kept: Vec<Pending> = Vec::new();
        let mut i: usize = 0;
        proof {
            assert(s.pending.subrange(0, 0) =~= Seq::empty());
            assert(views(kept@) =~= Seq::empty());
        }
        while i < self.pending.len()
            invariant
                i <= self.pending.len(),
                s == self.model(),
                f == (|t: Timer| t.path != path@),
                views(kept@) == keep(s.pending.subrange(0, i as int), f),
            decreases self.pending.len() - i,
        {
            let ghost before = kept@;
            proof {
                assert(s.pending.subrange(0, i + 1).drop_last() =~= s.pending.subrange(0, i as int));
                assert(s.pending[i as int] == self.pending@[i as int].view());
                assert(s.pending.subrange(0, i + 1).last() == s.pending[i as int]);
                assert(keep(s.pending.subrange(0, i + 1), f) == if f(s.pending[i as int]) {
                    keep(s.pending.subrange(0, i as int), f).push(s.pending[i as int])
                } else {
                    keep(s.pending.subrange(0, i as int), f)
                });
            }
            if !(self.pending[i].path == path) {
                let d = self.pending[i].duplicate();
                kept.push(d);
                proof {
                    lemma_views_push(before, d);
                }
            }
            i = i + 1;
        }
        let ghost before = kept@;
        let ghost pv = path@;
        let last = Pending { path, kind, last_seen: now };
        kept.push(last);
        self.pending = kept;
        proof {
            lemma_views_push(before, last);
            assert(s.pending.subrange(0, i as int) =~= s.pending);
            assert(self.model() == observe_spec(old(self).model(), path@, kind, at as nat));
            let k = keep(s.pending, f);
            assert(timers_before(k, now as nat));
            assert(timers_lack(k, pv));
        }
    }

    /// Advances the clock to a time (in milliseconds) and emits the change of every
    /// path whose quiet window has elapsed, in the order in which the windows closed.
    pub fn poll(&mut self, now: u64) -> (r: Vec<ChangeEvent>)
        requires
            old(self).wf(),
        ensures
            final(self).wf(),
            final(self).model() == poll_spec(old(self).model(), now as nat).0,
            events_view(r@) == timer_events(poll_spec(old(self).model(), now as nat).1),
    {
        let clock = if now > self.clock { now } else { self.clock };
        self.clock = clock;
        let ghost s = self.model();
        let ghost due = |t: Timer| is_due(t, s.window, clock as nat);
        let ghost waits = |t: Timer| !is_due(t, s.window, clock as nat);
        let mut emitted: Vec<ChangeEvent> = Vec::new();
        let mut kept: Vec<Pending> = Vec::new();
        let mut i: usize = 0;
        proof {
            assert(s.pending.subrange(0, 0) =~= Seq::empty());
            assert(views(kept@) =~= Seq::empty());
            assert(events_view(emitted@) =~= Seq::empty());
            assert(timer_events(Seq::empty()) =~= Seq::empty());
        }
        while i < self.pending.len()
            invariant
                i <= self.pending.len(),
                s == self.model(),
                state_wf(s),
                clock == self.clock,
                due == (|t: Timer| is_due(t, s.window, clock as nat)),
                waits == (|t: Timer| !is_due(t, s.window, clock as nat)),
                views(kept@) == keep(s.pending.subrange(0, i as int), waits),
                events_view(emitted@) == timer_events(keep(s.pending.subrange(0, i as int), due)),
            decreases self.pending.len() - i,
        {
            let ghost kept_before = kept@;
            let ghost emitted_before = emitted@;
            let ghost t = s.pending[i as int];
            proof {
                assert(s.pending.subrange(0, i + 1).drop_last() =~= s.pending.subrange(0, i as int));
                assert(t == self.pending@[i as int].view());
                assert(s.pending.subrange(0, i + 1).last() == t);
                assert(t.last_seen <= s.clock);
            }
            let p = &self.pending[i];
            if clock - p.last_seen >= self.quiet_window {
                let e = ChangeEvent { path: p.path.clone(), kind: p.kind };
                emitted.push(e);
                proof {
                    let k = keep(s.pending.subrange(0, i as int), due);
                    assert(events_view(emitted@) =~= events_view(emitted_before).push((t.path, t.kind)));
                    assert(timer_events(k.push(t)) =~= timer_events(k).push((t.path, t.kind)));
                }
            } else {
                let d = p.duplicate();
                kept.push(d);
                proof {
                    lemma_views_push(kept_before, d);
                }
            }
            i = i + 1;
        }
        self.pending = kept;
        proof {
            assert(s.pending.subrange(0, i as int) =~= s.pending);
            lemma_keep(s.pending, waits);
        }
        emitted
    }

    /// Emits every path whose timer is running, as at shutdown, in the order in
    /// which their windows would close.
    pub fn flush(&mut self) -> (r: Vec<ChangeEvent>)
        requires
            old(self).wf(),
        ensures
            final(self).wf(),
            final(self).model() == (DebounceState { pending: Seq::empty(), ..old(self).model() }),
            events_view(r@) == timer_events(old(self).model().pending),
    {
        let ghost s = self.model();
        let mut emitted: Vec<ChangeEvent> = Vec::new();
        let mut i: usize = 0;
        while i < self.pending.len()
            invariant
                i <= self.pending.len(),
                s == self.model(),
                events_view(emitted@) == timer_events(s.pending.subrange(0, i as int)),
            decreases self.pending.len() - i,
        {
            let ghost before = emitted@;
            let p = &self.pending[i];
            emitted.push(ChangeEvent { path: p.path.clone(), kind: p.kind });
            proof {
                assert(s.pending[i as int] == self.pending@[i as int].view());
                assert(events_view(emitted@) =~= events_view(before).push((p.path@, p.kind)));
                assert(timer_events(s.pending.subrange(0, i + 1)) =~= timer_events(
                    s.pending.subrange(0, i as int),
                ).push((p.path@, p.kind)));
            }
            i = i + 1;
        }
        self.pending = Vec::new();
        proof {
            assert(s.pending.subrange(0, i as int) =~= s.pending);
            assert(self.model().pending =~= Seq::empty());
        }
        emitted
    }

    /// The earliest time at which a window closes, if a timer is running; the
    /// largest time where that moment lies beyond it.
    pub fn next_deadline(&self) -> (r: Option<u64>)
        requires
            self.wf(),
        ensures
            r is None <==> self.model().pending.len() == 0,
            r matches Some(d) ==> {
                let first = self.model().pending[0];
                &&& d == if first.last_seen + self.model().window <= u64::MAX {
                    first.last_seen + self.model().window
                } else {
                    u64::MAX as nat
                }
                &&& forall|i: int| 0 <= i < self.model().pending.len()
                    ==> d <= self.model().pending[i].last_seen + self.model().window
            },
    {
        if self.pending.len() == 0 {
            None
        } else {
            proof {
                assert(self.model().pending[0] == self.pending@[0].view());
            }
            Some(self.pending[0].last_seen.saturating_add(self.quiet_window))
        }
    }
}

} // verus!
