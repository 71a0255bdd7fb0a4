//! Opt-in, content-free local diagnostics ring buffer: it records what
//! happened (a fixed code and a timestamp), never what was typed. Once full,
//! recording a new event drops the oldest.
use crate::kernel::DiagnosticsError;
use vstd::prelude::*;

verus! {

/// The source of timestamps, injected so the buffer stays deterministic and
/// host-testable.
pub trait Clock {
    /// Milliseconds on this clock.
    fn now_millis(&self) -> u64;
}

/// A content-free diagnostic event code.
#[derive(Debug, Clone, Copy, PartialEq, Eq, Hash)]
#[non_exhaustive]
pub enum DiagnosticCode {
    /// The keyboard core finished initializing.
    Startup,
    /// The active layout changed.
    LayoutSwitched,
    /// A decode returned an error value rather than candidates.
    DecodeError,
    /// A secure-store write returned an error.
    StoreWriteFailed,
    /// A secure-store read returned an error.
    StoreReadFailed,
    /// Learning/prediction was suppressed for a sensitive field.
    SensitiveFieldSuppressed,
    /// A clipboard entry passed its expiry and was dropped.
    ClipboardExpired,
}

/// A single recorded event: a code and the millisecond timestamp at which it
/// was recorded. Plain scalars only.
#[derive(Debug, Clone, Copy, PartialEq, Eq, Hash)]
pub struct DiagnosticEvent {
    code: DiagnosticCode,
    at_millis: u64,
}

impl DiagnosticEvent {
    /// An event with `code` stamped `at_millis`.
    pub fn new(code: DiagnosticCode, at_millis: u64) -> (e: Self)
        ensures
            e == DiagnosticEvent::new_spec(code, at_millis),
            e.code_spec() == code,
            e.at_millis_spec() == at_millis,
    {
        DiagnosticEvent { code, at_millis }
    }

    /// The event's code.
    pub closed spec fn code_spec(self) -> DiagnosticCode {
        self.code
    }

    /// The event's timestamp.
    pub closed spec fn at_millis_spec(self) -> u64 {
        self.at_millis
    }

    /// The category of what occurred.
    pub fn code(self) -> (c: DiagnosticCode)
        ensures
            c == self.code_spec(),
    {
        self.code
    }

    /// Milliseconds at which it was recorded.
    pub fn at_millis(self) -> (t: u64)
        ensures
            t == self.at_millis_spec(),
    {
        self.at_millis
    }
}

/// The last `cap` elements of `s` (all of them when there are fewer).
pub open spec fn window<T>(s: Seq<T>, cap: nat) -> Seq<T> {
    if s.len() <= cap {
        s
    } else {
        s.skip(s.len() - cap)
    }
}

/// What a buffer of capacity `cap` retains after `events` were recorded one
/// by one into an empty buffer.
pub open spec fn replay(cap: nat, events: Seq<DiagnosticEvent>) -> Seq<DiagnosticEvent>
    decreases events.len(),
{
    if events.len() == 0 {
        Seq::empty()
    } else {
        window(replay(cap, events.drop_last()).push(events.last()), cap)
    }
}

/// A fixed-capacity ring buffer of content-free events.
#[derive(Debug, Clone)]
pub struct Diagnostics<C: Clock> {
    clock: C,
    buf: Vec<DiagnosticEvent>,
    capacity: usize,
    /// Index of the oldest event once `buf` is full; otherwise 0.
    head: usize,
}

impl<C: Clock> Diagnostics<C> {
    /// The retained events, oldest first.
    pub closed spec fn events(&self) -> Seq<DiagnosticEvent> {
        if self.buf@.len() < self.capacity {
            self.buf@
        } else {
            self.buf@.skip(self.head as int) + self.buf@.take(self.head as int)
        }
    }

    /// The maximum number of events retained.
    pub closed spec fn capacity_spec(&self) -> nat {
        self.capacity as nat
    }

    /// Ring-buffer shape.
    pub closed spec fn wf(&self) -> bool {
        &&& self.capacity > 0
        &&& self.buf@.len() <= self.capacity
        &&& self.head < self.capacity
        &&& self.buf@.len() < self.capacity ==> self.head == 0
    }

    /// A buffer holding up to `capacity` most-recent events; an error for a
    /// zero capacity.
    pub fn new(capacity: usize, clock: C) -> (r: Result<Self, DiagnosticsError>)
        ensures
            capacity == 0 <==> r is Err,
            r matches Err(e) ==> e == DiagnosticsError::ZeroCapacity,
            r matches Ok(d) ==> d.wf() && d.events() == Seq::<DiagnosticEvent>::empty()
                && d.capacity_spec() == capacity,
    {
        if capacity == 0 {
            return Err(DiagnosticsError::ZeroCapacity);
        }
        Ok(Diagnostics { clock, buf: Vec::new(), capacity, head: 0 })
    }

    /// The maximum number of events retained.
    pub fn capacity(&self) -> (n: usize)
        ensures
            n == self.capacity_spec(),
    {
        self.capacity
    }

    /// The number of events currently retained.
    pub fn len(&self) -> (n: usize)
        requires
            self.wf(),
        ensures
            n == self.events().len(),
            n <= self.capacity_spec(),
    {
        self.buf.len()
    }

    /// `true` if no events have been recorded yet.
    pub fn is_empty(&self) -> (r: bool)
        requires
            self.wf(),
        ensures
            r == (self.events().len() == 0),
    {
        self.buf.len() == 0
    }

    /// Record `code`, stamped with the current clock time; when full the
    /// oldest event is dropped.
    pub fn record(&mut self, code: DiagnosticCode)
        requires
            old(self).wf(),
        ensures
            final(self).wf(),
            final(self).capacity_spec() == old(self).capacity_spec(),
            exists|t: u64|
                final(self).events() == window(
                    old(self).events().push(#[trigger] DiagnosticEvent::new_spec(code, t)),
                    old(self).capacity_spec(),
                ),
    {
        let t = self.clock.now_millis();
        self.record_at(code, t);
    }

    /// Record `code` stamped `at_millis`; when full the oldest event is
    /// dropped.
    pub fn record_at(&mut self, code: DiagnosticCode, at_millis: u64)
        requires
            old(self).wf(),
        ensures
            final(self).wf(),
            final(self).capacity_spec() == old(self).capacity_spec(),
            final(self).events() == window(
                old(self).events().push(DiagnosticEvent::new_spec(code, at_millis)),
                old(self).capacity_spec(),
            ),
    {
        let event = DiagnosticEvent { code, at_millis };
        let ghost before = self.events();
        let ghost old_buf = self.buf@;
        let ghost h = self.head as int;
        if self.buf.len() < self.capacity {
            self.buf.push(event);
            proof {
                if self.buf@.len() == self.capacity {
                    assert(self.buf@.skip(0) =~= self.buf@);
                    assert(self.buf@.take(0) =~= Seq::<DiagnosticEvent>::empty());
                    assert(self.events() =~= self.buf@);
                }
                assert(before.push(event) =~= self.buf@);
            }
        } else {
            proof {
                let c = self.capacity as nat;
                if self.head + 1 < self.capacity {
                    vstd::arithmetic::div_mod::lemma_small_mod((self.head + 1) as nat, c);
                } else {
                    assert((c as int) % (c as int) == 0) by (nonlinear_arith)
                        requires
                            c > 0,
                    ;
                }
            }
            self.buf.set(self.head, event);
            self.head = (self.head + 1) % self.capacity;
            proof {
                let n = old_buf.len() as int;
                let b2 = old_buf.update(h, event);
                assert(self.buf@ == b2);
                let s = before.push(event);
                assert(s.len() == n + 1);
                if h + 1 < n {
                    assert(self.head == h + 1);
                    assert(b2.skip(h + 1) =~= old_buf.skip(h + 1));
                    assert(b2.take(h + 1) =~= old_buf.take(h).push(event));
                    assert(s.skip(1) =~= old_buf.skip(h + 1) + old_buf.take(h).push(event));
                    assert(self.events() =~= s.skip(1));
                } else {
                    assert(self.head == 0);
                    assert(b2 =~= old_buf.take(h).push(event));
                    assert(s.skip(1) =~= old_buf.take(h).push(event));
                    assert(self.buf@.skip(0) =~= self.buf@);
                    assert(self.events() =~= s.skip(1));
                }
            }
        }
    }

    /// A copy of the retained events, oldest first.
    pub fn snapshot(&self) -> (r: Vec<DiagnosticEvent>)
        requires
            self.wf(),
        ensures
            r@ == self.events(),
    {
        let mut out: Vec<DiagnosticEvent> = Vec::new();
        let n = self.buf.len();
        if n < self.capacity {
            for k in 0..n
                invariant
                    n == self.buf@.len(),
                    out@ == self.buf@.take(k as int),
            {
                out.push(self.buf[k]);
                assert(self.buf@.take(k + 1) =~= self.buf@.take(k as int).push(self.buf@[k as int]));
            }
            assert(self.buf@.take(n as int) =~= self.buf@);
        } else {
            let h = self.head;
            for k in h..n
                invariant
                    n == self.buf@.len(),
                    h <= n,
                    out@ == self.buf@.subrange(h as int, k as int),
            {
                out.push(self.buf[k]);
                assert(self.buf@.subrange(h as int, k + 1) =~= self.buf@.subrange(h as int, k as int).push(self.buf@[k as int]));
            }
            let ghost tail = out@;
            for k in 0..h
                invariant
                    n == self.buf@.len(),
                    h <= n,
                    tail == self.buf@.subrange(h as int, n as int),
                    out@ == tail + self.buf@.take(k as int),
            {
                out.push(self.buf[k]);
                assert(self.buf@.take(k + 1) =~= self.buf@.take(k as int).push(self.buf@[k as int]));
            }
            assert(self.buf@.skip(h as int) =~= self.buf@.subrange(h as int, n as int));
        }
        out
    }
}

impl DiagnosticEvent {
    /// An event with `code` stamped `at_millis`.
    pub closed spec fn new_spec(code: DiagnosticCode, at_millis: u64) -> DiagnosticEvent {
        DiagnosticEvent { code, at_millis }
    }
}

/// Recording into a window keeps the same events as recording everything and
/// windowing once.
proof fn lemma_window_push<T>(s: Seq<T>, e: T, cap: nat)
    requires
        cap > 0,
    ensures
        window(window(s, cap).push(e), cap) == window(s.push(e), cap),
{
    if s.len() > cap {
        let w = s.skip(s.len() - cap);
        assert(w.push(e).skip(1) =~= s.push(e).skip(s.push(e).len() - cap));
    } else if s.len() == cap {
        assert(s.push(e).skip(1) =~= s.push(e).skip(s.push(e).len() - cap));
    }
}

/// A buffer of capacity `cap` keeps exactly the `cap` most recent events,
/// oldest first, whatever was recorded before them.
pub proof fn ring_keeps_latest(cap: nat, events: Seq<DiagnosticEvent>)
    requires
        cap > 0,
    ensures
        replay(cap, events) == window(events, cap),
    decreases events.len(),
{
    if events.len() > 0 {
        let p = events.drop_last();
        ring_keeps_latest(cap, p);
        lemma_window_push(p, events.last(), cap);
        assert(p.push(events.last()) =~= events);
    } else {
        assert(window(events, cap) =~= events);
    }
}

/// A run of records into a fresh buffer: starting from no events, each
/// step keeps the window of capacity `cap` over what was there plus the new
/// event (what `record` and `record_at` promise). After the run the buffer
/// holds the last `min(n, cap)` events recorded, oldest first, so its codes
/// are the last `min(n, cap)` codes recorded, in order.
pub proof fn a_run_of_records_keeps_the_latest(
    cap: nat,
    events: Seq<DiagnosticEvent>,
    views: Seq<Seq<DiagnosticEvent>>,
)
    requires
        cap > 0,
        views.len() == events.len() + 1,
        views[0] == Seq::<DiagnosticEvent>::empty(),
        forall|k: int| 0 <= k < events.len() ==> #[trigger] views[k + 1] == window(views[k].push(events[k]), cap),
    ensures
        views.last() == window(events, cap),
        views.last().len() == if events.len() < cap {
            events.len()
        } else {
            cap
        },
        views.last().map_values(|e: DiagnosticEvent| e.code_spec()) == window(
            events.map_values(|e: DiagnosticEvent| e.code_spec()),
            cap,
        ),
{
    assert forall|k: int| 0 <= k <= events.len() implies #[trigger] views[k] == replay(cap, events.take(k)) by {
        lemma_run_replays(cap, events, views, k);
    }
    assert(events.take(events.len() as int) =~= events);
    ring_keeps_latest(cap, events);
    let w = window(events, cap);
    let codes = events.map_values(|e: DiagnosticEvent| e.code_spec());
    if events.len() > cap {
        assert(w.map_values(|e: DiagnosticEvent| e.code_spec()) =~= codes.skip(codes.len() - cap));
    } else {
        assert(w.map_values(|e: DiagnosticEvent| e.code_spec()) =~= codes);
    }
}

/// The `k`-th state of such a run is the replay of the first `k` events.
proof fn lemma_run_replays(cap: nat, events: Seq<DiagnosticEvent>, views: Seq<Seq<DiagnosticEvent>>, k: int)
    requires
        cap > 0,
        views.len() == events.len() + 1,
        views[0] == Seq::<DiagnosticEvent>::empty(),
        forall|i: int| 0 <= i < events.len() ==> #[trigger] views[i + 1] == window(views[i].push(events[i]), cap),
        0 <= k <= events.len(),
    ensures
        views[k] == replay(cap, events.take(k)),
    decreases k,
{
    if k == 0 {
        assert(events.take(0) =~= Seq::<DiagnosticEvent>::empty());
    } else {
        lemma_run_replays(cap, events, views, k - 1);
        assert(views[(k - 1) + 1] == window(views[k - 1].push(events[k - 1]), cap));
        assert(events.take(k).drop_last() =~= events.take(k - 1));
        assert(events.take(k).last() == events[k - 1]);
    }
}

} // verus!
