//! The OCR job scheduler: debounce on the UI side, newest-wins cancellation
//! on the worker side.
//!
//! The UI thread owns a `Scheduler` (debounce timer plus the latest requested
//! geometry — the single-slot overwrite channel's content) and a
//! `Presentation` (the current overlay, replaced wholesale). The worker owns
//! a `Worker`: at most one job runs at a time, a newer request cancels the
//! running job, and a cancelled job's late result is discarded. The I/O layer
//! runs the loops and the real channels; every decision is made here.

use vstd::prelude::*;

use crate::geometry::PixelPoint;
use crate::layout::{PresentableLine, spec_cursor_applied, spec_cursor_changes};

verus! {

/// The debounce delay in milliseconds: triggers closer together than this
/// collapse into one dispatch.
pub const DEBOUNCE_MILLIS: u64 = 200;

/// The capture region requested for one job.
#[derive(Debug, Clone, Copy, PartialEq, Eq, Structural)]
pub struct Geometry {
    pub x: i32,
    pub y: i32,
    pub width: u32,
    pub height: u32,
}

/// UI-side debounce state: an optional pending deadline and the geometry of
/// the most recent trigger. A new trigger overwrites both — only the latest
/// geometry matters.
#[derive(Debug, Clone, Copy)]
pub struct Scheduler {
    pub deadline: Option<u64>,
    pub latest: Option<Geometry>,
}

/// A trigger invalidates the overlay and (re)arms the timer for a full
/// debounce delay from now, recording the trigger's geometry.
pub open spec fn spec_trigger(s: Scheduler, now: u64, geometry: Geometry) -> Scheduler {
    Scheduler { deadline: Some((now + DEBOUNCE_MILLIS) as u64), latest: Some(geometry) }
}

/// Polling at a frame tick: at or after the deadline, the timer disarms and
/// the latest geometry is dispatched; before it, nothing happens.
pub open spec fn spec_poll(s: Scheduler, now: u64) -> (Scheduler, Option<Geometry>) {
    match s.deadline {
        Some(d) => if d <= now {
            (Scheduler { deadline: None, latest: s.latest }, s.latest)
        } else {
            (s, None)
        },
        None => (s, None),
    }
}

impl Scheduler {
    pub fn new() -> (r: Self)
        ensures
            r.deadline is None,
            r.latest is None,
    {
        Self { deadline: None, latest: None }
    }

    /// A UI event that invalidates the overlay: the displayed text is cleared
    /// immediately and the debounce timer restarts from now with this
    /// trigger's geometry.
    pub fn schedule_ocr_job(&mut self, presentation: &mut Presentation, now: u64, geometry: Geometry)
        requires
            now + DEBOUNCE_MILLIS <= u64::MAX,
        ensures
            *final(self) == spec_trigger(*old(self), now, geometry),
            final(presentation).spec_lines() is None,
    {
        presentation.clear();
        self.deadline = Some(now + DEBOUNCE_MILLIS);
        self.latest = Some(geometry);
    }

    /// Polled once per frame tick: dispatches the latest geometry when the
    /// debounce deadline has passed, and disarms the timer.
    pub fn poll_expiry(&mut self, now: u64) -> (r: Option<Geometry>)
        ensures
            *final(self) == spec_poll(*old(self), now).0,
            r == spec_poll(*old(self), now).1,
    {
        match self.deadline {
            Some(d) => {
                if d <= now {
                    self.deadline = None;
                    self.latest
                } else {
                    None
                }
            },
            None => None,
        }
    }
}

/// A poll before the pending deadline dispatches nothing and changes nothing.
pub proof fn lemma_early_poll_no_dispatch(s: Scheduler, now: u64)
    requires
        s.deadline is Some,
        now < s.deadline->0,
    ensures
        spec_poll(s, now).1 is None,
        spec_poll(s, now).0 == s,
{
}

/// A UI-side event: a trigger with its geometry, or a frame-tick poll, each
/// carrying its time.
pub enum UiEvent {
    Trigger(u64, Geometry),
    Poll(u64),
}

/// The state after a mixed run of triggers and polls, with every geometry the
/// polls dispatched, in order.
pub open spec fn spec_run(s: Scheduler, events: Seq<UiEvent>) -> (Scheduler, Seq<Geometry>)
    decreases events.len(),
{
    if events.len() == 0 {
        (s, Seq::empty())
    } else {
        let (s1, out1) = spec_run(s, events.drop_last());
        match events.last() {
            UiEvent::Trigger(t, g) => (spec_trigger(s1, t, g), out1),
            UiEvent::Poll(t) => {
                let s2 = spec_poll(s1, t).0;
                let d = spec_poll(s1, t).1;
                (s2, out1 + match d {
                    Some(g) => seq![g],
                    None => Seq::empty(),
                })
            },
        }
    }
}

/// A run is a burst when every poll in it comes before the deadline then in
/// force (the trigger times also stay clear of the clock's end).
pub open spec fn spec_burst(s: Scheduler, events: Seq<UiEvent>) -> bool
    decreases events.len(),
{
    if events.len() == 0 {
        true
    } else {
        spec_burst(s, events.drop_last()) && match events.last() {
            UiEvent::Trigger(t, g) => t + DEBOUNCE_MILLIS <= u64::MAX,
            UiEvent::Poll(t) => {
                let s1 = spec_run(s, events.drop_last()).0;
                s1.deadline is Some ==> t < s1.deadline->0
            },
        }
    }
}

/// The last trigger of a run, if any.
pub open spec fn spec_last_trigger(events: Seq<UiEvent>) -> Option<(u64, Geometry)>
    decreases events.len(),
{
    if events.len() == 0 {
        None
    } else {
        match events.last() {
            UiEvent::Trigger(t, g) => Some((t, g)),
            UiEvent::Poll(_) => spec_last_trigger(events.drop_last()),
        }
    }
}

/// During a burst — any interleaving of triggers and frame polls in which no
/// poll reaches the pending deadline — nothing is dispatched, and the timer
/// ends armed at the last trigger's time plus the debounce delay, holding the
/// last trigger's geometry.
pub proof fn lemma_burst_dispatches_nothing(s0: Scheduler, events: Seq<UiEvent>)
    requires
        s0.deadline is None,
        spec_burst(s0, events),
    ensures
        spec_run(s0, events).1 == Seq::<Geometry>::empty(),
        match spec_last_trigger(events) {
            Some(tg) => spec_run(s0, events).0.deadline == Some((tg.0 + DEBOUNCE_MILLIS) as u64)
                && spec_run(s0, events).0.latest == Some(tg.1),
            None => spec_run(s0, events).0 == s0,
        },
    decreases events.len(),
{
    if events.len() > 0 {
        lemma_burst_dispatches_nothing(s0, events.drop_last());
        let s1 = spec_run(s0, events.drop_last()).0;
        match events.last() {
            UiEvent::Trigger(t, g) => {},
            UiEvent::Poll(t) => {
                assert(spec_run(s0, events).1 =~= Seq::<Geometry>::empty());
            },
        }
    }
}

/// N triggers within the debounce window, with frame polls in between,
/// result in exactly one dispatched job, and it uses the last (latest)
/// trigger's geometry.
pub proof fn lemma_burst_then_expiry_dispatches_once(s0: Scheduler, events: Seq<UiEvent>, poll_time: u64)
    requires
        s0.deadline is None,
        spec_burst(s0, events),
        spec_last_trigger(events) is Some,
        poll_time >= (spec_last_trigger(events)->0).0 + DEBOUNCE_MILLIS,
    ensures
        spec_run(s0, events.push(UiEvent::Poll(poll_time))).1
            == seq![(spec_last_trigger(events)->0).1],
        spec_run(s0, events.push(UiEvent::Poll(poll_time))).0.deadline is None,
{
    lemma_burst_dispatches_nothing(s0, events);
    let all = events.push(UiEvent::Poll(poll_time));
    assert(all.drop_last() =~= events);
    assert(spec_run(s0, all).1 =~= seq![(spec_last_trigger(events)->0).1]);
}

/// One in-flight capture+OCR request.
#[derive(Debug, Clone, Copy, PartialEq, Eq, Structural)]
pub struct Job {
    pub id: u64,
    pub geometry: Geometry,
}

/// Worker-side state: the job currently running, if any, and the next job
/// id. Job ids only grow, so a superseded job can never be mistaken for the
/// current one.
#[derive(Debug, Clone, Copy)]
pub struct Worker {
    pub running: Option<Job>,
    pub next_id: u64,
}

/// How many jobs are running: never more than one, by construction.
pub open spec fn running_jobs(w: Worker) -> nat {
    match w.running {
        Some(_) => 1nat,
        None => 0nat,
    }
}

/// A new request cancels whatever runs and starts a fresh job for the latest
/// geometry.
pub open spec fn spec_request(w: Worker, geometry: Geometry) -> (Worker, Job) {
    let j = Job { id: w.next_id, geometry };
    (Worker { running: Some(j), next_id: (w.next_id + 1) as u64 }, j)
}

/// A completion is accepted only when it reports the job that is still
/// running; a cancelled job's late completion changes nothing.
pub open spec fn spec_complete(w: Worker, id: u64) -> (Worker, bool) {
    match w.running {
        Some(j) => if j.id == id {
            (Worker { running: None, next_id: w.next_id }, true)
        } else {
            (w, false)
        },
        None => (w, false),
    }
}

impl Worker {
    pub open spec fn wf(self) -> bool {
        match self.running {
            Some(j) => j.id < self.next_id,
            None => true,
        }
    }

    pub fn new() -> (r: Self)
        ensures
            r.running is None,
            r.next_id == 0,
            r.wf(),
    {
        Self { running: None, next_id: 0 }
    }

    /// A new request supersedes and cancels the running job, if any; the
    /// newer job always wins.
    pub fn on_request(&mut self, geometry: Geometry) -> (j: Job)
        requires
            old(self).wf(),
            old(self).next_id < u64::MAX,
        ensures
            (*final(self), j) == spec_request(*old(self), geometry),
            j.id == old(self).next_id,
            j.geometry == geometry,
            final(self).running == Some(j),
            final(self).wf(),
    {
        let j = Job { id: self.next_id, geometry };
        self.running = Some(j);
        self.next_id = self.next_id + 1;
        j
    }

    /// Reports a finished job. The result is accepted only if that job is
    /// still the running one: a superseded job's result is discarded, so a
    /// stale result can never overwrite a newer job's.
    pub fn on_complete(&mut self, id: u64) -> (accepted: bool)
        requires
            old(self).wf(),
        ensures
            (*final(self), accepted) == spec_complete(*old(self), id),
            accepted == (old(self).running is Some && old(self).running->0.id == id),
            !accepted ==> *final(self) == *old(self),
            final(self).wf(),
    {
        match self.running {
            Some(j) => {
                if j.id == id {
                    self.running = None;
                    true
                } else {
                    false
                }
            },
            None => false,
        }
    }
}

/// At most one job is running system-wide at any instant, in every state the
/// worker can be in.
pub proof fn lemma_at_most_one_running(w: Worker)
    ensures
        running_jobs(w) <= 1,
{
}

/// Newest-wins cancellation: when job A is running and job B is dispatched,
/// A's late completion is discarded and changes nothing, while B's completion
/// is accepted.
pub proof fn lemma_newest_wins(w0: Worker, ga: Geometry, gb: Geometry)
    requires
        w0.wf(),
        w0.next_id + 1 < u64::MAX,
    ensures
        ({
            let (w1, a) = spec_request(w0, ga);
            let (w2, b) = spec_request(w1, gb);
            &&& spec_complete(w2, a.id).1 == false
            &&& spec_complete(w2, a.id).0 == w2
            &&& spec_complete(w2, b.id).1 == true
        }),
{
}

/// A worker-side event: a superseding request, or a job reporting completion.
pub enum WorkerEvent {
    Request(Geometry),
    Complete(u64),
}

/// The worker state after a run of requests and completions, with the ids of
/// the completions that were accepted, in order.
pub open spec fn spec_worker_run(w: Worker, events: Seq<WorkerEvent>) -> (Worker, Seq<u64>)
    decreases events.len(),
{
    if events.len() == 0 {
        (w, Seq::empty())
    } else {
        let (w1, acc1) = spec_worker_run(w, events.drop_last());
        match events.last() {
            WorkerEvent::Request(g) => (spec_request(w1, g).0, acc1),
            WorkerEvent::Complete(id) => {
                let w2 = spec_complete(w1, id).0;
                if spec_complete(w1, id).1 {
                    (w2, acc1.push(id))
                } else {
                    (w2, acc1)
                }
            },
        }
    }
}

/// A run stays within the job-id space: every request finds room for one
/// more id.
pub open spec fn spec_worker_ids_left(w: Worker, events: Seq<WorkerEvent>) -> bool
    decreases events.len(),
{
    if events.len() == 0 {
        true
    } else {
        spec_worker_ids_left(w, events.drop_last()) && match events.last() {
            WorkerEvent::Request(_) => spec_worker_run(w, events.drop_last()).0.next_id < u64::MAX,
            WorkerEvent::Complete(_) => true,
        }
    }
}

/// A job is superseded when its id was issued in the past and it is no
/// longer the running job — a newer request has displaced it.
pub open spec fn spec_superseded(w: Worker, id: u64) -> bool {
    id < w.next_id && (w.running is Some ==> w.running->0.id != id)
}

/// Once a job has been superseded, its completion is never accepted again,
/// whatever requests and completions follow: a stale job's result can never
/// overwrite a newer job's.
pub proof fn lemma_superseded_never_accepted(w0: Worker, events: Seq<WorkerEvent>, stale_id: u64)
    requires
        spec_superseded(w0, stale_id),
        spec_worker_ids_left(w0, events),
    ensures
        forall|k: int| 0 <= k < spec_worker_run(w0, events).1.len()
            ==> #[trigger] spec_worker_run(w0, events).1[k] != stale_id,
        spec_superseded(spec_worker_run(w0, events).0, stale_id),
    decreases events.len(),
{
    if events.len() > 0 {
        lemma_superseded_never_accepted(w0, events.drop_last(), stale_id);
        let w1 = spec_worker_run(w0, events.drop_last()).0;
        let acc1 = spec_worker_run(w0, events.drop_last()).1;
        match events.last() {
            WorkerEvent::Request(g) => {},
            WorkerEvent::Complete(id) => {
                if spec_complete(w1, id).1 {
                    assert(id != stale_id);
                    let out = spec_worker_run(w0, events).1;
                    assert(out == acc1.push(id));
                    assert(forall|k: int| 0 <= k < out.len() ==> #[trigger] out[k] != stale_id);
                }
            },
        }
    }
}

/// Requesting a new job while another runs supersedes the running one, so
/// `lemma_superseded_never_accepted` applies to it from then on.
pub proof fn lemma_request_supersedes_running(w: Worker, g: Geometry)
    requires
        w.wf(),
        w.next_id < u64::MAX,
        w.running is Some,
    ensures
        spec_superseded(spec_request(w, g).0, w.running->0.id),
{
}

/// The UI-side render state: the full set of lines from one completed job.
/// It is only ever replaced wholesale or cleared — the renderer and
/// hit-tester see a complete collection or none at all.
#[derive(Debug)]
pub struct Presentation {
    lines: Option<Vec<PresentableLine>>,
}

impl Presentation {
    pub closed spec fn spec_lines(self) -> Option<Seq<PresentableLine>> {
        match self.lines {
            Some(v) => Some(v@),
            None => None,
        }
    }

    pub fn new() -> (r: Self)
        ensures
            r.spec_lines() is None,
    {
        Self { lines: None }
    }

    /// Drops the displayed overlay, so stale text disappears before new text
    /// is ready.
    pub fn clear(&mut self)
        ensures
            final(self).spec_lines() is None,
    {
        self.lines = None;
    }

    /// Swaps in a completed job's collection atomically.
    pub fn replace(&mut self, lines: Vec<PresentableLine>)
        ensures
            final(self).spec_lines() == Some(lines@),
    {
        self.lines = Some(lines);
    }

    pub fn get_lines(&self) -> (r: &Option<Vec<PresentableLine>>)
        ensures
            match r {
                Some(v) => self.spec_lines() == Some(v@),
                None => self.spec_lines() is None,
            },
    {
        &self.lines
    }

    /// Whether every displayed line can be hit-tested within machine bounds.
    pub open spec fn hit_ready(self) -> bool {
        match self.spec_lines() {
            Some(ls) => forall|k: int| 0 <= k < ls.len() ==> (#[trigger] ls[k]).hit_ready(),
            None => true,
        }
    }

    /// Routes a cursor move to every displayed line and reports whether any
    /// highlight state changed, so the caller can skip a redraw when nothing
    /// did. With no overlay displayed, nothing changes.
    pub fn handle_cursor(&mut self, cursor_position: &PixelPoint) -> (changed: bool)
        requires
            old(self).hit_ready(),
        ensures
            final(self).hit_ready(),
            old(self).spec_lines() is None ==> final(self).spec_lines() is None && !changed,
            old(self).spec_lines() is Some ==> ({
                let ls0 = old(self).spec_lines()->0;
                &&& final(self).spec_lines() is Some
                &&& final(self).spec_lines()->0.len() == ls0.len()
                &&& forall|k: int| 0 <= k < ls0.len()
                    ==> spec_cursor_applied(ls0[k], #[trigger] final(self).spec_lines()->0[k], *cursor_position)
                &&& changed == exists|k: int| 0 <= k < ls0.len()
                    && spec_cursor_changes(#[trigger] ls0[k], *cursor_position)
            }),
    {
        match &mut self.lines {
            None => false,
            Some(v) => {
                let ghost ls0 = v@;
                let mut changed = false;
                let mut k: usize = 0;
                while k < v.len()
                    invariant
                        k <= ls0.len(),
                        v@.len() == ls0.len(),
                        forall|m: int| 0 <= m < ls0.len() ==> (#[trigger] ls0[m]).hit_ready(),
                        forall|m: int| k <= m < ls0.len() ==> #[trigger] v@[m] == ls0[m],
                        forall|m: int| 0 <= m < k ==> spec_cursor_applied(ls0[m], #[trigger] v@[m], *cursor_position)
                            && v@[m].hit_ready(),
                        changed == exists|m: int| 0 <= m < k && spec_cursor_changes(#[trigger] ls0[m], *cursor_position),
                    decreases ls0.len() - k,
                {
                    let line_changed = v[k].handle_cursor(cursor_position);
                    proof {
                        if line_changed {
                            assert(spec_cursor_changes(ls0[k as int], *cursor_position));
                        }
                    }
                    changed = changed || line_changed;
                    k += 1;
                }
                changed
            },
        }
    }

    /// The last highlighted word, as a (line, word) index pair; `None` when
    /// no word anywhere is highlighted. When overlapping derived extents
    /// leave several words highlighted at once, the last wins — its popup is
    /// the one a click shows.
    pub fn find_highlighted(&self) -> (r: Option<(usize, usize)>)
        ensures
            match self.spec_lines() {
                None => r is None,
                Some(ls) => match r {
                    Some(p) => p.0 < ls.len() && p.1 < ls[p.0 as int].spec_words().len()
                        && ls[p.0 as int].spec_words()[p.1 as int].is_highlighted
                        && forall|k: int, j: int| 0 <= k < ls.len() && 0 <= j < ls[k].spec_words().len()
                            && (k > p.0 || (k == p.0 && j > p.1))
                            ==> !(#[trigger] ls[k].spec_words()[j]).is_highlighted,
                    None => forall|k: int, j: int| 0 <= k < ls.len() && 0 <= j < ls[k].spec_words().len()
                        ==> !(#[trigger] ls[k].spec_words()[j]).is_highlighted,
                },
            },
    {
        match &self.lines {
            None => None,
            Some(v) => {
                let ghost ls = v@;
                let mut found: Option<(usize, usize)> = None;
                let mut k: usize = 0;
                while k < v.len()
                    invariant
                        self.spec_lines() == Some(ls),
                        k <= ls.len(),
                        v@ == ls,
                        match found {
                            Some(p) => p.0 < k && p.1 < ls[p.0 as int].spec_words().len()
                                && ls[p.0 as int].spec_words()[p.1 as int].is_highlighted
                                && forall|m: int, j2: int| 0 <= m < k && 0 <= j2 < ls[m].spec_words().len()
                                    && (m > p.0 || (m == p.0 && j2 > p.1))
                                    ==> !(#[trigger] ls[m].spec_words()[j2]).is_highlighted,
                            None => forall|m: int, j2: int| 0 <= m < k && 0 <= j2 < ls[m].spec_words().len()
                                ==> !(#[trigger] ls[m].spec_words()[j2]).is_highlighted,
                        },
                    decreases ls.len() - k,
                {
                    let words = v[k].get_words();
                    let mut j: usize = 0;
                    while j < words.len()
                        invariant
                            self.spec_lines() == Some(ls),
                            k < ls.len(),
                            v@ == ls,
                            words@.map_values(|w: crate::layout::PresentableWord| w@) == ls[k as int].spec_words(),
                            j <= ls[k as int].spec_words().len(),
                            words@.len() == ls[k as int].spec_words().len(),
                            match found {
                                Some(p) => (p.0 < k || (p.0 == k && p.1 < j))
                                    && p.1 < ls[p.0 as int].spec_words().len()
                                    && ls[p.0 as int].spec_words()[p.1 as int].is_highlighted
                                    && forall|m: int, j2: int| 0 <= m < ls.len() && 0 <= j2 < ls[m].spec_words().len()
                                        && (m < k || (m == k && j2 < j))
                                        && (m > p.0 || (m == p.0 && j2 > p.1))
                                        ==> !(#[trigger] ls[m].spec_words()[j2]).is_highlighted,
                                None => forall|m: int, j2: int| 0 <= m < ls.len() && 0 <= j2 < ls[m].spec_words().len()
                                    && (m < k || (m == k && j2 < j))
                                    ==> !(#[trigger] ls[m].spec_words()[j2]).is_highlighted,
                            },
                        decreases words@.len() - j,
                    {
                        proof {
                            assert(ls[k as int].spec_words()[j as int] == words@[j as int]@);
                        }
                        if words[j].is_highlighted() {
                            found = Some((k, j));
                        }
                        j += 1;
                    }
                    k += 1;
                }
                found
            },
        }
    }
}

} // verus!
