//! The per-host execution engine.
//!
//! A host's run is a state machine.  The surrounding runner performs one
//! outside action at a time — dial, handshake, authenticate, run one task —
//! and feeds the observed outcome back in as an event; the machine decides
//! what happens next.  The decisions encode the runner's policy: scrolls
//! are taken up in reverse of their declared order, tasks within a scroll
//! in declared order, a failed task or a transport error abandons the rest
//! of its scroll only, and a setup failure ends the whole host run.

use vstd::prelude::*;

use crate::scrolls::Scroll;

verus! {

/// Where a host's run stands.  `Running { scroll, task }` means task
/// `task` of scroll `scroll` (both indices into the declared order) is the
/// next thing to run.
#[derive(Debug, Clone, Copy, PartialEq, Eq, Structural)]
pub enum Phase {
    Dialing,
    Handshaking,
    Authenticating,
    Running { scroll: usize, task: usize },
    Done,
    Fatal,
}

/// What the surrounding runner observed while performing the current
/// action.
#[derive(Debug, Clone, Copy, PartialEq, Eq, Structural)]
pub enum Event {
    DialOk,
    DialFailed,
    HandshakeOk,
    HandshakeFailed,
    AuthOk,
    AuthFailed,
    /// The task ran to completion and reported this exit status.
    TaskExited(i32),
    /// A transport or I/O error kept the task from reporting a status.
    TaskError,
}

/// What the surrounding runner must do next.
#[derive(Debug, Clone, Copy, PartialEq, Eq, Structural)]
pub enum Action {
    Dial,
    Handshake,
    Authenticate,
    RunTask { scroll: usize, task: usize },
    Finish { fatal: bool },
}

/// How many tasks each scroll has.
pub open spec fn scroll_lens(scrolls: Seq<Scroll>) -> Seq<int> {
    scrolls.map_values(|s: Scroll| s.tasks@.len() as int)
}

/// The phase on turning to the scrolls below index `n`: the first task of
/// the highest-indexed scroll below `n` that has any tasks, or `Done` when
/// none of them has.
pub open spec fn spec_enter(lens: Seq<int>, n: int) -> Phase
    decreases n,
{
    if n <= 0 {
        Phase::Done
    } else if lens[n - 1] > 0 {
        Phase::Running { scroll: (n - 1) as usize, task: 0 }
    } else {
        spec_enter(lens, n - 1)
    }
}

/// One transition of the machine.  The step is total: an event that does
/// not answer the current phase leaves the machine unchanged.
pub open spec fn spec_step(lens: Seq<int>, ph: Phase, ev: Event) -> Phase {
    match (ph, ev) {
        (Phase::Dialing, Event::DialOk) => Phase::Handshaking,
        (Phase::Dialing, Event::DialFailed) => Phase::Fatal,
        (Phase::Handshaking, Event::HandshakeOk) => Phase::Authenticating,
        (Phase::Handshaking, Event::HandshakeFailed) => Phase::Fatal,
        (Phase::Authenticating, Event::AuthOk) => spec_enter(lens, lens.len() as int),
        (Phase::Authenticating, Event::AuthFailed) => Phase::Fatal,
        (Phase::Running { scroll, task }, Event::TaskExited(code)) => if code > 0 {
            spec_enter(lens, scroll as int)
        } else if task + 1 < lens[scroll as int] {
            Phase::Running { scroll, task: (task + 1) as usize }
        } else {
            spec_enter(lens, scroll as int)
        },
        (Phase::Running { scroll, task: _ }, Event::TaskError) => spec_enter(lens, scroll as int),
        (_, _) => ph,
    }
}

/// The machine after a whole sequence of events.
pub open spec fn spec_run(lens: Seq<int>, ph: Phase, evs: Seq<Event>) -> Phase
    decreases evs.len(),
{
    if evs.len() == 0 {
        ph
    } else {
        spec_run(lens, spec_step(lens, ph, evs[0]), evs.drop_first())
    }
}

/// A `Running` cursor always points at an existing task.
pub open spec fn phase_inv(lens: Seq<int>, ph: Phase) -> bool {
    match ph {
        Phase::Running { scroll, task } => (scroll as int) < lens.len() && (task as int)
            < lens[scroll as int],
        _ => true,
    }
}

/// What entering the scrolls below `n` yields: either `Done` with nothing
/// below `n` left to run, or the first task of the highest-indexed
/// non-empty scroll below `n`.
pub proof fn lemma_enter_properties(lens: Seq<int>, n: int)
    requires
        0 <= n <= lens.len(),
        lens.len() <= usize::MAX,
    ensures
        match spec_enter(lens, n) {
            Phase::Done => forall|k: int| 0 <= k < n ==> lens[k] <= 0,
            Phase::Running { scroll, task } => {
                &&& task == 0
                &&& 0 <= (scroll as int) && (scroll as int) < n
                &&& lens[scroll as int] > 0
                &&& forall|k: int| (scroll as int) < k < n ==> lens[k] <= 0
            },
            _ => false,
        },
    decreases n,
{
    if n <= 0 {
    } else if lens[n - 1] > 0 {
    } else {
        lemma_enter_properties(lens, n - 1);
    }
}

/// One step out of a phase with a valid cursor lands in a phase with a
/// valid cursor.
pub proof fn lemma_step_preserves_inv(lens: Seq<int>, ph: Phase, ev: Event)
    requires
        lens.len() <= usize::MAX,
        phase_inv(lens, ph),
    ensures
        phase_inv(lens, spec_step(lens, ph, ev)),
{
    match (ph, ev) {
        (Phase::Authenticating, Event::AuthOk) => {
            lemma_enter_properties(lens, lens.len() as int);
        },
        (Phase::Running { scroll, task: _ }, Event::TaskExited(_)) => {
            lemma_enter_properties(lens, scroll as int);
        },
        (Phase::Running { scroll, task: _ }, Event::TaskError) => {
            lemma_enter_properties(lens, scroll as int);
        },
        _ => {},
    }
}

/// Stepping over one more event is one more step.
pub proof fn lemma_run_push(lens: Seq<int>, ph: Phase, evs: Seq<Event>, ev: Event)
    ensures
        spec_run(lens, ph, evs.push(ev)) == spec_step(lens, spec_run(lens, ph, evs), ev),
    decreases evs.len(),
{
    if evs.len() == 0 {
        assert(evs.push(ev)[0] == ev);
        assert(evs.push(ev).drop_first() =~= Seq::<Event>::empty());
        assert(spec_run(lens, ph, evs.push(ev)) == spec_run(
            lens,
            spec_step(lens, ph, ev),
            Seq::<Event>::empty(),
        ));
    } else {
        assert(evs.push(ev)[0] == evs[0]);
        assert(evs.push(ev).drop_first() =~= evs.drop_first().push(ev));
        lemma_run_push(lens, spec_step(lens, ph, evs[0]), evs.drop_first(), ev);
        assert(spec_run(lens, ph, evs.push(ev)) == spec_run(
            lens,
            spec_step(lens, ph, evs[0]),
            evs.drop_first().push(ev),
        ));
        assert(spec_run(lens, ph, evs) == spec_run(
            lens,
            spec_step(lens, ph, evs[0]),
            evs.drop_first(),
        ));
    }
}

/// `Done` and `Fatal` are absorbing: once a host's run is over, no event
/// moves it anywhere else.
pub proof fn lemma_finished_is_absorbing(lens: Seq<int>, ph: Phase, evs: Seq<Event>)
    requires
        ph is Done || ph is Fatal,
    ensures
        spec_run(lens, ph, evs) == ph,
    decreases evs.len(),
{
    if evs.len() > 0 {
        assert(spec_step(lens, ph, evs[0]) == ph);
        lemma_finished_is_absorbing(lens, ph, evs.drop_first());
    }
}

/// One attempted task: which scroll it belongs to, which task it is, and
/// the event that reported its outcome.
pub ghost struct Attempt {
    pub scroll: int,
    pub task: int,
    pub ev: Event,
}

/// An event that reports a task's outcome.
pub open spec fn is_task_event(ev: Event) -> bool {
    ev is TaskExited || ev is TaskError
}

/// The attempt one step records: the machine stands at a task and the
/// event reports that task's outcome.
pub open spec fn att_of(ph: Phase, ev: Event) -> Seq<Attempt> {
    match ph {
        Phase::Running { scroll, task } => if is_task_event(ev) {
            seq![Attempt { scroll: scroll as int, task: task as int, ev }]
        } else {
            Seq::empty()
        },
        _ => Seq::empty(),
    }
}

/// Every task attempted over a sequence of events, in order.
pub open spec fn spec_attempts(lens: Seq<int>, ph: Phase, evs: Seq<Event>) -> Seq<Attempt>
    decreases evs.len(),
{
    if evs.len() == 0 {
        Seq::empty()
    } else {
        att_of(ph, evs[0]) + spec_attempts(lens, spec_step(lens, ph, evs[0]), evs.drop_first())
    }
}

/// An attempt that points at an existing task and carries a task event.
pub open spec fn valid_att(lens: Seq<int>, a: Attempt) -> bool {
    &&& 0 <= a.scroll && a.scroll < lens.len()
    &&& 0 <= a.task && a.task < lens[a.scroll]
    &&& is_task_event(a.ev)
}

/// `b` is exactly where the machine stands right after attempt `a`.
pub open spec fn att_next(lens: Seq<int>, a: Attempt, b: Attempt) -> bool {
    match spec_step(
        lens,
        Phase::Running { scroll: a.scroll as usize, task: a.task as usize },
        a.ev,
    ) {
        Phase::Running { scroll, task } => b.scroll == scroll as int && b.task == task as int,
        _ => false,
    }
}

/// What the first attempt of a trace can be, given the starting phase:
/// the current cursor when the machine is already at a task; nothing at
/// all once the run is over; otherwise the first task of the
/// highest-indexed scroll that has tasks.
pub open spec fn first_att_ok(lens: Seq<int>, ph: Phase, a: Attempt) -> bool {
    match ph {
        Phase::Running { scroll, task } => a.scroll == scroll as int && a.task == task as int,
        Phase::Done => false,
        Phase::Fatal => false,
        _ => {
            &&& a.task == 0
            &&& 0 <= a.scroll && a.scroll < lens.len()
            &&& lens[a.scroll] > 0
            &&& forall|k: int| a.scroll < k < lens.len() ==> lens[k] <= 0
        },
    }
}

/// The backbone of the ordering laws: every attempt points at an existing
/// task, consecutive attempts follow the machine's step relation, and the
/// starting phase pins the first attempt.
pub proof fn lemma_attempts_chain(lens: Seq<int>, ph: Phase, evs: Seq<Event>)
    requires
        lens.len() <= usize::MAX,
        phase_inv(lens, ph),
    ensures
        forall|i: int|
            0 <= i < spec_attempts(lens, ph, evs).len() ==> valid_att(
                lens,
                #[trigger] spec_attempts(lens, ph, evs)[i],
            ),
        forall|i: int, j: int|
            0 <= i && i + 1 == j && j < spec_attempts(lens, ph, evs).len() ==> att_next(
                lens,
                #[trigger] spec_attempts(lens, ph, evs)[i],
                #[trigger] spec_attempts(lens, ph, evs)[j],
            ),
        spec_attempts(lens, ph, evs).len() > 0 ==> first_att_ok(
            lens,
            ph,
            spec_attempts(lens, ph, evs)[0],
        ),
    decreases evs.len(),
{
    if evs.len() == 0 {
    } else {
        let e = evs[0];
        let ph2 = spec_step(lens, ph, e);
        let atts = spec_attempts(lens, ph, evs);
        let head = att_of(ph, e);
        let tail = spec_attempts(lens, ph2, evs.drop_first());
        lemma_step_preserves_inv(lens, ph, e);
        lemma_attempts_chain(lens, ph2, evs.drop_first());
        assert(atts == head + tail);
        match ph {
            Phase::Running { scroll, task } => {
                if is_task_event(e) {
                    let a0 = Attempt { scroll: scroll as int, task: task as int, ev: e };
                    assert(head == seq![a0]);
                    assert(atts[0] == a0);
                    assert(valid_att(lens, a0));
                    if tail.len() > 0 {
                        lemma_enter_properties(lens, scroll as int);
                        assert(first_att_ok(lens, ph2, tail[0]));
                        assert(atts[1] == tail[0]);
                        assert(att_next(lens, a0, tail[0]));
                    }
                    assert forall|i: int| 1 <= i < atts.len() implies valid_att(
                        lens,
                        atts[i],
                    ) by {
                        assert(atts[i] == tail[i - 1]);
                    }
                    assert forall|i: int, j: int|
                        1 <= i && i + 1 == j && j < atts.len() implies att_next(
                        lens,
                        atts[i],
                        atts[j],
                    ) by {
                        assert(atts[i] == tail[i - 1]);
                        assert(atts[j] == tail[j - 1]);
                        assert(att_next(lens, tail[i - 1], tail[i]));
                    }
                } else {
                    assert(ph2 == ph);
                    assert(atts =~= tail);
                }
            },
            Phase::Authenticating => {
                assert(head =~= Seq::<Attempt>::empty());
                assert(atts =~= tail);
                if e is AuthOk && tail.len() > 0 {
                    lemma_enter_properties(lens, lens.len() as int);
                    assert(first_att_ok(lens, ph2, tail[0]));
                    assert(first_att_ok(lens, ph, tail[0]));
                }
            },
            _ => {
                assert(head =~= Seq::<Attempt>::empty());
                assert(atts =~= tail);
            },
        }
    }
}

/// With the chain in hand, scroll indices never grow along the attempts,
/// and within one scroll the task indices strictly grow.
proof fn lemma_chain_monotone(lens: Seq<int>, atts: Seq<Attempt>, i: int, j: int)
    requires
        lens.len() <= usize::MAX,
        forall|k: int| 0 <= k < lens.len() ==> #[trigger] lens[k] <= usize::MAX,
        forall|k: int| 0 <= k < atts.len() ==> valid_att(lens, #[trigger] atts[k]),
        forall|k: int, l: int|
            0 <= k && k + 1 == l && l < atts.len() ==> att_next(
                lens,
                #[trigger] atts[k],
                #[trigger] atts[l],
            ),
        0 <= i <= j < atts.len(),
    ensures
        atts[j].scroll <= atts[i].scroll,
        i < j && atts[j].scroll == atts[i].scroll ==> atts[j].task > atts[i].task,
    decreases j - i,
{
    if i < j {
        lemma_chain_monotone(lens, atts, i, j - 1);
        let a = atts[j - 1];
        let b = atts[j];
        assert(att_next(lens, a, b));
        assert(valid_att(lens, a));
        let ra = Phase::Running { scroll: a.scroll as usize, task: a.task as usize };
        match a.ev {
            Event::TaskExited(code) => {
                if code <= 0 && a.task + 1 < lens[a.scroll] {
                    assert(spec_step(lens, ra, a.ev) == (Phase::Running {
                        scroll: a.scroll as usize,
                        task: (a.task + 1) as usize,
                    }));
                    assert(b.scroll == a.scroll && b.task == a.task + 1);
                } else {
                    assert(spec_step(lens, ra, a.ev) == spec_enter(lens, a.scroll));
                    lemma_enter_properties(lens, a.scroll);
                    assert(b.scroll < a.scroll && b.task == 0);
                }
            },
            Event::TaskError => {
                assert(spec_step(lens, ra, a.ev) == spec_enter(lens, a.scroll));
                lemma_enter_properties(lens, a.scroll);
                assert(b.scroll < a.scroll && b.task == 0);
            },
            _ => {
                assert(false);
            },
        }
    }
}

/// Which scrolls a phase has already dealt with.
pub open spec fn covered(ph: Phase, s: int) -> bool {
    match ph {
        Phase::Running { scroll, task: _ } => s > scroll as int,
        Phase::Done => true,
        _ => false,
    }
}

/// Every scroll with tasks that a run newly covers shows up among the
/// run's attempts.
pub proof fn lemma_run_covers(lens: Seq<int>, ph: Phase, evs: Seq<Event>)
    requires
        lens.len() <= usize::MAX,
        phase_inv(lens, ph),
    ensures
        forall|s: int|
            0 <= s < lens.len() && lens[s] > 0 && !covered(ph, s) && covered(
                spec_run(lens, ph, evs),
                s,
            ) ==> exists|i: int|
                0 <= i < spec_attempts(lens, ph, evs).len() && (#[trigger] spec_attempts(
                    lens,
                    ph,
                    evs,
                )[i]).scroll == s,
    decreases evs.len(),
{
    if evs.len() == 0 {
    } else {
        let e = evs[0];
        let ph2 = spec_step(lens, ph, e);
        let atts = spec_attempts(lens, ph, evs);
        let head = att_of(ph, e);
        let tail = spec_attempts(lens, ph2, evs.drop_first());
        lemma_step_preserves_inv(lens, ph, e);
        lemma_run_covers(lens, ph2, evs.drop_first());
        assert(atts == head + tail);
        assert(spec_run(lens, ph, evs) == spec_run(lens, ph2, evs.drop_first()));
        assert forall|s: int|
            0 <= s < lens.len() && lens[s] > 0 && !covered(ph, s) && covered(
                spec_run(lens, ph, evs),
                s,
            ) implies exists|i: int|
            0 <= i < atts.len() && (#[trigger] atts[i]).scroll == s by {
            if !covered(ph2, s) {
                let k = choose|k: int|
                    0 <= k < tail.len() && (#[trigger] tail[k]).scroll == s;
                assert(atts[head.len() + k] == tail[k]);
            } else {
                match ph {
                    Phase::Running { scroll, task } => {
                        lemma_enter_properties(lens, scroll as int);
                        assert(is_task_event(e));
                        assert(s == scroll as int);
                        assert(atts[0].scroll == s);
                    },
                    Phase::Authenticating => {
                        lemma_enter_properties(lens, lens.len() as int);
                        assert(false);
                    },
                    _ => {
                        assert(false);
                    },
                }
            }
        }
    }
}

/// The attempts of one full host run, started from the beginning.
pub open spec fn run_attempts(scrolls: Seq<Scroll>, evs: Seq<Event>) -> Seq<Attempt> {
    spec_attempts(scroll_lens(scrolls), Phase::Dialing, evs)
}

/// The phase one full host run ends in.
pub open spec fn run_phase(scrolls: Seq<Scroll>, evs: Seq<Event>) -> Phase {
    spec_run(scroll_lens(scrolls), Phase::Dialing, evs)
}

/// Tasks of a scroll run in their declared order, or not at all: in any
/// full run, every attempt is either the first task of its scroll or comes
/// right after the attempt of the previous task of the same scroll.
pub proof fn lemma_tasks_in_declared_order(scrolls: Seq<Scroll>, evs: Seq<Event>)
    requires
        scrolls.len() <= usize::MAX,
        forall|s: int|
            0 <= s < scrolls.len() ==> (#[trigger] scrolls[s]).tasks@.len() <= usize::MAX,
    ensures
        forall|i: int|
            0 <= i < run_attempts(scrolls, evs).len() ==> (#[trigger] run_attempts(
                scrolls,
                evs,
            )[i]).task == 0 || (0 < i && run_attempts(scrolls, evs)[i - 1].scroll
                == run_attempts(scrolls, evs)[i].scroll && run_attempts(scrolls, evs)[i
                - 1].task + 1 == run_attempts(scrolls, evs)[i].task),
{
    let lens = scroll_lens(scrolls);
    let atts = run_attempts(scrolls, evs);
    lemma_attempts_chain(lens, Phase::Dialing, evs);
    assert forall|i: int| 0 <= i < atts.len() implies (#[trigger] atts[i]).task == 0 || (0 < i
        && atts[i - 1].scroll == atts[i].scroll && atts[i - 1].task + 1 == atts[i].task) by {
        if i == 0 {
            assert(first_att_ok(lens, Phase::Dialing, atts[0]));
        } else {
            let a = atts[i - 1];
            let b = atts[i];
            assert(att_next(lens, a, b));
            assert(valid_att(lens, a));
            let ra = Phase::Running { scroll: a.scroll as usize, task: a.task as usize };
            match a.ev {
                Event::TaskExited(code) => {
                    if code <= 0 && a.task + 1 < lens[a.scroll] {
                        assert(spec_step(lens, ra, a.ev) == (Phase::Running {
                            scroll: a.scroll as usize,
                            task: (a.task + 1) as usize,
                        }));
                        assert(b.scroll == a.scroll && b.task == a.task + 1);
                    } else {
                        assert(spec_step(lens, ra, a.ev) == spec_enter(lens, a.scroll));
                        lemma_enter_properties(lens, a.scroll);
                        assert(b.task == 0);
                    }
                },
                Event::TaskError => {
                    assert(spec_step(lens, ra, a.ev) == spec_enter(lens, a.scroll));
                    lemma_enter_properties(lens, a.scroll);
                    assert(b.task == 0);
                },
                _ => {
                    assert(false);
                },
            }
        }
    }
}

/// Scrolls are taken up in reverse of their declared order: attempts on an
/// earlier-declared scroll all come after every attempt on a
/// later-declared one, and a run that ends in `Done` has attempted every
/// scroll that has tasks.
pub proof fn lemma_scrolls_in_reverse_order(scrolls: Seq<Scroll>, evs: Seq<Event>)
    requires
        scrolls.len() <= usize::MAX,
        forall|s: int|
            0 <= s < scrolls.len() ==> (#[trigger] scrolls[s]).tasks@.len() <= usize::MAX,
    ensures
        forall|i: int, j: int|
            0 <= i <= j < run_attempts(scrolls, evs).len() ==> (#[trigger] run_attempts(
                scrolls,
                evs,
            )[j]).scroll <= (#[trigger] run_attempts(scrolls, evs)[i]).scroll,
        run_phase(scrolls, evs) is Done ==> forall|s: int|
            0 <= s < scrolls.len() && (#[trigger] scrolls[s]).tasks@.len() > 0 ==> exists|i: int|
                0 <= i < run_attempts(scrolls, evs).len() && (#[trigger] run_attempts(
                    scrolls,
                    evs,
                )[i]).scroll == s,
{
    let lens = scroll_lens(scrolls);
    let atts = run_attempts(scrolls, evs);
    lemma_attempts_chain(lens, Phase::Dialing, evs);
    lemma_run_covers(lens, Phase::Dialing, evs);
    assert forall|i: int, j: int| 0 <= i <= j < atts.len() implies (#[trigger] atts[j]).scroll
        <= (#[trigger] atts[i]).scroll by {
        lemma_chain_monotone(lens, atts, i, j);
    }
    if run_phase(scrolls, evs) is Done {
        assert forall|s: int|
            0 <= s < scrolls.len() && (#[trigger] scrolls[s]).tasks@.len() > 0 implies exists|
            i: int,
        |
            0 <= i < atts.len() && (#[trigger] atts[i]).scroll == s by {
            assert(lens[s] == scrolls[s].tasks@.len());
            assert(!covered(Phase::Dialing, s));
            assert(covered(spec_run(lens, Phase::Dialing, evs), s));
        }
    }
}

/// A strictly positive exit status ends its scroll: nothing of that scroll
/// is attempted afterwards; the very next attempt, if there is one, starts
/// a later-declared scroll at its first task; and a run that ends in
/// `Done` still attempts every later-declared scroll that has tasks.
pub proof fn lemma_positive_status_aborts_scroll(scrolls: Seq<Scroll>, evs: Seq<Event>, i: int)
    requires
        scrolls.len() <= usize::MAX,
        forall|s: int|
            0 <= s < scrolls.len() ==> (#[trigger] scrolls[s]).tasks@.len() <= usize::MAX,
        0 <= i < run_attempts(scrolls, evs).len(),
        run_attempts(scrolls, evs)[i].ev matches Event::TaskExited(code) && code > 0,
    ensures
        forall|j: int|
            i < j < run_attempts(scrolls, evs).len() ==> (#[trigger] run_attempts(
                scrolls,
                evs,
            )[j]).scroll < run_attempts(scrolls, evs)[i].scroll,
        i + 1 < run_attempts(scrolls, evs).len() ==> run_attempts(scrolls, evs)[i + 1].task == 0,
        run_phase(scrolls, evs) is Done ==> forall|s: int|
            0 <= s < run_attempts(scrolls, evs)[i].scroll && (#[trigger] scrolls[s]).tasks@.len()
                > 0 ==> exists|j: int|
                i < j < run_attempts(scrolls, evs).len() && (#[trigger] run_attempts(
                    scrolls,
                    evs,
                )[j]).scroll == s,
{
    let lens = scroll_lens(scrolls);
    let atts = run_attempts(scrolls, evs);
    lemma_attempts_chain(lens, Phase::Dialing, evs);
    lemma_run_covers(lens, Phase::Dialing, evs);
    assert(valid_att(lens, atts[i]));
    if i + 1 < atts.len() {
        let a = atts[i];
        let b = atts[i + 1];
        assert(att_next(lens, a, b));
        let ra = Phase::Running { scroll: a.scroll as usize, task: a.task as usize };
        assert(spec_step(lens, ra, a.ev) == spec_enter(lens, a.scroll));
        lemma_enter_properties(lens, a.scroll);
        assert(b.scroll < a.scroll && b.task == 0);
    }
    assert forall|j: int| i < j < atts.len() implies (#[trigger] atts[j]).scroll
        < atts[i].scroll by {
        lemma_chain_monotone(lens, atts, i + 1, j);
    }
    if run_phase(scrolls, evs) is Done {
        assert forall|s: int|
            0 <= s < atts[i].scroll && (#[trigger] scrolls[s]).tasks@.len() > 0 implies exists|
            j: int,
        |
            i < j < atts.len() && (#[trigger] atts[j]).scroll == s by {
            assert(lens[s] == scrolls[s].tasks@.len());
            assert(0 <= s < lens.len());
            assert(!covered(Phase::Dialing, s));
            assert(covered(spec_run(lens, Phase::Dialing, evs), s));
            assert(exists|k: int| 0 <= k < atts.len() && (#[trigger] atts[k]).scroll == s);
            let k = choose|k: int| 0 <= k < atts.len() && (#[trigger] atts[k]).scroll == s;
            if k <= i {
                lemma_chain_monotone(lens, atts, k, i);
                assert(false);
            }
            assert(i < k < atts.len() && atts[k].scroll == s);
        }
    }
}

/// What the runner must do in a given phase.
pub open spec fn spec_action(ph: Phase) -> Action {
    match ph {
        Phase::Dialing => Action::Dial,
        Phase::Handshaking => Action::Handshake,
        Phase::Authenticating => Action::Authenticate,
        Phase::Running { scroll, task } => Action::RunTask { scroll, task },
        Phase::Done => Action::Finish { fatal: false },
        Phase::Fatal => Action::Finish { fatal: true },
    }
}

/// Finds the phase the run proceeds with once scroll `n` and everything
/// above it is dealt with.
fn enter_phase(scrolls: &Vec<Scroll>, n: usize) -> (ph: Phase)
    requires
        n <= scrolls@.len(),
    ensures
        ph == spec_enter(scroll_lens(scrolls@), n as int),
{
    let mut m = n;
    while m > 0
        invariant
            0 <= m <= n <= scrolls@.len(),
            spec_enter(scroll_lens(scrolls@), n as int) == spec_enter(
                scroll_lens(scrolls@),
                m as int,
            ),
        decreases m,
    {
        if scrolls[m - 1].tasks.len() > 0 {
            return Phase::Running { scroll: m - 1, task: 0 };
        }
        m = m - 1;
    }
    Phase::Done
}

/// One host's execution engine: the scrolls to apply, in declared order,
/// and where the run stands.  The ghost history records every event the
/// machine has consumed, so that the run as a whole can be reasoned about.
pub struct Executor {
    pub scrolls: Vec<Scroll>,
    pub phase: Phase,
    pub history: Ghost<Seq<Event>>,
}

impl Executor {
    /// How many tasks each of this host's scrolls has.
    pub open spec fn lens(&self) -> Seq<int> {
        scroll_lens(self.scrolls@)
    }

    /// The phase is exactly the machine run over the recorded history, and
    /// a `Running` cursor points at an existing task.
    pub open spec fn inv(&self) -> bool {
        &&& phase_inv(self.lens(), self.phase)
        &&& self.phase == spec_run(self.lens(), Phase::Dialing, self.history@)
    }

    pub fn new(scrolls: Vec<Scroll>) -> (r: Executor)
        ensures
            r.scrolls@ == scrolls@,
            r.phase == Phase::Dialing,
            r.history@ == Seq::<Event>::empty(),
            r.inv(),
    {
        Executor { scrolls, phase: Phase::Dialing, history: Ghost(Seq::empty()) }
    }

    /// What the surrounding runner must do next.
    pub fn action(&self) -> (a: Action)
        ensures
            a == spec_action(self.phase),
    {
        match self.phase {
            Phase::Dialing => Action::Dial,
            Phase::Handshaking => Action::Handshake,
            Phase::Authenticating => Action::Authenticate,
            Phase::Running { scroll, task } => Action::RunTask { scroll, task },
            Phase::Done => Action::Finish { fatal: false },
            Phase::Fatal => Action::Finish { fatal: true },
        }
    }

    /// Consumes the outcome of the current action and moves to the next
    /// phase, as `spec_step` says.
    pub fn step(&mut self, ev: Event)
        requires
            old(self).inv(),
        ensures
            final(self).scrolls == old(self).scrolls,
            final(self).phase == spec_step(old(self).lens(), old(self).phase, ev),
            final(self).history@ == old(self).history@.push(ev),
            final(self).inv(),
    {
        let ghost prev = *self;
        let n = self.scrolls.len();
        let next = match (self.phase, ev) {
            (Phase::Dialing, Event::DialOk) => Phase::Handshaking,
            (Phase::Dialing, Event::DialFailed) => Phase::Fatal,
            (Phase::Handshaking, Event::HandshakeOk) => Phase::Authenticating,
            (Phase::Handshaking, Event::HandshakeFailed) => Phase::Fatal,
            (Phase::Authenticating, Event::AuthOk) => enter_phase(&self.scrolls, n),
            (Phase::Authenticating, Event::AuthFailed) => Phase::Fatal,
            (Phase::Running { scroll, task }, Event::TaskExited(code)) => {
                let task_count = self.scrolls[scroll].tasks.len();
                if code > 0 {
                    enter_phase(&self.scrolls, scroll)
                } else if task < task_count - 1 {
                    Phase::Running { scroll, task: task + 1 }
                } else {
                    enter_phase(&self.scrolls, scroll)
                }
            },
            (Phase::Running { scroll, task: _ }, Event::TaskError) => enter_phase(
                &self.scrolls,
                scroll,
            ),
            (ph, _) => ph,
        };
        self.phase = next;
        proof {
            self.history@ = prev.history@.push(ev);
            lemma_run_push(prev.lens(), Phase::Dialing, prev.history@, ev);
            lemma_step_preserves_inv(prev.lens(), prev.phase, ev);
        }
    }
}

} // verus!
