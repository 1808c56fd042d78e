//! Repetition of strokes: tapping a stroke and then holding it repeats it.
//!
//! The states pass through a grouper. When the grouper emits the same stroke as last time,
//! within the maximal tap delay, the stroke starts repeating: after the trigger delay and then
//! once per interval it is emitted again, until another state comes in. Releasing the
//! repeated stroke after it was repeated is not emitted again. Times are in milliseconds.
use super::grouping::KeypressGrouper;
use vstd::prelude::*;

verus! {

pub struct KeypressRepeater {
    interval: u64,
    max_tap_delay: u64,
    trigger_delay: u64,
}

impl KeypressRepeater {
    pub closed spec fn spec_interval(&self) -> u64 {
        self.interval
    }

    pub closed spec fn spec_max_tap_delay(&self) -> u64 {
        self.max_tap_delay
    }

    pub closed spec fn spec_trigger_delay(&self) -> u64 {
        self.trigger_delay
    }

    pub fn new(interval: u64, max_tap_delay: u64, trigger_delay: u64) -> (r: Self)
        ensures
            r.spec_interval() == interval,
            r.spec_max_tap_delay() == max_tap_delay,
            r.spec_trigger_delay() == trigger_delay,
    {
        Self { interval, max_tap_delay, trigger_delay }
    }

    /// Time between repetitions.
    pub fn interval(&self) -> (r: u64)
        ensures
            r == self.spec_interval(),
    {
        self.interval
    }

    /// Longest time between two taps that starts a repetition.
    pub fn max_tap_delay(&self) -> (r: u64)
        ensures
            r == self.spec_max_tap_delay(),
    {
        self.max_tap_delay
    }

    /// Time added before the first repetition.
    pub fn trigger_delay(&self) -> (r: u64)
        ensures
            r == self.spec_trigger_delay(),
    {
        self.trigger_delay
    }
}

/// Copies a keyboard state.
fn copy_state(state: &Vec<bool>) -> (r: Vec<bool>)
    ensures
        r@ == state@,
{
    let mut out: Vec<bool> = Vec::new();
    let mut i: usize = 0;
    while i < state.len()
        invariant
            i <= state@.len(),
            out@ == state@.take(i as int),
        decreases state@.len() - i,
    {
        out.push(state[i]);
        i += 1;
        assert(out@ =~= state@.take(i as int));
    }
    assert(state@.take(state@.len() as int) =~= state@);
    out
}

/// The states are equal.
fn same_state(a: &Vec<bool>, b: &Vec<bool>) -> (r: bool)
    ensures
        r == (a@ == b@),
{
    if a.len() != b.len() {
        return false;
    }
    let mut i: usize = 0;
    while i < a.len()
        invariant
            i <= a@.len() == b@.len(),
            forall|j: int| 0 <= j < i ==> a@[j] == b@[j],
        decreases a@.len() - i,
    {
        if a[i] != b[i] {
            return false;
        }
        i += 1;
    }
    assert(a@ =~= b@);
    true
}

/// Repetition state between incoming states.
pub struct RepeatState {
    /// When the next repeat should occur
    next_repeat: Option<u64>,
    /// Whether something was emitted for the currently active repeat
    repeated_once: bool,
    /// Which state was last emitted by the grouper, and when
    last_emit: Option<(u64, Vec<bool>)>,
    /// Whether repeat is active and for what state
    repeat: Option<Vec<bool>>,
}

/// Mathematical form of the repetition state: next repeat, repeated once, last emission,
/// repeated stroke.
pub type RepeatView = (Option<u64>, bool, Option<(u64, Seq<bool>)>, Option<Seq<bool>>);

impl View for RepeatState {
    type V = RepeatView;

    closed spec fn view(&self) -> RepeatView {
        (
            self.next_repeat,
            self.repeated_once,
            match self.last_emit {
                Some((time, stroke)) => Some((time, stroke@)),
                None => None,
            },
            match self.repeat {
                Some(stroke) => Some(stroke@),
                None => None,
            },
        )
    }
}

/// Time elapsed from `since` to `now` (zero if `since` is later).
pub open spec fn elapsed(since: u64, now: u64) -> u64 {
    if now >= since { (now - since) as u64 } else { 0 }
}

/// Repetition state after `state` comes in at `now`, before the grouper runs, and whether
/// the grouper's emission is not remembered: the same stroke as last time within the maximal
/// tap delay starts repeating; otherwise an active repetition stops and everything is
/// forgotten.
pub open spec fn tapped(view: RepeatView, state: Seq<bool>, now: u64, max_tap_delay: u64) -> (RepeatView, bool) {
    match view.2 {
        Some((time, last)) => if last == state && elapsed(time, now) < max_tap_delay {
            ((view.0, view.1, view.2, Some(state)), false)
        } else if view.3 is Some {
            ((None, false, None, None), true)
        } else {
            (view, false)
        },
        None => (view, false),
    }
}

/// Repetition state after `state` comes in at `now` and the grouper emits `emitted`.
pub open spec fn after_push(
    view: RepeatView,
    state: Seq<bool>,
    now: u64,
    max_tap_delay: u64,
    emitted: Option<Seq<bool>>,
) -> RepeatView {
    let (tapped_view, inhibit) = tapped(view, state, now, max_tap_delay);
    match emitted {
        Some(stroke) => if inhibit {
            tapped_view
        } else {
            (tapped_view.0, tapped_view.1, Some((now, stroke)), tapped_view.3)
        },
        None => tapped_view,
    }
}

impl RepeatState {
    pub fn new() -> (r: Self)
        ensures
            r@ == (None::<u64>, false, None::<(u64, Seq<bool>)>, None::<Seq<bool>>),
    {
        Self { next_repeat: None, repeated_once: false, last_emit: None, repeat: None }
    }

    /// Forwards a state to the grouper and updates the repeat state; returns the grouper's
    /// emission.
    pub fn push<const KEY_COUNT: usize>(
        &mut self,
        grouper: &mut KeypressGrouper<KEY_COUNT>,
        repeater: &KeypressRepeater,
        state: Vec<bool>,
        now: u64,
    ) -> (r: Option<Vec<bool>>)
        requires
            old(grouper).wf(),
            state@.len() == KEY_COUNT,
        ensures
            final(grouper).wf(),
            final(grouper).spec_mode() == old(grouper).spec_mode(),
            final(grouper).flags() == old(grouper).next_flags(state@),
            final(grouper).previous_state() == old(grouper).next_previous(state@),
            match r {
                Some(stroke) => old(grouper).emission(state@) == Some(stroke@),
                None => old(grouper).emission(state@) is None,
            },
            final(self)@ == after_push(old(self)@, state@, now, repeater.spec_max_tap_delay(), old(grouper).emission(state@)),
    {
        let mut inhibit_emit = false;
        let mut start_repeat = false;
        let mut stop_repeat = false;
        match &self.last_emit {
            Some((timestamp, last)) => {
                let state_matches = same_state(last, &state);
                let elapsed = if now >= *timestamp { now - *timestamp } else { 0 };
                let time_qualifies = elapsed < repeater.max_tap_delay;
                if state_matches && time_qualifies {
                    start_repeat = true;
                } else if self.repeat.is_some() {
                    stop_repeat = true;
                }
            },
            None => {},
        }
        if start_repeat {
            self.repeat = Some(copy_state(&state));
        } else if stop_repeat {
            self.repeat = None;
            self.last_emit = None;
            self.next_repeat = None;
            self.repeated_once = false;
            // Make sure that `last_emit` stays empty so a full tap-tap-hold is required to trigger it again instead of just a tap-hold
            inhibit_emit = true;
        }
        // Push the state into the grouper and handle any emitted strokes
        match grouper.push(state) {
            Some(emit) => {
                if !inhibit_emit {
                    self.last_emit = Some((now, copy_state(&emit)));
                }
                Some(emit)
            },
            None => None,
        }
    }

    /// When the next repetition is due, if a stroke is repeating: the scheduled time, or the
    /// interval plus the trigger delay from now.
    pub fn repeat_deadline(&self, repeater: &KeypressRepeater, now: u64) -> (r: Option<u64>)
        requires
            now + repeater.spec_interval() + repeater.spec_trigger_delay() <= u64::MAX,
        ensures
            match self@.3 {
                Some(_) => r == Some(match self@.0 {
                    Some(time) => time,
                    None => (now + repeater.spec_interval() + repeater.spec_trigger_delay()) as u64,
                }),
                None => r is None,
            },
    {
        if self.repeat.is_some() {
            match self.next_repeat {
                Some(time) => Some(time),
                None => Some(now + repeater.interval + repeater.trigger_delay),
            }
        } else {
            None
        }
    }

    /// Handles a state that came in at `now`: returns the stroke to emit, if any. While a
    /// stroke repeats, the grouper emitting that same stroke after it was repeated emits
    /// nothing.
    pub fn on_input<const KEY_COUNT: usize>(
        &mut self,
        grouper: &mut KeypressGrouper<KEY_COUNT>,
        repeater: &KeypressRepeater,
        state: Vec<bool>,
        now: u64,
    ) -> (r: Option<Vec<bool>>)
        requires
            old(grouper).wf(),
            state@.len() == KEY_COUNT,
        ensures
            final(grouper).wf(),
            final(grouper).spec_mode() == old(grouper).spec_mode(),
            final(grouper).flags() == old(grouper).next_flags(state@),
            final(grouper).previous_state() == old(grouper).next_previous(state@),
            final(self)@ == after_push(old(self)@, state@, now, repeater.spec_max_tap_delay(), old(grouper).emission(state@)),
            match repeat_output(old(self)@, old(grouper).emission(state@)) {
                Some(stroke) => r matches Some(emitted) && emitted@ == stroke,
                None => r is None,
            },
            match old(grouper).emission(state@) {
                Some(stroke) => if old(self)@.3 == Some(stroke) && old(self)@.1 {
                    r is None
                } else {
                    r matches Some(emitted) && emitted@ == stroke
                },
                None => r is None,
            },
    {
        let repeated = match &self.repeat {
            Some(stroke) => Some(copy_state(stroke)),
            None => None,
        };
        let was_repeated_once = self.repeated_once;
        match self.push(grouper, repeater, state, now) {
            Some(stroke) => {
                match repeated {
                    Some(repeated) => {
                        if same_state(&stroke, &repeated) && was_repeated_once {
                            None
                        } else {
                            Some(stroke)
                        }
                    },
                    None => Some(stroke),
                }
            },
            None => None,
        }
    }

    /// The repetition timer expired at `now`: the repeated stroke is emitted again and the
    /// next repetition is due one interval later.
    pub fn on_timer(&mut self, repeater: &KeypressRepeater, now: u64) -> (r: Vec<bool>)
        requires
            old(self)@.3 is Some,
            now + repeater.spec_interval() <= u64::MAX,
        ensures
            r@ == old(self)@.3->0,
            final(self)@ == (Some((now + repeater.spec_interval()) as u64), true, old(self)@.2, old(self)@.3),
    {
        self.repeated_once = true;
        self.next_repeat = Some(now + repeater.interval);
        match &self.repeat {
            Some(stroke) => copy_state(stroke),
            None => Vec::new(),
        }
    }
}

/// What handling a state gives out when the grouper emits `emitted`: the emission, except the
/// repeated stroke once it was repeated.
pub open spec fn repeat_output(view: RepeatView, emitted: Option<Seq<bool>>) -> Option<Seq<bool>> {
    match emitted {
        Some(stroke) => if view.3 == Some(stroke) && view.1 {
            None
        } else {
            Some(stroke)
        },
        None => None,
    }
}

/// The state taps the stroke emitted last within the maximal tap delay, which starts a
/// repetition.
pub open spec fn starts_repeat(view: RepeatView, state: Seq<bool>, now: u64, max_tap_delay: u64) -> bool {
    view.2 matches Some(last) && last.1 == state && elapsed(last.0, now) < max_tap_delay
}

/// Outputs of handling the states at the given times, one after another from the repetition
/// state `view`, when the grouper emits `emissions` for them.
pub open spec fn repeat_outputs(
    view: RepeatView,
    states: Seq<Seq<bool>>,
    times: Seq<u64>,
    max_tap_delay: u64,
    emissions: Seq<Option<Seq<bool>>>,
) -> Seq<Option<Seq<bool>>>
    decreases states.len(),
{
    if states.len() == 0 || times.len() == 0 || emissions.len() == 0 {
        Seq::empty()
    } else {
        seq![repeat_output(view, emissions[0])] + repeat_outputs(
            after_push(view, states[0], times[0], max_tap_delay, emissions[0]),
            states.drop_first(),
            times.drop_first(),
            max_tap_delay,
            emissions.drop_first(),
        )
    }
}

/// None of the states, handled one after another from `view`, starts a repetition.
pub open spec fn never_repeats(
    view: RepeatView,
    states: Seq<Seq<bool>>,
    times: Seq<u64>,
    max_tap_delay: u64,
    emissions: Seq<Option<Seq<bool>>>,
) -> bool
    decreases states.len(),
{
    states.len() == 0 || times.len() == 0 || emissions.len() == 0 || (!starts_repeat(view, states[0], times[0], max_tap_delay)
        && never_repeats(
        after_push(view, states[0], times[0], max_tap_delay, emissions[0]),
        states.drop_first(),
        times.drop_first(),
        max_tap_delay,
        emissions.drop_first(),
    ))
}

/// Without a repetition, handling a stream of states gives out exactly what the grouper emits
/// for them, in order.
pub proof fn lemma_no_repeat_passes_emissions(
    view: RepeatView,
    states: Seq<Seq<bool>>,
    times: Seq<u64>,
    max_tap_delay: u64,
    emissions: Seq<Option<Seq<bool>>>,
)
    requires
        view.3 is None,
        states.len() == times.len() == emissions.len(),
        never_repeats(view, states, times, max_tap_delay, emissions),
    ensures
        repeat_outputs(view, states, times, max_tap_delay, emissions) == emissions,
    decreases states.len(),
{
    if states.len() > 0 {
        let next = after_push(view, states[0], times[0], max_tap_delay, emissions[0]);
        assert(next.3 is None);
        lemma_no_repeat_passes_emissions(next, states.drop_first(), times.drop_first(), max_tap_delay, emissions.drop_first());
        assert(seq![emissions[0]] + emissions.drop_first() =~= emissions);
    } else {
        assert(emissions =~= Seq::<Option<Seq<bool>>>::empty());
    }
}

} // verus!
