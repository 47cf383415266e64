//! A session: the catalogue of conditions, which of them the user has
//! already met as the first violated one, and the pass that evaluates the
//! catalogue against the current input.

use vstd::prelude::*;
use crate::catalogue::{all_wf, conditions, is_catalogue, Parameters};
use crate::clock::is_clock_reading;
use crate::conditions::{Condition, Hint};
use crate::reading::{reading_of, Reading, ReadingView};

verus! {

/// The first condition at or after place `from` that the snapshot violates.
pub open spec fn first_failure_from(
    conditions: Seq<Condition>,
    reading: ReadingView,
    from: int,
) -> Option<int>
    decreases conditions.len() - from,
{
    if from < 0 || from >= conditions.len() {
        None
    } else if !conditions[from].satisfied(reading) {
        Some(from)
    } else {
        first_failure_from(conditions, reading, from + 1)
    }
}

/// The primary failure: the first condition, in the order of the catalogue,
/// that the snapshot violates.
pub open spec fn first_failure(conditions: Seq<Condition>, reading: ReadingView) -> Option<int> {
    first_failure_from(conditions, reading, 0)
}

/// The flags after the primary failure has been marked as discovered.
pub open spec fn disclosed(discovered: Seq<bool>, primary: Option<int>) -> Seq<bool> {
    match primary {
        Some(i) => if 0 <= i < discovered.len() {
            discovered.update(i, true)
        } else {
            discovered
        },
        None => discovered,
    }
}

/// Condition `i` is shown as a secondary hint: the snapshot violates it, it
/// has been discovered, and it is not the primary failure.
pub open spec fn is_secondary(
    conditions: Seq<Condition>,
    discovered: Seq<bool>,
    reading: ReadingView,
    primary: Option<int>,
    i: int,
) -> bool {
    &&& 0 <= i < conditions.len()
    &&& i < discovered.len()
    &&& !conditions[i].satisfied(reading)
    &&& discovered[i]
    &&& primary != Some(i)
}

/// The secondary hints among the first `upto` conditions, in the order of
/// the catalogue.
pub open spec fn secondary_upto(
    conditions: Seq<Condition>,
    discovered: Seq<bool>,
    reading: ReadingView,
    primary: Option<int>,
    upto: int,
) -> Seq<int>
    decreases upto,
{
    if upto <= 0 {
        Seq::empty()
    } else if is_secondary(conditions, discovered, reading, primary, upto - 1) {
        secondary_upto(conditions, discovered, reading, primary, upto - 1).push(upto - 1)
    } else {
        secondary_upto(conditions, discovered, reading, primary, upto - 1)
    }
}

/// What one pass over the catalogue gives.
pub struct Outcome {
    /// The primary failure, if any condition is violated.
    pub primary: Option<int>,
    /// The secondary hints, in the order of the catalogue.
    pub failing: Seq<int>,
    /// The flags after the pass.
    pub discovered: Seq<bool>,
}

/// One pass over the catalogue: the primary failure is found and marked as
/// discovered, and the other violated conditions that have been discovered
/// are listed.
pub open spec fn outcome(
    conditions: Seq<Condition>,
    discovered: Seq<bool>,
    reading: ReadingView,
) -> Outcome {
    let primary = first_failure(conditions, reading);
    let after = disclosed(discovered, primary);
    Outcome {
        primary,
        failing: secondary_upto(conditions, after, reading, primary, conditions.len() as int),
        discovered: after,
    }
}

/// The flags after one pass for each of the snapshots, in turn.
pub open spec fn after_passes(
    conditions: Seq<Condition>,
    discovered: Seq<bool>,
    readings: Seq<ReadingView>,
) -> Seq<bool>
    decreases readings.len(),
{
    if readings.len() == 0 {
        discovered
    } else {
        after_passes(
            conditions,
            outcome(conditions, discovered, readings.first()).discovered,
            readings.drop_first(),
        )
    }
}

/// The primary failure is violated, and every condition before it is met;
/// where there is none, every condition is met.
pub proof fn lemma_primary_is_first(conditions: Seq<Condition>, reading: ReadingView, from: int)
    requires
        0 <= from,
    ensures
        match first_failure_from(conditions, reading, from) {
            Some(i) => {
                &&& from <= i < conditions.len()
                &&& !conditions[i].satisfied(reading)
                &&& forall|j: int| from <= j < i ==> (#[trigger] conditions[j]).satisfied(reading)
            },
            None => forall|j: int|
                from <= j < conditions.len() ==> (#[trigger] conditions[j]).satisfied(reading),
        },
    decreases conditions.len() - from,
{
    if from < conditions.len() && conditions[from].satisfied(reading) {
        lemma_primary_is_first(conditions, reading, from + 1);
    }
}

/// The secondary hints are listed in ascending order, and they are exactly
/// the violated, discovered conditions other than the primary failure.
pub proof fn lemma_secondary_listed(
    conditions: Seq<Condition>,
    discovered: Seq<bool>,
    reading: ReadingView,
    primary: Option<int>,
    upto: int,
)
    ensures
        forall|i: int|
            #![trigger secondary_upto(conditions, discovered, reading, primary, upto).contains(i)]
            #![trigger is_secondary(conditions, discovered, reading, primary, i)]
            secondary_upto(conditions, discovered, reading, primary, upto).contains(i) <==> i < upto
                && is_secondary(conditions, discovered, reading, primary, i),
        forall|a: int, b: int|
            0 <= a < b < secondary_upto(conditions, discovered, reading, primary, upto).len()
                ==> #[trigger] secondary_upto(conditions, discovered, reading, primary, upto)[a]
                < #[trigger] secondary_upto(conditions, discovered, reading, primary, upto)[b],
    decreases upto,
{
    let list = secondary_upto(conditions, discovered, reading, primary, upto);
    if upto > 0 {
        let rest = secondary_upto(conditions, discovered, reading, primary, upto - 1);
        lemma_secondary_listed(conditions, discovered, reading, primary, upto - 1);
        if is_secondary(conditions, discovered, reading, primary, upto - 1) {
            assert(list == rest.push(upto - 1));
            assert forall|i: int|
                #![trigger list.contains(i)]
                #![trigger is_secondary(conditions, discovered, reading, primary, i)]
                list.contains(i) <==> i < upto && is_secondary(
                    conditions,
                    discovered,
                    reading,
                    primary,
                    i,
                ) by {
                if list.contains(i) {
                    let k = choose|k: int| 0 <= k < list.len() && list[k] == i;
                    if k < rest.len() {
                        assert(rest[k] == i);
                        assert(rest.contains(i));
                    }
                }
                if i < upto && is_secondary(conditions, discovered, reading, primary, i) {
                    if i == upto - 1 {
                        assert(list[rest.len() as int] == i);
                    } else {
                        assert(rest.contains(i));
                        let k = choose|k: int| 0 <= k < rest.len() && rest[k] == i;
                        assert(list[k] == i);
                    }
                }
            }
            assert forall|a: int, b: int| 0 <= a < b < list.len() implies #[trigger] list[a]
                < #[trigger] list[b] by {
                if b == rest.len() {
                    assert(rest.contains(rest[a]));
                } else {
                    assert(rest[a] < rest[b]);
                }
            }
        }
    } else {
        assert(list =~= Seq::<int>::empty());
    }
}

/// A pass repeated on the same snapshot gives the same primary failure and
/// the same secondary hints, and leaves the flags as the first pass left
/// them.
pub proof fn lemma_pass_repeats(
    conditions: Seq<Condition>,
    discovered: Seq<bool>,
    reading: ReadingView,
)
    ensures
        outcome(conditions, outcome(conditions, discovered, reading).discovered, reading)
            == outcome(conditions, discovered, reading),
{
    let first = outcome(conditions, discovered, reading);
    assert(disclosed(first.discovered, first.primary) =~= first.discovered);
}

/// The primary failure of a pass does not depend on the flags.
pub proof fn lemma_primary_ignores_flags(
    conditions: Seq<Condition>,
    discovered: Seq<bool>,
    other: Seq<bool>,
    reading: ReadingView,
)
    ensures
        outcome(conditions, discovered, reading).primary == outcome(
            conditions,
            other,
            reading,
        ).primary,
{
}

/// Two snapshots on which every condition of the catalogue fares the same.
pub open spec fn fare_alike(
    conditions: Seq<Condition>,
    reading: ReadingView,
    other: ReadingView,
) -> bool {
    forall|i: int|
        0 <= i < conditions.len() ==> (#[trigger] conditions[i]).satisfied(reading)
            == conditions[i].satisfied(other)
}

/// The first failure is the same on two snapshots on which every condition
/// fares the same.
pub proof fn lemma_first_failure_alike(
    conditions: Seq<Condition>,
    reading: ReadingView,
    other: ReadingView,
    from: int,
)
    requires
        fare_alike(conditions, reading, other),
    ensures
        first_failure_from(conditions, reading, from) == first_failure_from(
            conditions,
            other,
            from,
        ),
    decreases conditions.len() - from,
{
    if 0 <= from < conditions.len() {
        assert(conditions[from].satisfied(reading) == conditions[from].satisfied(other));
        lemma_first_failure_alike(conditions, reading, other, from + 1);
    }
}

/// The secondary hints are the same on two snapshots on which every
/// condition fares the same.
pub proof fn lemma_secondary_alike(
    conditions: Seq<Condition>,
    discovered: Seq<bool>,
    reading: ReadingView,
    other: ReadingView,
    primary: Option<int>,
    upto: int,
)
    requires
        fare_alike(conditions, reading, other),
    ensures
        secondary_upto(conditions, discovered, reading, primary, upto) == secondary_upto(
            conditions,
            discovered,
            other,
            primary,
            upto,
        ),
    decreases upto,
{
    if upto > 0 {
        lemma_secondary_alike(conditions, discovered, reading, other, primary, upto - 1);
        if 0 <= upto - 1 < conditions.len() {
            assert(conditions[upto - 1].satisfied(reading) == conditions[upto - 1].satisfied(other));
        }
    }
}

/// In a catalogue without a condition that reads the clock, a pass gives
/// the same whatever the time of day.
pub proof fn lemma_untimed_pass_ignores_clock(
    conditions: Seq<Condition>,
    discovered: Seq<bool>,
    subject: Seq<char>,
    auxiliary: Seq<char>,
    clock: Seq<char>,
    other: Seq<char>,
)
    requires
        forall|i: int| 0 <= i < conditions.len() ==> !(#[trigger] conditions[i]).timed(),
    ensures
        outcome(conditions, discovered, reading_of(subject, auxiliary, clock)) == outcome(
            conditions,
            discovered,
            reading_of(subject, auxiliary, other),
        ),
{
    let here = reading_of(subject, auxiliary, clock);
    let there = reading_of(subject, auxiliary, other);
    assert forall|i: int| 0 <= i < conditions.len() implies (#[trigger] conditions[i]).satisfied(
        here,
    ) == conditions[i].satisfied(there) by {
        assert(!conditions[i].timed());
    }
    lemma_first_failure_alike(conditions, here, there, 0);
    let primary = first_failure(conditions, here);
    lemma_secondary_alike(
        conditions,
        disclosed(discovered, primary),
        here,
        there,
        primary,
        conditions.len() as int,
    );
}

/// A pass takes no flag back.
pub proof fn lemma_pass_keeps_flags(
    conditions: Seq<Condition>,
    discovered: Seq<bool>,
    reading: ReadingView,
)
    ensures
        outcome(conditions, discovered, reading).discovered.len() == discovered.len(),
        forall|i: int|
            0 <= i < discovered.len() && discovered[i] ==> #[trigger] outcome(
                conditions,
                discovered,
                reading,
            ).discovered[i],
{
}

/// A flag that is set stays set, whatever snapshots the later passes see.
pub proof fn lemma_discovered_stays(
    conditions: Seq<Condition>,
    discovered: Seq<bool>,
    readings: Seq<ReadingView>,
    i: int,
)
    requires
        0 <= i < discovered.len(),
        discovered[i],
    ensures
        after_passes(conditions, discovered, readings).len() == discovered.len(),
        after_passes(conditions, discovered, readings)[i],
    decreases readings.len(),
{
    if readings.len() > 0 {
        lemma_pass_keeps_flags(conditions, discovered, readings.first());
        let next = outcome(conditions, discovered, readings.first()).discovered;
        assert(next[i]);
        lemma_discovered_stays(conditions, next, readings.drop_first(), i);
    }
}

/// Whatever the session's parameters, the auxiliary text and the time of
/// day, the primary failure of the empty text is the first condition of the
/// catalogue.
pub proof fn lemma_empty_text_fails_first(
    list: Seq<Condition>,
    parameters: Parameters,
    auxiliary: Seq<char>,
    clock: Seq<char>,
)
    requires
        parameters.in_range(),
        is_catalogue(list, parameters),
    ensures
        first_failure(list, reading_of(Seq::empty(), auxiliary, clock)) == Some(0int),
{
}

/// What a pass reports: the primary failure and the secondary hints, both
/// by their places in the catalogue.
#[derive(Debug)]
pub struct Evaluation {
    /// The first violated condition.
    pub primary: Option<usize>,
    /// The other violated conditions that have been discovered, in the
    /// order of the catalogue.
    pub failing: Vec<usize>,
}

/// A report as plain values.
pub struct EvaluationView {
    pub primary: Option<int>,
    pub failing: Seq<int>,
}

/// A place as a number, where there is one.
pub open spec fn place_of(place: Option<usize>) -> Option<int> {
    match place {
        Some(i) => Some(i as int),
        None => None,
    }
}

impl View for Evaluation {
    type V = EvaluationView;

    open spec fn view(&self) -> EvaluationView {
        EvaluationView {
            primary: place_of(self.primary),
            failing: Seq::new(self.failing@.len(), |k: int| self.failing@[k] as int),
        }
    }
}

/// The places of the hints to show, in order: none while the text is empty,
/// otherwise the primary failure and then the secondary hints.
pub open spec fn shown(evaluation: EvaluationView, text_is_empty: bool) -> Seq<int> {
    if text_is_empty {
        Seq::empty()
    } else {
        match evaluation.primary {
            Some(i) => seq![i] + evaluation.failing,
            None => evaluation.failing,
        }
    }
}

impl Evaluation {
    /// The places of the hints to show for the text `subject`, in order.
    pub fn hints_to_show(&self, subject: &str) -> (places: Vec<usize>)
        ensures
            Seq::new(places@.len(), |k: int| places@[k] as int) == shown(self@, subject@.len() == 0),
    {
        let mut places: Vec<usize> = Vec::new();
        if !subject.is_empty() {
            match self.primary {
                Some(i) => {
                    places.push(i);
                },
                None => {},
            }
            let ghost start = places@;
            let mut k: usize = 0;
            while k < self.failing.len()
                invariant
                    k <= self.failing.len(),
                    places@ == start + self.failing@.take(k as int),
                decreases self.failing.len() - k,
            {
                places.push(self.failing[k]);
                assert(self.failing@.take(k + 1) =~= self.failing@.take(k as int).push(
                    self.failing@[k as int],
                ));
                k += 1;
            }
            assert(self.failing@.take(k as int) =~= self.failing@);
        }
        assert(Seq::new(places@.len(), |k: int| places@[k] as int) =~= shown(
            self@,
            subject@.len() == 0,
        ));
        places
    }
}

/// The first condition of the list that the snapshot violates.
pub fn first_failing(conditions: &Vec<Condition>, reading: &Reading) -> (primary: Option<usize>)
    ensures
        place_of(primary) == first_failure(conditions@, reading@),
{
    let mut i: usize = 0;
    while i < conditions.len()
        invariant
            i <= conditions.len(),
            first_failure_from(conditions@, reading@, i as int) == first_failure(
                conditions@,
                reading@,
            ),
        decreases conditions.len() - i,
    {
        if !conditions[i].holds_on(reading) {
            return Some(i);
        }
        i += 1;
    }
    None
}

/// The time between two ticks of the timer, in milliseconds.
pub const TICK_MILLIS: u32 = 1000;

/// A session.
#[derive(Debug)]
pub struct Session {
    conditions: Vec<Condition>,
    discovered: Vec<bool>,
    primary: Option<usize>,
}

/// The state of a session: its catalogue, for each condition whether it
/// has been discovered, and the primary failure of the latest pass.
pub struct SessionView {
    pub conditions: Seq<Condition>,
    pub discovered: Seq<bool>,
    pub primary: Option<int>,
}

impl View for Session {
    type V = SessionView;

    closed spec fn view(&self) -> SessionView {
        SessionView {
            conditions: self.conditions@,
            discovered: self.discovered@,
            primary: place_of(self.primary),
        }
    }
}

/// What a tick of the timer gives: the report of the pass, and whether a
/// confirmation that is pending must be cleared.
#[derive(Debug)]
pub struct Tick {
    /// The report of the pass.
    pub evaluation: Evaluation,
    /// Whether the primary failure is another than before the tick, or has
    /// come or gone.
    pub invalidated: bool,
}

impl Session {
    /// There is one flag for each condition, and every condition is well
    /// formed.
    pub open spec fn wf(&self) -> bool {
        &&& self@.discovered.len() == self@.conditions.len()
        &&& all_wf(self@.conditions)
    }

    /// A session over the given catalogue, with nothing discovered yet.
    pub fn new(conditions: Vec<Condition>) -> (session: Session)
        requires
            all_wf(conditions@),
        ensures
            session.wf(),
            session@.conditions == conditions@,
            session@.discovered == Seq::new(conditions@.len(), |i: int| false),
            session@.primary is None,
    {
        let mut discovered: Vec<bool> = Vec::new();
        let mut i: usize = 0;
        while i < conditions.len()
            invariant
                i <= conditions.len(),
                discovered@.len() == i,
                forall|k: int| 0 <= k < i ==> !discovered@[k],
            decreases conditions.len() - i,
        {
            discovered.push(false);
            i += 1;
        }
        assert(discovered@ =~= Seq::new(conditions@.len(), |i: int| false));
        Session { conditions, discovered, primary: None }
    }

    /// A new session: its parameters are drawn at random, and nothing is
    /// discovered yet.
    pub fn start() -> (session: Session)
        ensures
            session.wf(),
            exists|parameters: Parameters|
                parameters.wf() && parameters.in_range() && #[trigger] is_catalogue(
                    session@.conditions,
                    parameters,
                ),
            session@.discovered == Seq::new(session@.conditions.len(), |i: int| false),
            session@.primary is None,
    {
        Session::new(conditions())
    }

    /// The catalogue.
    pub fn conditions(&self) -> (conditions: &Vec<Condition>)
        ensures
            conditions@ == self@.conditions,
    {
        &self.conditions
    }

    /// For each condition, whether it has been discovered.
    pub fn discovered(&self) -> (discovered: &Vec<bool>)
        ensures
            discovered@ == self@.discovered,
    {
        &self.discovered
    }

    /// The primary failure of the latest pass.
    pub fn primary(&self) -> (primary: Option<usize>)
        ensures
            place_of(primary) == self@.primary,
    {
        self.primary
    }

    /// The hint of the condition at place `index`, if there is such a
    /// condition.
    pub fn hint(&self, index: usize) -> (hint: Option<Hint>)
        requires
            self.wf(),
        ensures
            hint is Some <==> index < self@.conditions.len(),
            hint matches Some(shown) ==> self@.conditions[index as int].describes(shown),
    {
        if index < self.conditions.len() {
            Some(self.conditions[index].hint())
        } else {
            None
        }
    }

    /// One pass over the catalogue against the snapshot. The first violated
    /// condition is the primary failure, and is marked as discovered; the
    /// other violated conditions that have been discovered are listed with
    /// it. No flag is taken back.
    pub fn evaluate_on(&mut self, reading: &Reading) -> (evaluation: Evaluation)
        requires
            old(self).wf(),
        ensures
            final(self).wf(),
            final(self)@.conditions == old(self)@.conditions,
            evaluation@.primary == outcome(
                old(self)@.conditions,
                old(self)@.discovered,
                reading@,
            ).primary,
            evaluation@.failing == outcome(
                old(self)@.conditions,
                old(self)@.discovered,
                reading@,
            ).failing,
            final(self)@.discovered == outcome(
                old(self)@.conditions,
                old(self)@.discovered,
                reading@,
            ).discovered,
            final(self)@.primary == evaluation@.primary,
            forall|i: int|
                0 <= i < old(self)@.discovered.len() && #[trigger] old(self)@.discovered[i]
                    ==> final(self)@.discovered[i],
    {
        let ghost listed = self.conditions@;
        let primary = first_failing(&self.conditions, reading);
        proof {
            lemma_primary_is_first(listed, reading@, 0);
        }
        match primary {
            Some(i) => {
                self.discovered.set(i, true);
            },
            None => {},
        }
        self.primary = primary;
        let ghost after = self.discovered@;
        let mut failing: Vec<usize> = Vec::new();
        let mut i: usize = 0;
        while i < self.conditions.len()
            invariant
                i <= self.conditions.len(),
                self.conditions@ == listed,
                self.discovered@ == after,
                after.len() == listed.len(),
                Seq::new(failing@.len(), |k: int| failing@[k] as int) == secondary_upto(
                    listed,
                    after,
                    reading@,
                    place_of(primary),
                    i as int,
                ),
            decreases self.conditions.len() - i,
        {
            let ghost before = Seq::new(failing@.len(), |k: int| failing@[k] as int);
            let is_primary: bool = match primary {
                Some(p) => p == i,
                None => false,
            };
            if self.discovered[i] && !is_primary && !self.conditions[i].holds_on(reading) {
                failing.push(i);
                assert(Seq::new(failing@.len(), |k: int| failing@[k] as int) =~= before.push(
                    i as int,
                ));
            }
            i += 1;
        }
        Evaluation { primary, failing }
    }

    /// One pass over the catalogue against the texts at the given time of
    /// day.
    pub fn evaluate_at(&mut self, subject: &str, auxiliary: &str, clock: &str) -> (evaluation:
        Evaluation)
        requires
            old(self).wf(),
        ensures
            final(self).wf(),
            final(self)@.conditions == old(self)@.conditions,
            evaluation@.primary == outcome(
                old(self)@.conditions,
                old(self)@.discovered,
                reading_of(subject@, auxiliary@, clock@),
            ).primary,
            evaluation@.failing == outcome(
                old(self)@.conditions,
                old(self)@.discovered,
                reading_of(subject@, auxiliary@, clock@),
            ).failing,
            final(self)@.discovered == outcome(
                old(self)@.conditions,
                old(self)@.discovered,
                reading_of(subject@, auxiliary@, clock@),
            ).discovered,
            final(self)@.primary == evaluation@.primary,
    {
        let reading = Reading::at(subject, auxiliary, clock);
        self.evaluate_on(&reading)
    }

    /// One pass over the catalogue against the texts now.
    pub fn evaluate(&mut self, subject: &str, auxiliary: &str) -> (evaluation: Evaluation)
        requires
            old(self).wf(),
        ensures
            final(self).wf(),
            final(self)@.conditions == old(self)@.conditions,
            final(self)@.primary == evaluation@.primary,
            exists|clock: Seq<char>|
                {
                    let pass = #[trigger] outcome(
                        old(self)@.conditions,
                        old(self)@.discovered,
                        reading_of(subject@, auxiliary@, clock),
                    );
                    &&& is_clock_reading(clock)
                    &&& evaluation@.primary == pass.primary
                    &&& evaluation@.failing == pass.failing
                    &&& final(self)@.discovered == pass.discovered
                },
    {
        let reading = Reading::now(subject, auxiliary);
        let ghost clock = reading@.clock;
        let evaluation = self.evaluate_on(&reading);
        proof {
            let pass = outcome(
                old(self)@.conditions,
                old(self)@.discovered,
                reading_of(subject@, auxiliary@, clock),
            );
            assert(evaluation@.primary == pass.primary);
        }
        evaluation
    }

    /// A tick of the timer, against the snapshot: one pass, and the word
    /// that a pending confirmation must be cleared if the primary failure
    /// is not what it was after the pass before.
    pub fn tick_on(&mut self, reading: &Reading) -> (tick: Tick)
        requires
            old(self).wf(),
        ensures
            final(self).wf(),
            final(self)@.conditions == old(self)@.conditions,
            tick.evaluation@.primary == outcome(
                old(self)@.conditions,
                old(self)@.discovered,
                reading@,
            ).primary,
            tick.evaluation@.failing == outcome(
                old(self)@.conditions,
                old(self)@.discovered,
                reading@,
            ).failing,
            final(self)@.discovered == outcome(
                old(self)@.conditions,
                old(self)@.discovered,
                reading@,
            ).discovered,
            final(self)@.primary == tick.evaluation@.primary,
            tick.invalidated == (old(self)@.primary != tick.evaluation@.primary),
    {
        let before = self.primary;
        let evaluation = self.evaluate_on(reading);
        let invalidated = match (before, evaluation.primary) {
            (Some(a), Some(b)) => a != b,
            (None, None) => false,
            _ => true,
        };
        Tick { evaluation, invalidated }
    }

    /// A tick of the timer, against the texts now.
    pub fn tick(&mut self, subject: &str, auxiliary: &str) -> (tick: Tick)
        requires
            old(self).wf(),
        ensures
            final(self).wf(),
            final(self)@.conditions == old(self)@.conditions,
            final(self)@.primary == tick.evaluation@.primary,
            tick.invalidated == (old(self)@.primary != tick.evaluation@.primary),
            exists|clock: Seq<char>|
                {
                    let pass = #[trigger] outcome(
                        old(self)@.conditions,
                        old(self)@.discovered,
                        reading_of(subject@, auxiliary@, clock),
                    );
                    &&& is_clock_reading(clock)
                    &&& tick.evaluation@.primary == pass.primary
                    &&& tick.evaluation@.failing == pass.failing
                    &&& final(self)@.discovered == pass.discovered
                },
    {
        let reading = Reading::now(subject, auxiliary);
        let ghost clock = reading@.clock;
        let tick = self.tick_on(&reading);
        proof {
            let pass = outcome(
                old(self)@.conditions,
                old(self)@.discovered,
                reading_of(subject@, auxiliary@, clock),
            );
            assert(tick.evaluation@.primary == pass.primary);
        }
        tick
    }
}

} // verus!
