//! The translation of caption segments: what to ask of the translator, and
//! how its answers, in whatever order they arrive, become the bodies of the
//! segments in the segments' own order.

use crate::captions::{
    reassemble, reassembled, segment_views, segments, segments_of, CaptionSegment,
};
use crate::operations::Srt;
use crate::error::{TranslateError, TranslateErrorView};
use crate::chars::string_views;
use vstd::prelude::*;

verus! {

/// What is asked of the translator for one segment.
#[derive(Debug, PartialEq, Eq)]
pub struct TranslationRequest {
    pub text: String,
    pub source_language: String,
    pub target_language: String,
}

/// What a `TranslationRequest` holds, as plain values.
pub struct RequestView {
    pub text: Seq<char>,
    pub source_language: Seq<char>,
    pub target_language: Seq<char>,
}

impl View for TranslationRequest {
    type V = RequestView;

    open spec fn view(&self) -> RequestView {
        RequestView {
            text: self.text@,
            source_language: self.source_language@,
            target_language: self.target_language@,
        }
    }
}

/// The requests for `segments`: one for each, in their order, for its body.
pub fn requests(
    segments: &Vec<CaptionSegment>,
    source_language: &str,
    target_language: &str,
) -> (asked: Vec<TranslationRequest>)
    ensures
        asked.len() == segments.len(),
        forall|i: int|
            0 <= i < asked.len() ==> (#[trigger] asked[i])@ == (RequestView {
                text: segments[i].body@,
                source_language: source_language@,
                target_language: target_language@,
            }),
{
    let mut asked: Vec<TranslationRequest> = Vec::new();
    let mut i: usize = 0;
    while i < segments.len()
        invariant
            i <= segments.len(),
            asked.len() == i,
            forall|k: int|
                0 <= k < i ==> (#[trigger] asked[k])@ == (RequestView {
                    text: segments[k].body@,
                    source_language: source_language@,
                    target_language: target_language@,
                }),
        decreases segments.len() - i,
    {
        asked.push(
            TranslationRequest {
                text: segments[i].body.clone(),
                source_language: source_language.to_owned(),
                target_language: target_language.to_owned(),
            },
        );
        i += 1;
    }
    asked
}

/// The requests for the captions `srt`, to have them in `target_language`: one
/// for each segment, in their order, from the language of the captions.
pub fn translation_requests(srt: &Srt, target_language: &str) -> (asked: Vec<TranslationRequest>)
    ensures
        asked.len() == segments_of(srt.content@).len(),
        forall|i: int|
            0 <= i < asked.len() ==> (#[trigger] asked[i])@ == (RequestView {
                text: segments_of(srt.content@)[i].body,
                source_language: srt.language@,
                target_language: target_language@,
            }),
{
    let found = segments(srt.content.as_str());
    let asked = requests(&found, srt.language.as_str(), target_language);
    proof {
        assert forall|i: int| 0 <= i < asked.len() implies (#[trigger] asked[i])@ == (RequestView {
            text: segments_of(srt.content@)[i].body,
            source_language: srt.language@,
            target_language: target_language@,
        }) by {
            assert(segment_views(found@)[i] == found[i]@);
        }
    }
    asked
}

/// The captions `srt` with `bodies` in place of the bodies of their segments,
/// one by one: the translated caption text.
pub fn translated_srt(srt: &Srt, bodies: &Vec<String>) -> (result: Result<String, TranslateError>)
    ensures
        result is Ok <==> bodies.len() == segments_of(srt.content@).len(),
        result matches Ok(text) ==> text@ == reassembled(
            segments_of(srt.content@),
            string_views(bodies@),
        ),
        result matches Err(error) ==> error@ == (TranslateErrorView::ReassemblyLengthMismatch {
            segments: segments_of(srt.content@).len() as usize,
            bodies: bodies.len(),
        }),
{
    let found = segments(srt.content.as_str());
    reassemble(&found, bodies)
}

/// The answer to one request: the segment's index, and its translated body or
/// the reason why there is none.
#[derive(Debug, PartialEq, Eq)]
pub struct Completion {
    pub index: usize,
    pub outcome: Result<String, String>,
}

/// What a `Completion` holds, as plain values.
pub struct CompletionView {
    pub index: usize,
    pub outcome: Result<Seq<char>, Seq<char>>,
}

impl View for Completion {
    type V = CompletionView;

    open spec fn view(&self) -> CompletionView {
        CompletionView {
            index: self.index,
            outcome: match self.outcome {
                Ok(text) => Ok(text@),
                Err(message) => Err(message@),
            },
        }
    }
}

/// The views of a list of completions.
pub open spec fn completion_views(completions: Seq<Completion>) -> Seq<CompletionView> {
    Seq::new(completions.len(), |i: int| completions[i]@)
}

/// How far the translation of a sequence of segments has come.
#[derive(Debug, Clone, Copy, PartialEq, Eq, Structural)]
pub enum Progress {
    /// No translation has failed, and some are still awaited.
    Pending,
    /// Every segment has its translation.
    Complete,
    /// A translation has failed.
    Failed,
}

/// The state of a translation: the translated body of each segment that has
/// one, by the segment's index, and the first failure that was seen.
pub struct OrchestratorView {
    pub slots: Seq<Option<Seq<char>>>,
    pub failure: Option<(usize, Seq<char>)>,
}

/// The state before any answer: `count` segments, none translated.
pub open spec fn started(count: nat) -> OrchestratorView {
    OrchestratorView { slots: Seq::new(count, |i: int| None), failure: None }
}

/// `state` takes the answer `event`: it is one for a segment that still awaits
/// its translation, and nothing has failed yet.
pub open spec fn accepts(state: OrchestratorView, event: CompletionView) -> bool {
    &&& state.failure is None
    &&& event.index < state.slots.len()
    &&& state.slots[event.index as int] is None
}

/// The state after the answer `event`. A translated body goes to the place of
/// its segment, a failure is kept as the first one. An answer that the state
/// does not take changes nothing.
pub open spec fn recorded(state: OrchestratorView, event: CompletionView) -> OrchestratorView {
    if accepts(state, event) {
        match event.outcome {
            Ok(text) => OrchestratorView {
                slots: state.slots.update(event.index as int, Some(text)),
                failure: None,
            },
            Err(message) => OrchestratorView {
                slots: state.slots,
                failure: Some((event.index, message)),
            },
        }
    } else {
        state
    }
}

/// The state after the answers `events`, taken in the order of their arrival.
pub open spec fn recorded_all(state: OrchestratorView, events: Seq<CompletionView>) -> OrchestratorView
    decreases events.len(),
{
    if events.len() == 0 {
        state
    } else {
        recorded(recorded_all(state, events.drop_last()), events.last())
    }
}

/// Every segment has its translation.
pub open spec fn all_translated(slots: Seq<Option<Seq<char>>>) -> bool {
    forall|i: int| 0 <= i < slots.len() ==> (#[trigger] slots[i]) is Some
}

/// How far `state` has come.
pub open spec fn progress_of(state: OrchestratorView) -> Progress {
    if state.failure is Some {
        Progress::Failed
    } else if all_translated(state.slots) {
        Progress::Complete
    } else {
        Progress::Pending
    }
}

/// The translated bodies in the order of their segments.
pub open spec fn translations(slots: Seq<Option<Seq<char>>>) -> Seq<Seq<char>> {
    Seq::new(slots.len(), |i: int| slots[i]->0)
}

/// What `state` gives in the end: all translated bodies in the order of their
/// segments, or the first failure and nothing else; nothing while translations
/// are still awaited.
pub open spec fn outcome_of(state: OrchestratorView) -> Option<
    Result<Seq<Seq<char>>, TranslateErrorView>,
> {
    match state.failure {
        Some((index, message)) => Some(
            Err(TranslateErrorView::TranslationFailure { index, message }),
        ),
        None => if all_translated(state.slots) {
            Some(Ok(translations(state.slots)))
        } else {
            None
        },
    }
}

/// The number of segments that still await their translation.
pub open spec fn count_missing(slots: Seq<Option<Seq<char>>>) -> nat
    decreases slots.len(),
{
    if slots.len() == 0 {
        0
    } else {
        count_missing(slots.drop_last()) + if slots.last() is None {
            1nat
        } else {
            0nat
        }
    }
}

/// The places of a translation, as plain values.
pub open spec fn slot_views(slots: Seq<Option<String>>) -> Seq<Option<Seq<char>>> {
    Seq::new(
        slots.len(),
        |i: int|
            match slots[i] {
                Some(text) => Some(text@),
                None => None,
            },
    )
}

/// Collects the answers of the translator and puts them in the order of the
/// segments, whatever the order of their arrival.
pub struct Orchestrator {
    slots: Vec<Option<String>>,
    missing: usize,
    failure: Option<(usize, String)>,
}

impl View for Orchestrator {
    type V = OrchestratorView;

    closed spec fn view(&self) -> OrchestratorView {
        OrchestratorView {
            slots: slot_views(self.slots@),
            failure: match self.failure {
                Some((index, message)) => Some((index, message@)),
                None => None,
            },
        }
    }
}

/// Filling an empty place leaves one fewer to fill.
proof fn lemma_count_after_update(slots: Seq<Option<Seq<char>>>, index: int, text: Seq<char>)
    requires
        0 <= index < slots.len(),
        slots[index] is None,
    ensures
        count_missing(slots.update(index, Some(text))) + 1 == count_missing(slots),
    decreases slots.len(),
{
    let after = slots.update(index, Some(text));
    if index == slots.len() - 1 {
        assert(after.drop_last() =~= slots.drop_last());
    } else {
        lemma_count_after_update(slots.drop_last(), index, text);
        assert(after.drop_last() =~= slots.drop_last().update(index, Some(text)));
    }
}

/// Nothing awaits its translation exactly where every segment has one.
proof fn lemma_count_missing_zero(slots: Seq<Option<Seq<char>>>)
    ensures
        count_missing(slots) == 0 <==> all_translated(slots),
        count_missing(slots) <= slots.len(),
    decreases slots.len(),
{
    if slots.len() > 0 {
        lemma_count_missing_zero(slots.drop_last());
        if all_translated(slots) {
            assert forall|i: int| 0 <= i < slots.drop_last().len() implies (
            #[trigger] slots.drop_last()[i]) is Some by {
                assert(slots[i] is Some);
            }
            assert(slots[slots.len() - 1] is Some);
        }
        if count_missing(slots) == 0 {
            assert forall|i: int| 0 <= i < slots.len() implies (#[trigger] slots[i]) is Some by {
                if i < slots.len() - 1 {
                    assert(slots.drop_last()[i] is Some);
                }
            }
        }
    }
}

/// Before any answer every segment awaits its translation.
proof fn lemma_count_missing_started(count: nat)
    ensures
        count_missing(started(count).slots) == count,
    decreases count,
{
    if count > 0 {
        lemma_count_missing_started((count - 1) as nat);
        assert(started(count).slots.drop_last() =~= started((count - 1) as nat).slots);
    }
}

impl Orchestrator {
    /// The count of the segments that await their translation is kept beside
    /// the places, so that progress is known without looking through them.
    #[verifier::type_invariant]
    spec fn counts_the_missing(self) -> bool {
        self.missing == count_missing(slot_views(self.slots@))
    }

    /// An orchestrator for `count` segments, none of them translated yet.
    pub fn new(count: usize) -> (fresh: Orchestrator)
        ensures
            fresh@ == started(count as nat),
    {
        let mut slots: Vec<Option<String>> = Vec::new();
        let mut i: usize = 0;
        while i < count
            invariant
                i <= count,
                slots.len() == i,
                forall|k: int| 0 <= k < i ==> (#[trigger] slots[k]) is None,
            decreases count - i,
        {
            slots.push(None);
            i += 1;
        }
        proof {
            assert(slot_views(slots@) =~= started(count as nat).slots);
            lemma_count_missing_started(count as nat);
        }
        Orchestrator { slots, missing: count, failure: None }
    }

    /// The number of segments.
    pub fn len(&self) -> (count: usize)
        ensures
            count == self@.slots.len(),
    {
        self.slots.len()
    }

    /// Takes one answer of the translator. A translated body goes to the place
    /// of its segment; a failure is kept, and from then on nothing changes. An
    /// answer for no segment, or for a segment that has its body, changes nothing.
    pub fn record(self, completion: Completion) -> (next: Orchestrator)
        ensures
            next@ == recorded(self@, completion@),
    {
        proof {
            use_type_invariant(&self);
        }
        let Orchestrator { mut slots, missing, failure } = self;
        let Completion { index, outcome } = completion;
        let ghost before = slot_views(slots@);
        if failure.is_some() || index >= slots.len() || slots[index].is_some() {
            return Orchestrator { slots, missing, failure };
        }
        match outcome {
            Ok(text) => {
                proof {
                    lemma_count_after_update(before, index as int, text@);
                }
                slots.set(index, Some(text));
                proof {
                    assert(slot_views(slots@) =~= before.update(index as int, Some(text@)));
                }
                Orchestrator { slots, missing: missing - 1, failure: None }
            },
            Err(message) => Orchestrator { slots, missing, failure: Some((index, message)) },
        }
    }

    /// Takes the answers of the translator in the order of their arrival.
    pub fn record_all(self, completions: Vec<Completion>) -> (next: Orchestrator)
        ensures
            next@ == recorded_all(self@, completion_views(completions@)),
    {
        let ghost all = completions@;
        let ghost events = completion_views(completions@);
        let ghost start = self@;
        let mut state = self;
        for completion in it: completions
            invariant
                it.seq() == all,
                events == completion_views(all),
                state@ == recorded_all(start, events.take(it.index() as int)),
        {
            proof {
                let upto = events.take(it.index() + 1);
                assert(upto.drop_last() =~= events.take(it.index() as int));
                assert(upto.last() == completion@);
            }
            state = state.record(completion);
        }
        proof {
            assert(events.take(all.len() as int) =~= events);
        }
        state
    }

    /// What the translation gives in the end: every translated body, in the
    /// order of the segments, or the first failure that was seen. Nothing as
    /// long as translations are awaited: no part of a result is handed out.
    pub fn finish(self) -> (result: Option<Result<Vec<String>, TranslateError>>)
        ensures
            match outcome_of(self@) {
                None => result is None,
                Some(Ok(texts)) => result matches Some(Ok(bodies)) && string_views(bodies@)
                    == texts,
                Some(Err(failure)) => result matches Some(Err(error)) && error@ == failure,
            },
            result matches Some(Ok(bodies)) ==> bodies.len() == self@.slots.len() && forall|
                i: int,
            |
                0 <= i < bodies.len() ==> self@.slots[i] == Some((#[trigger] bodies[i])@),
            result is None <==> progress_of(self@) == Progress::Pending,
    {
        proof {
            use_type_invariant(&self);
            lemma_count_missing_zero(self@.slots);
        }
        let Orchestrator { slots, missing, failure } = self;
        match failure {
            Some((index, message)) => {
                return Some(Err(TranslateError::TranslationFailure { index, message }));
            },
            None => {},
        }
        if missing != 0 {
            return None;
        }
        let mut bodies: Vec<String> = Vec::new();
        let mut i: usize = 0;
        while i < slots.len()
            invariant
                i <= slots.len(),
                all_translated(slot_views(slots@)),
                bodies.len() == i,
                forall|k: int|
                    0 <= k < i ==> (#[trigger] bodies[k])@ == translations(slot_views(slots@))[k],
            decreases slots.len() - i,
        {
            assert(slot_views(slots@)[i as int] is Some);
            match &slots[i] {
                Some(text) => {
                    bodies.push(text.clone());
                },
                None => {},
            }
            i += 1;
        }
        proof {
            assert(string_views(bodies@) =~= translations(slot_views(slots@)));
            assert forall|k: int| 0 <= k < bodies.len() implies slot_views(slots@)[k] == Some(
                (#[trigger] bodies[k])@,
            ) by {
                assert(slot_views(slots@)[k] is Some);
            }
        }
        Some(Ok(bodies))
    }

    /// How far the translation has come.
    pub fn progress(&self) -> (now: Progress)
        ensures
            now == progress_of(self@),
    {
        proof {
            use_type_invariant(self);
            lemma_count_missing_zero(self@.slots);
        }
        if self.failure.is_some() {
            Progress::Failed
        } else if self.missing == 0 {
            Progress::Complete
        } else {
            Progress::Pending
        }
    }
}

/// Each of the segments is answered once by `events`: their indices are those
/// of the segments, each of them once.
pub open spec fn answers_each_once(count: nat, events: Seq<CompletionView>) -> bool {
    &&& events.len() == count
    &&& forall|k: int| 0 <= k < events.len() ==> (#[trigger] events[k]).index < count
    &&& forall|j: int, k: int|
        0 <= j < k < events.len() ==> (#[trigger] events[j]).index != (#[trigger] events[k]).index
}

/// What holds after the first `n` of the answers `events`, all of them
/// translations: a segment has its body exactly where one of them was for it.
spec fn holds_first(
    count: nat,
    events: Seq<CompletionView>,
    n: int,
    state: OrchestratorView,
) -> bool {
    &&& state.failure is None
    &&& state.slots.len() == count
    &&& count_missing(state.slots) + n == count
    &&& forall|i: int|
        0 <= i < count ==> ((#[trigger] state.slots[i]) is Some <==> exists|k: int|
            0 <= k < n && (#[trigger] events[k]).index == i)
    &&& forall|k: int|
        0 <= k < n ==> state.slots[(#[trigger] events[k]).index as int] == Some(
            events[k].outcome->Ok_0,
        )
}

/// Answers that are all translations, one for each segment, fill the places
/// one after the other.
proof fn lemma_translations_fill(count: nat, events: Seq<CompletionView>, n: int)
    requires
        answers_each_once(count, events),
        forall|k: int| 0 <= k < events.len() ==> (#[trigger] events[k]).outcome is Ok,
        0 <= n <= events.len(),
    ensures
        holds_first(count, events, n, recorded_all(started(count), events.take(n))),
    decreases n,
{
    if n == 0 {
        lemma_count_missing_started(count);
        assert(events.take(0).len() == 0);
    } else {
        lemma_translations_fill(count, events, n - 1);
        let before = recorded_all(started(count), events.take(n - 1));
        let upto = events.take(n);
        assert(upto.drop_last() =~= events.take(n - 1));
        let event = events[n - 1];
        assert(upto.last() == event);
        let after = recorded(before, event);
        assert(recorded_all(started(count), upto) == after);
        assert(before.slots[event.index as int] is None) by {
            if before.slots[event.index as int] is Some {
                let k = choose|k: int| 0 <= k < n - 1 && (#[trigger] events[k]).index == event.index;
                assert(events[k].index != events[n - 1].index);
            }
        }
        assert(accepts(before, event));
        lemma_count_after_update(before.slots, event.index as int, event.outcome->Ok_0);
        assert forall|i: int| 0 <= i < count implies ((#[trigger] after.slots[i]) is Some
            <==> exists|k: int| 0 <= k < n && (#[trigger] events[k]).index == i) by {
            if i == event.index {
                assert(events[n - 1].index == i);
            } else {
                if before.slots[i] is Some {
                    let k = choose|k: int| 0 <= k < n - 1 && (#[trigger] events[k]).index == i;
                    assert(0 <= k < n && events[k].index == i);
                }
                if exists|k: int| 0 <= k < n && (#[trigger] events[k]).index == i {
                    let k = choose|k: int| 0 <= k < n && (#[trigger] events[k]).index == i;
                    assert(0 <= k < n - 1 && events[k].index == i);
                }
            }
        }
        assert forall|k: int| 0 <= k < n implies after.slots[(#[trigger] events[k]).index as int]
            == Some(events[k].outcome->Ok_0) by {
            if k < n - 1 {
                assert(events[k].index != events[n - 1].index);
            }
        }
    }
}

/// The order of the segments is restored. Where every segment is answered once
/// and each answer is the transform of that segment's body, the result holds as
/// many bodies as there are segments, and the body at each index is the
/// transform of the segment's body at that index: in whatever order the
/// answers arrive.
pub proof fn lemma_order_restored(
    bodies: Seq<Seq<char>>,
    transform: spec_fn(Seq<char>) -> Seq<char>,
    events: Seq<CompletionView>,
)
    requires
        answers_each_once(bodies.len(), events),
        forall|k: int|
            0 <= k < events.len() ==> (#[trigger] events[k]).outcome == Ok::<Seq<char>, Seq<char>>(
                transform(bodies[events[k].index as int]),
            ),
    ensures
        outcome_of(recorded_all(started(bodies.len()), events)) == Some(
            Ok::<Seq<Seq<char>>, TranslateErrorView>(
                Seq::new(bodies.len(), |i: int| transform(bodies[i])),
            ),
        ),
{
    let count = bodies.len();
    lemma_translations_fill(count, events, events.len() as int);
    assert(events.take(events.len() as int) =~= events);
    let state = recorded_all(started(count), events);
    lemma_count_missing_zero(state.slots);
    assert forall|i: int| 0 <= i < count implies translations(state.slots)[i] == transform(
        bodies[i],
    ) by {
        assert(state.slots[i] is Some);
        let k = choose|k: int| 0 <= k < events.len() && (#[trigger] events[k]).index == i;
        assert(state.slots[events[k].index as int] == Some(events[k].outcome->Ok_0));
    }
    assert(translations(state.slots) =~= Seq::new(count, |i: int| transform(bodies[i])));
}

/// Once a translation has failed, no answer changes the state.
pub proof fn lemma_failure_stays(state: OrchestratorView, events: Seq<CompletionView>)
    requires
        state.failure is Some,
    ensures
        recorded_all(state, events) == state,
    decreases events.len(),
{
    if events.len() > 0 {
        lemma_failure_stays(state, events.drop_last());
    }
}

/// Recording answers one batch after the other is recording them all.
pub proof fn lemma_recorded_all_add(
    state: OrchestratorView,
    first: Seq<CompletionView>,
    second: Seq<CompletionView>,
)
    ensures
        recorded_all(state, first + second) == recorded_all(recorded_all(state, first), second),
    decreases second.len(),
{
    if second.len() == 0 {
        assert(first + second =~= first);
    } else {
        lemma_recorded_all_add(state, first, second.drop_last());
        assert((first + second).drop_last() =~= first + second.drop_last());
        assert((first + second).last() == second.last());
    }
}

/// One failure fails the whole. Where each segment is answered at most once and
/// the answer at `failed` is the first that is a failure, the result is that
/// failure, whatever the other answers are and in whatever order they arrive:
/// no body is handed out.
pub proof fn lemma_first_failure_is_the_result(count: nat, events: Seq<CompletionView>, failed: int)
    requires
        0 <= failed < events.len(),
        forall|k: int| 0 <= k < events.len() ==> (#[trigger] events[k]).index < count,
        forall|j: int, k: int|
            0 <= j < k < events.len() ==> (#[trigger] events[j]).index != (
            #[trigger] events[k]).index,
        events[failed].outcome is Err,
        forall|k: int| 0 <= k < failed ==> (#[trigger] events[k]).outcome is Ok,
    ensures
        outcome_of(recorded_all(started(count), events)) == Some(
            Err::<Seq<Seq<char>>, TranslateErrorView>(
                TranslateErrorView::TranslationFailure {
                    index: events[failed].index,
                    message: events[failed].outcome->Err_0,
                },
            ),
        ),
        progress_of(recorded_all(started(count), events)) == Progress::Failed,
{
    let before_events = events.take(failed);
    let before = recorded_all(started(count), before_events);
    lemma_successes_keep_places(count, events, failed);
    let event = events[failed];
    assert(before.slots[event.index as int] is None) by {
        if before.slots[event.index as int] is Some {
            let k = choose|k: int| 0 <= k < failed && (#[trigger] events[k]).index == event.index;
            assert(events[k].index != events[failed].index);
        }
    }
    let upto = events.take(failed + 1);
    assert(upto.drop_last() =~= before_events);
    assert(upto.last() == event);
    let at = recorded_all(started(count), upto);
    assert(at == recorded(before, event));
    assert(at.failure == Some((event.index, event.outcome->Err_0)));
    lemma_recorded_all_add(started(count), upto, events.skip(failed + 1));
    assert(upto + events.skip(failed + 1) =~= events);
    lemma_failure_stays(at, events.skip(failed + 1));
}

/// The first of the answers up to `k` that is a failure, where the one at `k` is.
proof fn lemma_find_first_failure(events: Seq<CompletionView>, k: int) -> (first: int)
    requires
        0 <= k < events.len(),
        events[k].outcome is Err,
    ensures
        0 <= first <= k,
        events[first].outcome is Err,
        forall|j: int| 0 <= j < first ==> (#[trigger] events[j]).outcome is Ok,
    decreases k,
{
    if exists|j: int| 0 <= j < k && (#[trigger] events[j]).outcome is Err {
        let j = choose|j: int| 0 <= j < k && (#[trigger] events[j]).outcome is Err;
        lemma_find_first_failure(events, j)
    } else {
        k
    }
}

/// Any failure fails the whole. Where each segment is answered at most once and
/// one of the answers is a failure, the result is a failure and no list of
/// bodies, whatever the other answers are and in whatever order they arrive.
pub proof fn lemma_any_failure_fails_all(count: nat, events: Seq<CompletionView>, k: int)
    requires
        0 <= k < events.len(),
        forall|j: int| 0 <= j < events.len() ==> (#[trigger] events[j]).index < count,
        forall|i: int, j: int|
            0 <= i < j < events.len() ==> (#[trigger] events[i]).index != (
            #[trigger] events[j]).index,
        events[k].outcome is Err,
    ensures
        outcome_of(recorded_all(started(count), events)) matches Some(Err(_)),
        progress_of(recorded_all(started(count), events)) == Progress::Failed,
{
    let first = lemma_find_first_failure(events, k);
    lemma_first_failure_is_the_result(count, events, first);
}

/// After answers that are all translations, for segments that are answered at
/// most once, nothing has failed, and a segment has a body only where one of
/// the answers was for it.
proof fn lemma_successes_keep_places(count: nat, events: Seq<CompletionView>, n: int)
    requires
        0 <= n <= events.len(),
        forall|k: int| 0 <= k < n ==> (#[trigger] events[k]).index < count,
        forall|k: int| 0 <= k < n ==> (#[trigger] events[k]).outcome is Ok,
    ensures
        recorded_all(started(count), events.take(n)).failure is None,
        recorded_all(started(count), events.take(n)).slots.len() == count,
        forall|i: int|
            0 <= i < count && (#[trigger] recorded_all(
                started(count),
                events.take(n),
            ).slots[i]) is Some ==> exists|k: int|
                0 <= k < n && (#[trigger] events[k]).index == i,
    decreases n,
{
    if n == 0 {
        assert(events.take(0).len() == 0);
    } else {
        lemma_successes_keep_places(count, events, n - 1);
        let before = recorded_all(started(count), events.take(n - 1));
        let upto = events.take(n);
        assert(upto.drop_last() =~= events.take(n - 1));
        let event = events[n - 1];
        assert(upto.last() == event);
        let after = recorded(before, event);
        assert(recorded_all(started(count), upto) == after);
        assert forall|i: int| 0 <= i < count && (#[trigger] after.slots[i]) is Some implies exists|
            k: int,
        |
            0 <= k < n && (#[trigger] events[k]).index == i by {
            if i == event.index {
                assert(events[n - 1].index == i);
            } else {
                assert(before.slots[i] is Some);
                let k = choose|k: int| 0 <= k < n - 1 && (#[trigger] events[k]).index == i;
                assert(0 <= k < n && events[k].index == i);
            }
        }
    }
}

} // verus!
