//! Away summaries: a background request that recaps the conversation for a
//! user who comes back. The decisions on one request, from the events of the
//! forked thread that answers it to what the user is shown.
use vstd::prelude::*;

use crate::text::{chars_of, copy_opt_string, copy_string, opt_str, trim_chars, trimmed};

verus! {

/// The thread to fork for a summary: the active thread, else the chat's;
/// with neither, the request is to be finished at once.
pub fn away_summary_origin(active_thread_id: Option<String>, chat_thread_id: Option<String>) -> (r:
    Option<String>)
    ensures
        r == match active_thread_id {
            Some(a) => Some(a),
            None => chat_thread_id,
        },
{
    match active_thread_id {
        Some(a) => Some(a),
        None => chat_thread_id,
    }
}

/// The prompt that asks the forked thread for the summary.
pub const AWAY_SUMMARY_PROMPT: &'static str = "The user stepped away and is coming back. Write exactly 1-3 short sentences. Start by stating the high-level task: what they are building or debugging, not implementation details. Next: the concrete next step. Skip status reports and commit recaps. Do not run tools.";

/// One request in flight.
#[derive(Debug, Clone)]
pub struct AwaySummaryRequestState {
    pub request_id: u64,
    pub turn_id: Option<String>,
    pub response: Option<String>,
    pub error: Option<String>,
    pub cancelled: bool,
}

#[derive(Debug, Clone, Copy, PartialEq, Eq, Structural)]
pub enum MessagePhase {
    Commentary,
    FinalAnswer,
}

#[derive(Debug, Clone, Copy, PartialEq, Eq, Structural)]
pub enum TurnStatus {
    Completed,
    Interrupted,
    Failed,
    InProgress,
}

/// What the forked thread reports about the request.
#[derive(Debug, Clone)]
pub enum AwaySummaryNotification {
    TurnStarted { turn_id: String },
    AgentMessageCompleted { text: String, phase: Option<MessagePhase> },
    OtherItemCompleted,
    Error { message: String },
    TurnCompleted { status: TurnStatus, error: Option<String> },
    ThreadClosed,
    Other,
}

/// What becomes of a finished request.
#[derive(Debug, Clone)]
pub enum AwaySummaryOutcome {
    /// Nothing to show: cancelled, or no answer with text.
    Dismissed { request_id: u64 },
    /// The request failed; the error is logged, nothing is shown.
    Failed { request_id: u64, error: String },
    /// The summary to show.
    Completed { request_id: u64, summary: String },
}

impl AwaySummaryRequestState {
    /// A request just sent: no turn, no answer, no error.
    pub fn new(request_id: u64) -> (r: AwaySummaryRequestState)
        ensures
            r.request_id == request_id,
            r.turn_id is None,
            r.response is None,
            r.error is None,
            !r.cancelled,
    {
        AwaySummaryRequestState {
            request_id,
            turn_id: None,
            response: None,
            error: None,
            cancelled: false,
        }
    }
}

/// The request after a notification; `.1` says whether it is now finished
/// (its turn completed or its thread closed). Answers and errors are kept
/// only while the request is not cancelled; an answer counts when it is a
/// final answer or has no phase.
pub open spec fn after_notification(
    state: AwaySummaryRequestState,
    n: AwaySummaryNotification,
) -> (AwaySummaryRequestState, bool) {
    match n {
        AwaySummaryNotification::TurnStarted { turn_id } => (
            AwaySummaryRequestState { turn_id: Some(turn_id), ..state },
            false,
        ),
        AwaySummaryNotification::AgentMessageCompleted { text, phase } => (
            if !state.cancelled && (phase is None || phase == Some(MessagePhase::FinalAnswer)) {
                AwaySummaryRequestState { response: Some(text), ..state }
            } else {
                state
            },
            false,
        ),
        AwaySummaryNotification::Error { message } => (
            if !state.cancelled {
                AwaySummaryRequestState { error: Some(message), ..state }
            } else {
                state
            },
            false,
        ),
        AwaySummaryNotification::TurnCompleted { status, error } => (
            if !state.cancelled && status == TurnStatus::Failed && error is Some {
                AwaySummaryRequestState { error: error, ..state }
            } else {
                state
            },
            true,
        ),
        AwaySummaryNotification::ThreadClosed => (state, true),
        _ => (state, false),
    }
}

/// Applies a notification of the request's thread (see `after_notification`).
pub fn handle_away_summary_notification(
    state: &mut AwaySummaryRequestState,
    notification: &AwaySummaryNotification,
) -> (finished: bool)
    ensures
        (*final(state), finished) == after_notification(*old(state), *notification),
{
    match notification {
        AwaySummaryNotification::TurnStarted { turn_id } => {
            state.turn_id = Some(copy_string(turn_id));
            false
        },
        AwaySummaryNotification::AgentMessageCompleted { text, phase } => {
            let counts = match phase {
                None => true,
                Some(MessagePhase::FinalAnswer) => true,
                Some(MessagePhase::Commentary) => false,
            };
            if !state.cancelled && counts {
                state.response = Some(copy_string(text));
            }
            false
        },
        AwaySummaryNotification::Error { message } => {
            if !state.cancelled {
                state.error = Some(copy_string(message));
            }
            false
        },
        AwaySummaryNotification::TurnCompleted { status, error } => {
            let failed = match status {
                TurnStatus::Failed => true,
                _ => false,
            };
            if !state.cancelled && failed && error.is_some() {
                state.error = copy_opt_string(error);
            }
            true
        },
        AwaySummaryNotification::ThreadClosed => true,
        AwaySummaryNotification::OtherItemCompleted => false,
        AwaySummaryNotification::Other => false,
    }
}

/// Cancels the request: no answer or error will be kept. Returns the turn to
/// interrupt, if the request's turn is known.
pub fn cancel_away_summary_request(state: &mut AwaySummaryRequestState) -> (interrupt: Option<
    String,
>)
    ensures
        final(state).cancelled,
        final(state).response is None,
        final(state).error is None,
        final(state).request_id == old(state).request_id,
        final(state).turn_id == old(state).turn_id,
        opt_str(interrupt) == opt_str(old(state).turn_id),
{
    state.cancelled = true;
    state.response = None;
    state.error = None;
    copy_opt_string(&state.turn_id)
}

/// The text is empty once its white space is trimmed.
pub open spec fn is_blank(s: Seq<char>) -> bool {
    trimmed(s).len() == 0
}

/// What a finished request gives: nothing when cancelled; the error when
/// there is one; the answer when it is not blank; nothing otherwise.
pub open spec fn outcome_of(state: AwaySummaryRequestState) -> AwaySummaryOutcome {
    if state.cancelled {
        AwaySummaryOutcome::Dismissed { request_id: state.request_id }
    } else if let Some(error) = state.error {
        AwaySummaryOutcome::Failed { request_id: state.request_id, error }
    } else if let Some(response) = state.response {
        if !is_blank(response@) {
            AwaySummaryOutcome::Completed { request_id: state.request_id, summary: response }
        } else {
            AwaySummaryOutcome::Dismissed { request_id: state.request_id }
        }
    } else {
        AwaySummaryOutcome::Dismissed { request_id: state.request_id }
    }
}

fn is_blank_text(s: &String) -> (r: bool)
    ensures
        r == is_blank(s@),
{
    let cs = chars_of(s.as_str());
    let t = trim_chars(&cs);
    t.len() == 0
}

/// Decides what a finished request gives (see `outcome_of`).
pub fn finish_away_summary_request(state: AwaySummaryRequestState) -> (r: AwaySummaryOutcome)
    ensures
        r == outcome_of(state),
{
    if state.cancelled {
        return AwaySummaryOutcome::Dismissed { request_id: state.request_id };
    }
    match state.error {
        Some(error) => AwaySummaryOutcome::Failed { request_id: state.request_id, error },
        None => match state.response {
            Some(response) => {
                if !is_blank_text(&response) {
                    AwaySummaryOutcome::Completed { request_id: state.request_id, summary: response }
                } else {
                    AwaySummaryOutcome::Dismissed { request_id: state.request_id }
                }
            },
            None => AwaySummaryOutcome::Dismissed { request_id: state.request_id },
        },
    }
}

/// A cancelled request stays cancelled whatever its thread reports, and
/// never shows a summary or an error.
pub proof fn law_cancelled_request_shows_nothing(
    state: AwaySummaryRequestState,
    notification: AwaySummaryNotification,
)
    requires
        state.cancelled,
    ensures
        after_notification(state, notification).0.cancelled,
        after_notification(state, notification).0.request_id == state.request_id,
        outcome_of(after_notification(state, notification).0) == (AwaySummaryOutcome::Dismissed {
            request_id: state.request_id,
        }),
{
}

/// An answer that counts (a final answer, or one with no phase) on a request
/// not cancelled becomes the request's response, whatever response it held
/// before; nothing else of the request changes.
pub proof fn law_latest_answer_replaces_earlier(
    state: AwaySummaryRequestState,
    text: String,
    phase: Option<MessagePhase>,
)
    requires
        !state.cancelled,
        phase is None || phase == Some(MessagePhase::FinalAnswer),
    ensures
        after_notification(
            state,
            AwaySummaryNotification::AgentMessageCompleted { text, phase },
        ) == (AwaySummaryRequestState { response: Some(text), ..state }, false),
{
}

/// Of two answers that count, the later one is what the finished request
/// shows (when it is not blank and no error came).
pub proof fn law_second_answer_is_shown(
    state: AwaySummaryRequestState,
    first: String,
    second: String,
    status: TurnStatus,
)
    requires
        !state.cancelled,
        state.error is None,
        !is_blank(second@),
        status != TurnStatus::Failed,
    ensures
        ({
            let s1 = after_notification(
                state,
                AwaySummaryNotification::AgentMessageCompleted { text: first, phase: None },
            ).0;
            let s2 = after_notification(
                s1,
                AwaySummaryNotification::AgentMessageCompleted { text: second, phase: None },
            ).0;
            let (s3, done) = after_notification(
                s2,
                AwaySummaryNotification::TurnCompleted { status, error: None },
            );
            &&& done
            &&& outcome_of(s3) == (AwaySummaryOutcome::Completed {
                request_id: state.request_id,
                summary: second,
            })
        }),
{
}

/// Any notification leaves the request id as it is.
pub proof fn law_notifications_keep_request_id(
    state: AwaySummaryRequestState,
    notification: AwaySummaryNotification,
)
    ensures
        after_notification(state, notification).0.request_id == state.request_id,
        after_notification(state, notification).0.cancelled == state.cancelled,
{
}

/// A request whose turn completed with a final answer that is not blank, and
/// with no error, shows that answer.
pub proof fn law_final_answer_is_shown(request_id: u64, text: String, status: TurnStatus)
    requires
        !is_blank(text@),
        status != TurnStatus::Failed,
    ensures
        ({
            let s0 = AwaySummaryRequestState {
                request_id,
                turn_id: None,
                response: None,
                error: None,
                cancelled: false,
            };
            let s1 = after_notification(
                s0,
                AwaySummaryNotification::AgentMessageCompleted {
                    text,
                    phase: Some(MessagePhase::FinalAnswer),
                },
            ).0;
            let (s2, done) = after_notification(
                s1,
                AwaySummaryNotification::TurnCompleted { status, error: None },
            );
            &&& done
            &&& outcome_of(s2) == (AwaySummaryOutcome::Completed { request_id, summary: text })
        }),
{
}

/// The entries name their threads at most once each.
pub open spec fn keys_unique(es: Seq<(String, AwaySummaryRequestState)>) -> bool {
    forall|i: int, j: int| 0 <= i < j < es.len() ==> (#[trigger] es[i]).0@ != (#[trigger] es[j]).0@
}

/// Some entry names the thread `k`.
pub open spec fn has_key(es: Seq<(String, AwaySummaryRequestState)>, k: Seq<char>) -> bool {
    exists|i: int| 0 <= i < es.len() && (#[trigger] es[i]).0@ == k
}

/// The requests of the entries, by thread.
pub open spec fn entries_map(es: Seq<(String, AwaySummaryRequestState)>) -> Map<
    Seq<char>,
    AwaySummaryRequestState,
> {
    Map::new(
        |k: Seq<char>| has_key(es, k),
        |k: Seq<char>| es[choose|i: int| 0 <= i < es.len() && (#[trigger] es[i]).0@ == k].1,
    )
}

/// A request after a cancellation: marked cancelled, its answer and error
/// dropped.
pub open spec fn cancelled(s: AwaySummaryRequestState) -> AwaySummaryRequestState {
    AwaySummaryRequestState { cancelled: true, response: None, error: None, ..s }
}

proof fn lemma_entry(es: Seq<(String, AwaySummaryRequestState)>, i: int)
    requires
        keys_unique(es),
        0 <= i < es.len(),
    ensures
        entries_map(es).dom().contains(es[i].0@),
        entries_map(es)[es[i].0@] == es[i].1,
{
    let k = es[i].0@;
    assert(has_key(es, k));
    let j = choose|j: int| 0 <= j < es.len() && (#[trigger] es[j]).0@ == k;
    if j < i {
        assert(es[j].0@ != es[i].0@);
    } else if i < j {
        assert(es[i].0@ != es[j].0@);
    }
}

proof fn lemma_entries_push(
    es: Seq<(String, AwaySummaryRequestState)>,
    k: String,
    v: AwaySummaryRequestState,
)
    requires
        keys_unique(es),
        !has_key(es, k@),
    ensures
        keys_unique(es.push((k, v))),
        entries_map(es.push((k, v))) == entries_map(es).insert(k@, v),
{
    let es2 = es.push((k, v));
    assert forall|i: int, j: int| 0 <= i < j < es2.len() implies (#[trigger] es2[i]).0@ != (
    #[trigger] es2[j]).0@ by {
        if j == es.len() {
            assert(es[i] == es2[i]);
        } else {
            assert(es[i] == es2[i] && es[j] == es2[j]);
        }
    }
    let m = entries_map(es).insert(k@, v);
    assert forall|x: Seq<char>| #[trigger] entries_map(es2).dom().contains(x) <==> m.dom().contains(
        x,
    ) by {
        if has_key(es2, x) {
            let i = choose|i: int| 0 <= i < es2.len() && (#[trigger] es2[i]).0@ == x;
            if i < es.len() {
                assert(es[i] == es2[i]);
                assert(has_key(es, x));
            }
        }
        if has_key(es, x) {
            let i = choose|i: int| 0 <= i < es.len() && (#[trigger] es[i]).0@ == x;
            assert(es2[i] == es[i]);
        }
        if x == k@ {
            assert(es2[es.len() as int].0@ == x);
        }
    }
    assert forall|x: Seq<char>| #[trigger] entries_map(es2).dom().contains(x) implies entries_map(
        es2,
    )[x] == m[x] by {
        if x == k@ {
            lemma_entry(es2, es.len() as int);
        } else {
            let i = choose|i: int| 0 <= i < es.len() && (#[trigger] es[i]).0@ == x;
            lemma_entry(es, i);
            assert(es2[i] == es[i]);
            lemma_entry(es2, i);
        }
    }
    assert(entries_map(es2) =~= m);
}

proof fn lemma_entries_update(
    es: Seq<(String, AwaySummaryRequestState)>,
    i: int,
    v: AwaySummaryRequestState,
)
    requires
        keys_unique(es),
        0 <= i < es.len(),
    ensures
        keys_unique(es.update(i, (es[i].0, v))),
        entries_map(es.update(i, (es[i].0, v))) == entries_map(es).insert(es[i].0@, v),
{
    let k = es[i].0;
    let es2 = es.update(i, (k, v));
    assert forall|a: int, b: int| 0 <= a < b < es2.len() implies (#[trigger] es2[a]).0@ != (
    #[trigger] es2[b]).0@ by {
        assert(es2[a].0 == es[a].0 && es2[b].0 == es[b].0);
    }
    let m = entries_map(es).insert(k@, v);
    assert forall|x: Seq<char>| #[trigger] entries_map(es2).dom().contains(x) <==> m.dom().contains(
        x,
    ) by {
        if has_key(es2, x) {
            let j = choose|j: int| 0 <= j < es2.len() && (#[trigger] es2[j]).0@ == x;
            assert(es[j].0 == es2[j].0);
            assert(has_key(es, x));
        }
        if has_key(es, x) {
            let j = choose|j: int| 0 <= j < es.len() && (#[trigger] es[j]).0@ == x;
            assert(es2[j].0 == es[j].0);
        }
        if x == k@ {
            assert(es2[i].0@ == x);
        }
    }
    assert forall|x: Seq<char>| #[trigger] entries_map(es2).dom().contains(x) implies entries_map(
        es2,
    )[x] == m[x] by {
        if x == k@ {
            lemma_entry(es2, i);
        } else {
            let j = choose|j: int| 0 <= j < es.len() && (#[trigger] es[j]).0@ == x;
            lemma_entry(es, j);
            assert(es2[j] == es[j]);
            lemma_entry(es2, j);
        }
    }
    assert(entries_map(es2) =~= m);
}

proof fn lemma_entries_remove(es: Seq<(String, AwaySummaryRequestState)>, i: int)
    requires
        keys_unique(es),
        0 <= i < es.len(),
    ensures
        keys_unique(es.remove(i)),
        entries_map(es.remove(i)) == entries_map(es).remove(es[i].0@),
{
    let k = es[i].0@;
    let es2 = es.remove(i);
    assert forall|a: int, b: int| 0 <= a < b < es2.len() implies (#[trigger] es2[a]).0@ != (
    #[trigger] es2[b]).0@ by {
        let a0 = if a < i { a } else { a + 1 };
        let b0 = if b < i { b } else { b + 1 };
        assert(es2[a] == es[a0] && es2[b] == es[b0]);
    }
    let m = entries_map(es).remove(k);
    assert forall|x: Seq<char>| #[trigger] entries_map(es2).dom().contains(x) <==> m.dom().contains(
        x,
    ) by {
        if has_key(es2, x) {
            let j = choose|j: int| 0 <= j < es2.len() && (#[trigger] es2[j]).0@ == x;
            let j0 = if j < i { j } else { j + 1 };
            assert(es2[j] == es[j0]);
            assert(has_key(es, x));
            assert(x != k);
        }
        if has_key(es, x) && x != k {
            let j = choose|j: int| 0 <= j < es.len() && (#[trigger] es[j]).0@ == x;
            assert(j != i);
            let j2 = if j < i { j } else { j - 1 };
            assert(es2[j2] == es[j]);
        }
    }
    assert forall|x: Seq<char>| #[trigger] entries_map(es2).dom().contains(x) implies entries_map(
        es2,
    )[x] == m[x] by {
        let j = choose|j: int| 0 <= j < es2.len() && (#[trigger] es2[j]).0@ == x;
        let j0 = if j < i { j } else { j + 1 };
        assert(es2[j] == es[j0]);
        lemma_entry(es, j0);
        lemma_entry(es2, j);
    }
    assert(entries_map(es2) =~= m);
}

/// The away-summary requests in flight, by the id of the forked thread that
/// answers each.
pub struct AwaySummaryRequests {
    entries: Vec<(String, AwaySummaryRequestState)>,
}

impl View for AwaySummaryRequests {
    type V = Map<Seq<char>, AwaySummaryRequestState>;

    closed spec fn view(&self) -> Map<Seq<char>, AwaySummaryRequestState> {
        entries_map(self.entries@)
    }
}

impl AwaySummaryRequests {
    #[verifier::type_invariant]
    spec fn wf(self) -> bool {
        keys_unique(self.entries@)
    }

    /// No request in flight.
    pub fn new() -> (r: AwaySummaryRequests)
        ensures
            r@ == Map::<Seq<char>, AwaySummaryRequestState>::empty(),
    {
        let r = AwaySummaryRequests { entries: Vec::new() };
        assert(r@ =~= Map::<Seq<char>, AwaySummaryRequestState>::empty());
        r
    }

    fn find(&self, thread_id: &String) -> (r: Option<usize>)
        ensures
            match r {
                Some(i) => i < self.entries@.len() && self.entries@[i as int].0@ == thread_id@,
                None => !has_key(self.entries@, thread_id@),
            },
    {
        let mut k: usize = 0;
        while k < self.entries.len()
            invariant
                k <= self.entries@.len(),
                forall|j: int| 0 <= j < k ==> (#[trigger] self.entries@[j]).0@ != thread_id@,
            decreases self.entries@.len() - k,
        {
            if self.entries[k].0 == *thread_id {
                return Some(k);
            }
            k = k + 1;
        }
        None
    }

    /// The request answered by the thread, if any.
    pub fn get(&self, thread_id: &String) -> (r: Option<&AwaySummaryRequestState>)
        ensures
            match r {
                Some(s) => self@.contains_key(thread_id@) && *s == self@[thread_id@],
                None => !self@.contains_key(thread_id@),
            },
    {
        proof {
            use_type_invariant(self);
        }
        match self.find(thread_id) {
            Some(i) => {
                proof {
                    lemma_entry(self.entries@, i as int);
                }
                Some(&self.entries[i].1)
            },
            None => None,
        }
    }

    /// Records the request answered by the thread, in place of any earlier one.
    pub fn insert(&mut self, thread_id: String, state: AwaySummaryRequestState)
        ensures
            final(self)@ == old(self)@.insert(thread_id@, state),
    {
        proof {
            use_type_invariant(&*self);
        }
        let found = self.find(&thread_id);
        let mut es: Vec<(String, AwaySummaryRequestState)> = Vec::new();
        std::mem::swap(&mut es, &mut self.entries);
        let ghost es0 = es@;
        match found {
            Some(i) => {
                proof {
                    lemma_entries_update(es0, i as int, state);
                }
                let key = copy_string(&es[i].0);
                es[i] = (key, state);
                assert(es@ =~= es0.update(i as int, (es0[i as int].0, state)));
            },
            None => {
                proof {
                    lemma_entries_push(es0, thread_id, state);
                }
                es.push((thread_id, state));
            },
        }
        self.entries = es;
    }

    /// Takes out the request answered by the thread, if any.
    pub fn remove(&mut self, thread_id: &String) -> (r: Option<AwaySummaryRequestState>)
        ensures
            r == (if old(self)@.contains_key(thread_id@) {
                Some(old(self)@[thread_id@])
            } else {
                None
            }),
            final(self)@ == old(self)@.remove(thread_id@),
    {
        proof {
            use_type_invariant(&*self);
        }
        match self.find(thread_id) {
            Some(i) => {
                proof {
                    lemma_entry(self.entries@, i as int);
                    lemma_entries_remove(self.entries@, i as int);
                }
                let mut es: Vec<(String, AwaySummaryRequestState)> = Vec::new();
                std::mem::swap(&mut es, &mut self.entries);
                let (_, state) = es.remove(i);
                self.entries = es;
                Some(state)
            },
            None => {
                assert(old(self)@.remove(thread_id@) =~= old(self)@);
                None
            },
        }
    }

    /// Notes the turn that answers the thread's request, if the thread has one.
    pub fn set_turn_id(&mut self, thread_id: &String, turn_id: String)
        ensures
            final(self)@ == (if old(self)@.contains_key(thread_id@) {
                old(self)@.insert(
                    thread_id@,
                    AwaySummaryRequestState { turn_id: Some(turn_id), ..old(self)@[thread_id@] },
                )
            } else {
                old(self)@
            }),
    {
        proof {
            use_type_invariant(&*self);
        }
        match self.find(thread_id) {
            Some(i) => {
                let mut es: Vec<(String, AwaySummaryRequestState)> = Vec::new();
                std::mem::swap(&mut es, &mut self.entries);
                let ghost es0 = es@;
                proof {
                    lemma_entry(es0, i as int);
                }
                let key = copy_string(&es[i].0);
                let old_state = &es[i].1;
                let state = AwaySummaryRequestState {
                    request_id: old_state.request_id,
                    turn_id: Some(turn_id),
                    response: copy_opt_string(&old_state.response),
                    error: copy_opt_string(&old_state.error),
                    cancelled: old_state.cancelled,
                };
                proof {
                    lemma_entries_update(es0, i as int, state);
                }
                es[i] = (key, state);
                assert(es@ =~= es0.update(i as int, (es0[i as int].0, state)));
                self.entries = es;
            },
            None => {},
        }
    }

    /// The fork that answers request `request_id` is made, or failed. A new
    /// fork records the request, fresh, under its thread, and comes back as
    /// the thread to prompt; a failed one records nothing, and the request is
    /// to be finished (`None`).
    pub fn fork_finished(&mut self, request_id: u64, fork: Result<String, String>) -> (prompt:
        Option<String>)
        ensures
            match fork {
                Ok(thread_id) => prompt == Some(thread_id) && final(self)@ == old(self)@.insert(
                    thread_id@,
                    AwaySummaryRequestState {
                        request_id,
                        turn_id: None,
                        response: None,
                        error: None,
                        cancelled: false,
                    },
                ),
                Err(_) => prompt is None && final(self)@ == old(self)@,
            },
    {
        match fork {
            Ok(thread_id) => {
                let key = copy_string(&thread_id);
                self.insert(key, AwaySummaryRequestState::new(request_id));
                Some(thread_id)
            },
            Err(_) => None,
        }
    }

    /// The turn asked of the thread started, or failed to: a started turn is
    /// noted (see `set_turn_id`); on a failure the request leaves and its id
    /// comes back, to be finished (see `turn_start_failed`).
    pub fn turn_start_finished(&mut self, thread_id: &String, turn: Result<String, String>) -> (finished: Option<u64>)
        ensures
            match turn {
                Ok(turn_id) => finished is None && final(self)@ == (if old(self)@.contains_key(
                    thread_id@,
                ) {
                    old(self)@.insert(
                        thread_id@,
                        AwaySummaryRequestState { turn_id: Some(turn_id), ..old(self)@[thread_id@] },
                    )
                } else {
                    old(self)@
                }),
                Err(_) => finished == (if old(self)@.contains_key(thread_id@) {
                    Some(old(self)@[thread_id@].request_id)
                } else {
                    None
                }) && final(self)@ == old(self)@.remove(thread_id@),
            },
    {
        match turn {
            Ok(turn_id) => {
                self.set_turn_id(thread_id, turn_id);
                None
            },
            Err(_) => self.turn_start_failed(thread_id),
        }
    }

    /// The turn answering the thread's request could not be started: the
    /// request leaves, and the id of the request to finish comes back.
    pub fn turn_start_failed(&mut self, thread_id: &String) -> (finished: Option<u64>)
        ensures
            finished == (if old(self)@.contains_key(thread_id@) {
                Some(old(self)@[thread_id@].request_id)
            } else {
                None
            }),
            final(self)@ == old(self)@.remove(thread_id@),
    {
        match self.remove(thread_id) {
            Some(state) => Some(state.request_id),
            None => None,
        }
    }

    /// Applies a notification of a thread: `.0` says whether the thread
    /// answers a request; when the notification finishes that request, it
    /// leaves and `.1` is what it gives.
    pub fn handle_thread_notification(
        &mut self,
        thread_id: &String,
        notification: &AwaySummaryNotification,
    ) -> (r: (bool, Option<AwaySummaryOutcome>))
        ensures
            !old(self)@.contains_key(thread_id@) ==> r == (false, None::<AwaySummaryOutcome>)
                && final(self)@ == old(self)@,
            old(self)@.contains_key(thread_id@) ==> {
                let (s, done) = after_notification(old(self)@[thread_id@], *notification);
                &&& r.0
                &&& done ==> final(self)@ == old(self)@.remove(thread_id@) && r.1 == Some(
                    outcome_of(s),
                )
                &&& !done ==> final(self)@ == old(self)@.insert(thread_id@, s) && r.1 is None
            },
    {
        proof {
            use_type_invariant(&*self);
        }
        match self.find(thread_id) {
            None => (false, None),
            Some(i) => {
                let mut es: Vec<(String, AwaySummaryRequestState)> = Vec::new();
                std::mem::swap(&mut es, &mut self.entries);
                let ghost es0 = es@;
                proof {
                    lemma_entry(es0, i as int);
                }
                let finished = handle_away_summary_notification(&mut es[i].1, notification);
                let ghost s = es@[i as int].1;
                proof {
                    assert(es@ =~= es0.update(i as int, (es0[i as int].0, s)));
                    lemma_entries_update(es0, i as int, s);
                }
                if finished {
                    let ghost mid = es@;
                    proof {
                        lemma_entry(mid, i as int);
                        lemma_entries_remove(mid, i as int);
                        assert(entries_map(mid).remove(thread_id@) =~= old(self)@.remove(thread_id@));
                    }
                    let (_, state) = es.remove(i);
                    self.entries = es;
                    (true, Some(finish_away_summary_request(state)))
                } else {
                    self.entries = es;
                    (true, None)
                }
            },
        }
    }

    /// Cancels every request: none will show an answer or an error. Returns
    /// each thread whose answering turn is known, with that turn, to be
    /// interrupted.
    pub fn cancel_all(&mut self) -> (interrupts: Vec<(String, String)>)
        ensures
            final(self)@ == old(self)@.map_values(|s: AwaySummaryRequestState| cancelled(s)),
            forall|j: int|
                0 <= j < interrupts@.len() ==> {
                    let (t, turn) = #[trigger] interrupts@[j];
                    &&& old(self)@.contains_key(t@)
                    &&& old(self)@[t@].turn_id == Some(turn)
                },
            forall|a: int, b: int|
                0 <= a < b < interrupts@.len() ==> (#[trigger] interrupts@[a]).0@ != (
                #[trigger] interrupts@[b]).0@,
            forall|k: Seq<char>|
                #[trigger] old(self)@.contains_key(k) && old(self)@[k].turn_id is Some ==> exists|
                    j: int,
                | 0 <= j < interrupts@.len() && (#[trigger] interrupts@[j]).0@ == k,
    {
        proof {
            use_type_invariant(&*self);
        }
        let mut work: Vec<(String, AwaySummaryRequestState)> = Vec::new();
        std::mem::swap(&mut work, &mut self.entries);
        let ghost es = work@;
        let mut interrupts: Vec<(String, String)> = Vec::new();
        let mut k: usize = 0;
        while k < work.len()
            invariant
                work@.len() == es.len(),
                k <= es.len(),
                forall|j: int|
                    0 <= j < es.len() ==> (#[trigger] work@[j]) == if j < k {
                        (es[j].0, cancelled(es[j].1))
                    } else {
                        es[j]
                    },
                interrupts@ == interrupt_pairs(es.take(k as int)),
            decreases es.len() - k,
        {
            let key = copy_string(&work[k].0);
            let turn = copy_opt_string(&work[k].1.turn_id);
            proof {
                assert(es.take(k + 1).drop_last() =~= es.take(k as int));
                assert(es.take(k + 1).last() == es[k as int]);
            }
            match turn {
                Some(t) => {
                    interrupts.push((copy_string(&key), t));
                },
                None => {},
            }
            let state = AwaySummaryRequestState {
                request_id: work[k].1.request_id,
                turn_id: copy_opt_string(&work[k].1.turn_id),
                response: None,
                error: None,
                cancelled: true,
            };
            work[k] = (key, state);
            k = k + 1;
        }
        proof {
            assert(es.take(k as int) =~= es);
            lemma_cancel_entries(es, work@);
            lemma_interrupt_pairs(es);
            let pairs = interrupt_pairs(es);
            assert forall|j: int| 0 <= j < pairs.len() implies {
                let (t, turn) = #[trigger] pairs[j];
                &&& entries_map(es).contains_key(t@)
                &&& entries_map(es)[t@].turn_id == Some(turn)
            } by {
                assert(pair_in(es, pairs[j]));
                let w = choose|w: int| #[trigger] pair_from(es, w, pairs[j]);
                lemma_entry(es, w);
            }
            assert forall|x: Seq<char>|
                #[trigger] entries_map(es).contains_key(x) && entries_map(es)[x].turn_id is Some implies exists|
                    j: int,
                | 0 <= j < pairs.len() && (#[trigger] pairs[j]).0@ == x by {
                let w = choose|w: int| 0 <= w < es.len() && (#[trigger] es[w]).0@ == x;
                lemma_entry(es, w);
                assert(es[w].1.turn_id is Some);
            }
        }
        self.entries = work;
        interrupts
    }
}

/// Entry `w` names the thread of the pair and has its turn.
pub open spec fn pair_from(
    es: Seq<(String, AwaySummaryRequestState)>,
    w: int,
    p: (String, String),
) -> bool {
    &&& 0 <= w < es.len()
    &&& es[w].0 == p.0
    &&& es[w].1.turn_id == Some(p.1)
}

/// Some entry names the thread of the pair and has its turn.
pub open spec fn pair_in(es: Seq<(String, AwaySummaryRequestState)>, p: (String, String)) -> bool {
    exists|w: int| #[trigger] pair_from(es, w, p)
}

/// The threads whose answering turn is known, with that turn, in order.
pub open spec fn interrupt_pairs(es: Seq<(String, AwaySummaryRequestState)>) -> Seq<(String, String)>
    decreases es.len(),
{
    if es.len() == 0 {
        Seq::empty()
    } else {
        let rest = interrupt_pairs(es.drop_last());
        match es.last().1.turn_id {
            Some(t) => rest.push((es.last().0, t)),
            None => rest,
        }
    }
}

proof fn lemma_interrupt_pairs(es: Seq<(String, AwaySummaryRequestState)>)
    requires
        keys_unique(es),
    ensures
        forall|j: int|
            0 <= j < interrupt_pairs(es).len() ==> #[trigger] pair_in(es, interrupt_pairs(es)[j]),
        forall|a: int, b: int|
            0 <= a < b < interrupt_pairs(es).len() ==> (#[trigger] interrupt_pairs(es)[a]).0@ != (
            #[trigger] interrupt_pairs(es)[b]).0@,
        forall|w: int|
            0 <= w < es.len() && (#[trigger] es[w]).1.turn_id is Some ==> exists|j: int|
                0 <= j < interrupt_pairs(es).len() && (#[trigger] interrupt_pairs(es)[j]).0@
                    == es[w].0@,
    decreases es.len(),
{
    if es.len() > 0 {
        let e0 = es.drop_last();
        assert(keys_unique(e0)) by {
            assert forall|a: int, b: int| 0 <= a < b < e0.len() implies (#[trigger] e0[a]).0@ != (
            #[trigger] e0[b]).0@ by {
                assert(e0[a] == es[a] && e0[b] == es[b]);
            }
        }
        lemma_interrupt_pairs(e0);
        let r = interrupt_pairs(e0);
        let all = interrupt_pairs(es);
        let n = es.len() - 1;
        assert forall|j: int|
            0 <= j < interrupt_pairs(es).len() implies #[trigger] pair_in(es, interrupt_pairs(es)[j]) by {
            if j < r.len() {
                assert(all[j] == r[j]);
                assert(pair_in(e0, r[j]));
                let w = choose|w: int| #[trigger] pair_from(e0, w, r[j]);
                assert(e0[w] == es[w]);
                assert(pair_from(es, w, interrupt_pairs(es)[j]));
            } else {
                assert(pair_from(es, n, interrupt_pairs(es)[j]));
            }
        }
        assert forall|a: int, b: int| 0 <= a < b < all.len() implies (#[trigger] all[a]).0@ != (
        #[trigger] all[b]).0@ by {
            if b < r.len() {
                assert(all[a] == r[a] && all[b] == r[b]);
            } else {
                assert(all[a] == r[a]);
                assert(pair_in(e0, r[a]));
                let w = choose|w: int| #[trigger] pair_from(e0, w, r[a]);
                assert(e0[w] == es[w]);
                assert(es[w].0@ != es[n].0@);
            }
        }
        assert forall|w: int|
            0 <= w < es.len() && (#[trigger] es[w]).1.turn_id is Some implies exists|j: int|
            0 <= j < all.len() && (#[trigger] all[j]).0@ == es[w].0@ by {
            if w < n {
                assert(e0[w] == es[w]);
                let j = choose|j: int| 0 <= j < r.len() && (#[trigger] r[j]).0@ == e0[w].0@;
                assert(all[j] == r[j]);
            } else {
                assert(all[r.len() as int].0@ == es[w].0@);
            }
        }
    } else {
        assert(interrupt_pairs(es).len() == 0);
    }
}

proof fn lemma_cancel_entries(
    es: Seq<(String, AwaySummaryRequestState)>,
    fin: Seq<(String, AwaySummaryRequestState)>,
)
    requires
        keys_unique(es),
        fin.len() == es.len(),
        forall|j: int| 0 <= j < es.len() ==> #[trigger] fin[j] == (es[j].0, cancelled(es[j].1)),
    ensures
        keys_unique(fin),
        entries_map(fin) == entries_map(es).map_values(|s: AwaySummaryRequestState| cancelled(s)),
{
    assert forall|a: int, b: int| 0 <= a < b < fin.len() implies (#[trigger] fin[a]).0@ != (
    #[trigger] fin[b]).0@ by {
        assert(fin[a].0 == es[a].0 && fin[b].0 == es[b].0);
    }
    assert forall|x: Seq<char>| #[trigger] entries_map(fin).dom().contains(x) <==> entries_map(
        es,
    ).dom().contains(x) by {
        if has_key(fin, x) {
            let j = choose|j: int| 0 <= j < fin.len() && (#[trigger] fin[j]).0@ == x;
            assert(es[j].0 == fin[j].0);
            assert(has_key(es, x));
        }
        if has_key(es, x) {
            let j = choose|j: int| 0 <= j < es.len() && (#[trigger] es[j]).0@ == x;
            assert(fin[j].0 == es[j].0);
        }
    }
    assert forall|x: Seq<char>| #[trigger] entries_map(fin).dom().contains(x) implies entries_map(
        fin,
    )[x] == cancelled(entries_map(es)[x]) by {
        let j = choose|j: int| 0 <= j < fin.len() && (#[trigger] fin[j]).0@ == x;
        assert(es[j].0 == fin[j].0);
        lemma_entry(fin, j);
        lemma_entry(es, j);
    }
    assert(entries_map(fin) =~= entries_map(es).map_values(
        |s: AwaySummaryRequestState| cancelled(s),
    ));
}

} // verus!
