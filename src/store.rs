use vstd::prelude::*;

use crate::engine::{
    advance, advanced, ai_enqueued, ai_reply_text, fresh_message, is_candidate, is_eligible,
    lead_fields_valid, new_message, record_reply, replied, request_ai_reply, target_of,
    target_status, trimmed, validate_lead, ScanCycle,
};
use crate::models::{
    api_error, copy_lead, copy_message, AiReplyRequest, ApiError, CreateLeadRequest, ErrorKind,
    Lead, LeadWithDetails, Message, MessageStatus, OutreachLog, ReplyRequest, SendMessageRequest,
};

verus! {

/// The abstract contents of a lifecycle store.
pub struct StoreState {
    pub leads: Seq<Lead>,
    pub messages: Seq<Message>,
    pub logs: Seq<OutreachLog>,
    /// The latest time the store has acted at; it never moves backwards.
    pub clock: i64,
}

/// The steps logged for message `mid`, oldest first.
pub open spec fn steps_of(logs: Seq<OutreachLog>, mid: i64) -> Seq<MessageStatus>
    decreases logs.len(),
{
    if logs.len() == 0 {
        seq![]
    } else {
        let rest = steps_of(logs.drop_last(), mid);
        if logs.last().message_id == mid {
            rest.push(logs.last().step)
        } else {
            rest
        }
    }
}

/// How many of `steps` are `Closed`.
pub open spec fn closed_count(steps: Seq<MessageStatus>) -> nat
    decreases steps.len(),
{
    if steps.len() == 0 {
        0
    } else {
        closed_count(steps.drop_last()) + if steps.last() == MessageStatus::Closed {
            1nat
        } else {
            0nat
        }
    }
}

/// The timestamps of `m` are ordered and none lies after `clock`.
pub open spec fn timeline_ok(m: Message, clock: i64) -> bool {
    &&& m.created_at <= clock
    &&& m.sent_at is Some ==> m.created_at <= m.sent_at->0 <= clock
    &&& m.follow_up_at is Some ==> m.sent_at is Some && m.sent_at->0 <= m.follow_up_at->0
        <= clock
    &&& m.closed_at is Some ==> m.follow_up_at is Some && m.follow_up_at->0 <= m.closed_at->0
        <= clock
    &&& m.status == MessageStatus::Enqueued ==> m.sent_at is None
}

/// The invariant of every reachable store state.
pub open spec fn wf(s: StoreState) -> bool {
    &&& s.leads.len() < i64::MAX
    &&& s.messages.len() + s.logs.len() <= i64::MAX
    &&& forall|i: int| 0 <= i < s.leads.len() ==> #[trigger] s.leads[i].id == i + 1
    &&& forall|i: int|
        #![trigger s.messages[i]]
        0 <= i < s.messages.len() ==> {
            let m = s.messages[i];
            &&& m.id == i + 1
            &&& 1 <= m.leads_id <= s.leads.len()
            &&& timeline_ok(m, s.clock)
            &&& steps_of(s.logs, m.id).len() > 0
            &&& steps_of(s.logs, m.id).last() == m.status
            &&& closed_count(steps_of(s.logs, m.id)) == if m.closed_at is Some {
                1nat
            } else {
                0nat
            }
        }
    &&& forall|j: int|
        #![trigger s.logs[j]]
        0 <= j < s.logs.len() ==> {
            &&& s.logs[j].id == j + 1
            &&& 1 <= s.logs[j].message_id <= s.messages.len()
            &&& s.logs[j].log_at <= s.clock
        }
    &&& created_in_order(s.messages)
    &&& logged_in_order(s.logs)
}

/// Messages stand in the order of their creation times.
pub open spec fn created_in_order(ms: Seq<Message>) -> bool {
    forall|i: int, j: int|
        0 <= i <= j < ms.len() ==> #[trigger] ms[i].created_at <= #[trigger] ms[j].created_at
}

/// Audit entries stand in the order of their times.
pub open spec fn logged_in_order(ls: Seq<OutreachLog>) -> bool {
    forall|i: int, j: int| 0 <= i <= j < ls.len() ==> #[trigger] ls[i].log_at <= #[trigger] ls[j].log_at
}

/// Messages stand newest created first.
pub open spec fn newest_created_first(ms: Seq<Message>) -> bool {
    forall|i: int, j: int|
        0 <= i <= j < ms.len() ==> #[trigger] ms[i].created_at >= #[trigger] ms[j].created_at
}

/// Audit entries stand newest logged first.
pub open spec fn newest_logged_first(ls: Seq<OutreachLog>) -> bool {
    forall|i: int, j: int| 0 <= i <= j < ls.len() ==> #[trigger] ls[i].log_at >= #[trigger] ls[j].log_at
}

/// The time an operation requested at `now` acts at.
pub open spec fn tick(s: StoreState, now: i64) -> i64 {
    if now > s.clock {
        now
    } else {
        s.clock
    }
}

/// A scan has room for an audit entry per message.
pub open spec fn scan_room(s: StoreState) -> bool {
    s.logs.len() + 2 * s.messages.len() <= i64::MAX
}

/// `m` after cycle `c` has looked at it at time `t`.
pub open spec fn scanned(c: ScanCycle, m: Message, t: i64) -> Message {
    if is_candidate(c, m, t) {
        advanced(c, m, t)
    } else {
        m
    }
}

/// The audit entries that cycle `c` appends for `msgs` at time `t`, in
/// order, numbered from `base + 1`.
pub open spec fn scan_entries(c: ScanCycle, msgs: Seq<Message>, t: i64, base: int) -> Seq<
    OutreachLog,
>
    decreases msgs.len(),
{
    if msgs.len() == 0 {
        seq![]
    } else {
        let prev = scan_entries(c, msgs.drop_last(), t, base);
        if is_candidate(c, msgs.last(), t) {
            prev.push(
                OutreachLog {
                    id: (base + prev.len() + 1) as i64,
                    message_id: msgs.last().id,
                    log_at: t,
                    step: target_status(c),
                },
            )
        } else {
            prev
        }
    }
}

/// The state after one run of cycle `c` requested at `now`.
pub open spec fn scan_state(c: ScanCycle, s: StoreState, now: i64) -> StoreState {
    let t = tick(s, now);
    if scan_room(s) {
        StoreState {
            leads: s.leads,
            messages: s.messages.map_values(|m: Message| scanned(c, m, t)),
            logs: s.logs + scan_entries(c, s.messages, t, s.logs.len() as int),
            clock: t,
        }
    } else {
        StoreState { clock: t, ..s }
    }
}

proof fn lemma_steps_push(logs: Seq<OutreachLog>, l: OutreachLog, mid: i64)
    ensures
        steps_of(logs.push(l), mid) == if l.message_id == mid {
            steps_of(logs, mid).push(l.step)
        } else {
            steps_of(logs, mid)
        },
{
    assert(logs.push(l).drop_last() =~= logs);
}

proof fn lemma_closed_count_push(steps: Seq<MessageStatus>, st: MessageStatus)
    ensures
        closed_count(steps.push(st)) == closed_count(steps) + if st == MessageStatus::Closed {
            1nat
        } else {
            0nat
        },
{
    assert(steps.push(st).drop_last() =~= steps);
}

proof fn lemma_entries_shape(c: ScanCycle, msgs: Seq<Message>, t: i64, base: int)
    requires
        forall|j: int| 0 <= j < msgs.len() ==> #[trigger] msgs[j].id == j + 1,
    ensures
        scan_entries(c, msgs, t, base).len() <= msgs.len(),
        forall|k: int|
            #![trigger scan_entries(c, msgs, t, base)[k]]
            0 <= k < scan_entries(c, msgs, t, base).len() ==> {
                let e = scan_entries(c, msgs, t, base)[k];
                &&& e.id == (base + k + 1) as i64
                &&& 1 <= e.message_id <= msgs.len()
                &&& e.log_at == t
                &&& e.step == target_status(c)
            },
    decreases msgs.len(),
{
    if msgs.len() > 0 {
        let d = msgs.drop_last();
        assert forall|j: int| 0 <= j < d.len() implies #[trigger] d[j].id == j + 1 by {
            assert(d[j] == msgs[j]);
        }
        lemma_entries_shape(c, d, t, base);
        let prev = scan_entries(c, d, t, base);
        assert(msgs.last() == msgs[msgs.len() - 1]);
        if is_candidate(c, msgs.last(), t) {
            let e = scan_entries(c, msgs, t, base);
            assert forall|k: int| 0 <= k < prev.len() implies e[k] == #[trigger] prev[k] by {}
        }
    }
}

proof fn lemma_no_entries(c: ScanCycle, msgs: Seq<Message>, t: i64, base: int)
    requires
        forall|j: int| 0 <= j < msgs.len() ==> !is_candidate(c, #[trigger] msgs[j], t),
    ensures
        scan_entries(c, msgs, t, base) == Seq::<OutreachLog>::empty(),
    decreases msgs.len(),
{
    if msgs.len() > 0 {
        let d = msgs.drop_last();
        assert forall|j: int| 0 <= j < d.len() implies !is_candidate(c, #[trigger] d[j], t) by {
            assert(d[j] == msgs[j]);
        }
        lemma_no_entries(c, d, t, base);
        assert(msgs.last() == msgs[msgs.len() - 1]);
    }
}

/// How the steps of message `mid` change when cycle `c` appends its entries
/// for `msgs` after `logs`.
proof fn lemma_entries_steps(
    c: ScanCycle,
    msgs: Seq<Message>,
    t: i64,
    base: int,
    logs: Seq<OutreachLog>,
    mid: i64,
)
    requires
        forall|j: int| 0 <= j < msgs.len() ==> #[trigger] msgs[j].id == j + 1,
    ensures
        steps_of(logs + scan_entries(c, msgs, t, base), mid) == if 1 <= mid <= msgs.len()
            && is_candidate(c, msgs[mid - 1], t) {
            steps_of(logs, mid).push(target_status(c))
        } else {
            steps_of(logs, mid)
        },
    decreases msgs.len(),
{
    if msgs.len() == 0 {
        assert(logs + scan_entries(c, msgs, t, base) =~= logs);
    } else {
        let d = msgs.drop_last();
        assert forall|j: int| 0 <= j < d.len() implies #[trigger] d[j].id == j + 1 by {
            assert(d[j] == msgs[j]);
        }
        lemma_entries_steps(c, d, t, base, logs, mid);
        let prev = scan_entries(c, d, t, base);
        let last = msgs[msgs.len() - 1];
        assert(msgs.last() == last);
        assert(last.id == msgs.len());
        if 1 <= mid < msgs.len() {
            assert(d[mid - 1] == msgs[mid - 1]);
        }
        if is_candidate(c, last, t) {
            let e = OutreachLog {
                id: (base + prev.len() + 1) as i64,
                message_id: last.id,
                log_at: t,
                step: target_status(c),
            };
            assert(logs + scan_entries(c, msgs, t, base) =~= (logs + prev).push(e));
            lemma_steps_push(logs + prev, e, mid);
        }
    }
}

/// Every run of a scan cycle keeps the store well formed.
pub proof fn lemma_scan_wf(c: ScanCycle, s: StoreState, now: i64)
    requires
        wf(s),
    ensures
        wf(scan_state(c, s, now)),
{
    let t = tick(s, now);
    let s2 = scan_state(c, s, now);
    if scan_room(s) {
        let base = s.logs.len() as int;
        let entries = scan_entries(c, s.messages, t, base);
        assert forall|j: int| 0 <= j < s.messages.len() implies #[trigger] s.messages[j].id == j
            + 1 by {}
        lemma_entries_shape(c, s.messages, t, base);
        assert forall|i: int| 0 <= i < s2.messages.len() implies {
            let m = #[trigger] s2.messages[i];
            &&& m.id == i + 1
            &&& 1 <= m.leads_id <= s2.leads.len()
            &&& timeline_ok(m, s2.clock)
            &&& steps_of(s2.logs, m.id).len() > 0
            &&& steps_of(s2.logs, m.id).last() == m.status
            &&& closed_count(steps_of(s2.logs, m.id)) == if m.closed_at is Some {
                1nat
            } else {
                0nat
            }
        } by {
            let m0 = s.messages[i];
            assert(m0.id == i + 1);
            lemma_entries_steps(c, s.messages, t, base, s.logs, m0.id);
            lemma_closed_count_push(steps_of(s.logs, m0.id), target_status(c));
        }
        assert forall|j: int| 0 <= j < s2.logs.len() implies {
            &&& (#[trigger] s2.logs[j]).id == j + 1
            &&& 1 <= s2.logs[j].message_id <= s2.messages.len()
            &&& s2.logs[j].log_at <= s2.clock
        } by {
            if j < base {
                assert(s2.logs[j] == s.logs[j]);
            } else {
                assert(s2.logs[j] == entries[j - base]);
            }
        }
        assert forall|i: int, j: int| 0 <= i <= j < s2.messages.len() implies #[trigger] s2.messages[i].created_at
            <= #[trigger] s2.messages[j].created_at by {
            assert(s2.messages[i].created_at == s.messages[i].created_at);
            assert(s2.messages[j].created_at == s.messages[j].created_at);
        }
        assert forall|i: int, j: int| 0 <= i <= j < s2.logs.len() implies #[trigger] s2.logs[i].log_at
            <= #[trigger] s2.logs[j].log_at by {
            if j < base {
                assert(s2.logs[i] == s.logs[i]);
                assert(s2.logs[j] == s.logs[j]);
            } else if i < base {
                assert(s2.logs[i] == s.logs[i]);
                assert(s2.logs[j] == entries[j - base]);
            } else {
                assert(s2.logs[i] == entries[i - base]);
                assert(s2.logs[j] == entries[j - base]);
            }
        }
    } else {
        assert forall|i: int| 0 <= i < s2.messages.len() implies timeline_ok(
            #[trigger] s2.messages[i],
            s2.clock,
        ) by {
            assert(timeline_ok(s.messages[i], s.clock));
        }
    }
}

/// Running a scan cycle twice in immediate succession, with nothing in
/// between, leaves the same state and the same audit log as running it once.
pub proof fn lemma_scan_idempotent(c: ScanCycle, s: StoreState, now: i64)
    ensures
        scan_state(c, scan_state(c, s, now), now) == scan_state(c, s, now),
{
    let s1 = scan_state(c, s, now);
    let t = tick(s, now);
    assert(tick(s1, now) == t);
    if scan_room(s1) {
        assert forall|j: int| 0 <= j < s1.messages.len() implies !is_candidate(
            c,
            #[trigger] s1.messages[j],
            t,
        ) by {
            assert(s1.messages[j] == scanned(c, s.messages[j], t));
        }
        lemma_no_entries(c, s1.messages, t, s1.logs.len() as int);
        let s2 = scan_state(c, s1, now);
        assert(s2.messages =~= s1.messages);
        assert(s2.logs =~= s1.logs);
    }
}

/// A scan cycle appends exactly one audit entry for each message it moves,
/// naming the status entered, and none for any other message.
pub proof fn lemma_scan_logs_each_move_once(c: ScanCycle, s: StoreState, now: i64, i: int)
    requires
        wf(s),
        scan_room(s),
        0 <= i < s.messages.len(),
    ensures
        ({
            let m = s.messages[i];
            let after = scan_state(c, s, now);
            &&& is_candidate(c, m, tick(s, now)) ==> after.messages[i] != m && steps_of(
                after.logs,
                m.id,
            ) == steps_of(s.logs, m.id).push(target_status(c))
            &&& !is_candidate(c, m, tick(s, now)) ==> after.messages[i] == m && steps_of(
                after.logs,
                m.id,
            ) == steps_of(s.logs, m.id)
        }),
{
    let m = s.messages[i];
    assert forall|j: int| 0 <= j < s.messages.len() implies #[trigger] s.messages[j].id == j
        + 1 by {}
    lemma_entries_steps(c, s.messages, tick(s, now), s.logs.len() as int, s.logs, m.id);
    let after = scan_state(c, s, now);
    if is_candidate(c, m, tick(s, now)) {
        assert(after.messages[i].status != m.status || after.messages[i].follow_up_at
            != m.follow_up_at || after.messages[i].closed_at != m.closed_at);
    }
}

/// In a well-formed store, a closed message has exactly one audit entry
/// with step `Closed`, and that entry is its latest.
pub proof fn lemma_closed_logged_once(s: StoreState, i: int)
    requires
        wf(s),
        0 <= i < s.messages.len(),
        s.messages[i].status == MessageStatus::Closed,
    ensures
        closed_count(steps_of(s.logs, s.messages[i].id)) == 1,
        steps_of(s.logs, s.messages[i].id).last() == MessageStatus::Closed,
{
    let steps = steps_of(s.logs, s.messages[i].id);
    assert(closed_count(steps) >= 1);
}

/// In a well-formed store the timestamps of every message are ordered:
/// created, then sent, then followed up, then closed, as far as they are set.
pub proof fn lemma_timestamps_ordered(s: StoreState, i: int)
    requires
        wf(s),
        0 <= i < s.messages.len(),
    ensures
        ({
            let m = s.messages[i];
            &&& m.sent_at is Some ==> m.created_at <= m.sent_at->0
            &&& m.follow_up_at is Some ==> m.sent_at is Some && m.sent_at->0 <= m.follow_up_at->0
            &&& m.closed_at is Some ==> m.follow_up_at is Some && m.follow_up_at->0
                <= m.closed_at->0
        }),
{
    assert(timeline_ok(s.messages[i], s.clock));
}

/// Room for one more lead.
pub open spec fn lead_room(s: StoreState) -> bool {
    s.leads.len() + 1 < i64::MAX
}

/// Room for one more message and its first audit entry.
pub open spec fn message_room(s: StoreState) -> bool {
    s.messages.len() + s.logs.len() + 2 <= i64::MAX
}

/// Room for one more audit entry.
pub open spec fn log_room(s: StoreState) -> bool {
    s.messages.len() + s.logs.len() + 1 <= i64::MAX
}

/// Message `id` exists in `s`.
pub open spec fn has_message(s: StoreState, id: i64) -> bool {
    1 <= id <= s.messages.len()
}

/// Lead `id` exists in `s`.
pub open spec fn has_lead(s: StoreState, id: i64) -> bool {
    1 <= id <= s.leads.len()
}

/// The audit entry that the next transition of message `mid` into `step`
/// at time `t` appends.
pub open spec fn next_entry(s: StoreState, mid: i64, t: i64, step: MessageStatus) -> OutreachLog {
    OutreachLog { id: (s.logs.len() + 1) as i64, message_id: mid, log_at: t, step }
}

/// `s` after message `id` became `m` at time `t`, with its audit entry.
pub open spec fn with_transition(s: StoreState, id: i64, m: Message, t: i64) -> StoreState {
    StoreState {
        leads: s.leads,
        messages: s.messages.update(id - 1, m),
        logs: s.logs.push(next_entry(s, id, t, m.status)),
        clock: t,
    }
}

/// The messages of lead `lead_id`, the latest created first.
pub open spec fn newest_messages_of(msgs: Seq<Message>, lead_id: i64) -> Seq<Message>
    decreases msgs.len(),
{
    if msgs.len() == 0 {
        seq![]
    } else {
        let rest = newest_messages_of(msgs.drop_first(), lead_id);
        if msgs[0].leads_id == lead_id {
            rest.push(msgs[0])
        } else {
            rest
        }
    }
}

/// Message `mid` of `msgs` belongs to lead `lead_id`.
pub open spec fn belongs_to(msgs: Seq<Message>, mid: i64, lead_id: i64) -> bool {
    1 <= mid <= msgs.len() && msgs[mid - 1].leads_id == lead_id
}

/// The audit entries of the messages of lead `lead_id`, the latest first.
pub open spec fn newest_logs_of(logs: Seq<OutreachLog>, msgs: Seq<Message>, lead_id: i64) -> Seq<
    OutreachLog,
>
    decreases logs.len(),
{
    if logs.len() == 0 {
        seq![]
    } else {
        let rest = newest_logs_of(logs.drop_first(), msgs, lead_id);
        if belongs_to(msgs, logs[0].message_id, lead_id) {
            rest.push(logs[0])
        } else {
            rest
        }
    }
}

/// A single transition keeps the store well formed.
proof fn lemma_transition_wf(s: StoreState, id: i64, m: Message, t: i64)
    requires
        wf(s),
        log_room(s),
        has_message(s, id),
        t >= s.clock,
        m.id == id,
        m.leads_id == s.messages[id - 1].leads_id,
        timeline_ok(m, t),
        m.status != MessageStatus::Closed,
        m.closed_at == s.messages[id - 1].closed_at,
        m.created_at == s.messages[id - 1].created_at,
    ensures
        wf(with_transition(s, id, m, t)),
{
    let s2 = with_transition(s, id, m, t);
    let e = next_entry(s, id, t, m.status);
    assert forall|i: int| 0 <= i < s2.messages.len() implies {
        let mi = #[trigger] s2.messages[i];
        &&& mi.id == i + 1
        &&& 1 <= mi.leads_id <= s2.leads.len()
        &&& timeline_ok(mi, s2.clock)
        &&& steps_of(s2.logs, mi.id).len() > 0
        &&& steps_of(s2.logs, mi.id).last() == mi.status
        &&& closed_count(steps_of(s2.logs, mi.id)) == if mi.closed_at is Some {
            1nat
        } else {
            0nat
        }
    } by {
        let m0 = s.messages[i];
        assert(m0.id == i + 1);
        lemma_steps_push(s.logs, e, m0.id);
        lemma_closed_count_push(steps_of(s.logs, m0.id), m.status);
    }
    assert forall|j: int| 0 <= j < s2.logs.len() implies {
        &&& (#[trigger] s2.logs[j]).id == j + 1
        &&& 1 <= s2.logs[j].message_id <= s2.messages.len()
        &&& s2.logs[j].log_at <= s2.clock
    } by {
        if j < s.logs.len() {
            assert(s2.logs[j] == s.logs[j]);
        }
    }
    assert forall|i: int, j: int| 0 <= i <= j < s2.messages.len() implies #[trigger] s2.messages[i].created_at
        <= #[trigger] s2.messages[j].created_at by {
        assert(s2.messages[i].created_at == s.messages[i].created_at);
        assert(s2.messages[j].created_at == s.messages[j].created_at);
    }
    assert forall|i: int, j: int| 0 <= i <= j < s2.logs.len() implies #[trigger] s2.logs[i].log_at
        <= #[trigger] s2.logs[j].log_at by {
        if j < s.logs.len() {
            assert(s2.logs[i] == s.logs[i]);
            assert(s2.logs[j] == s.logs[j]);
        } else if i < s.logs.len() {
            assert(s2.logs[i] == s.logs[i]);
        }
    }
}

/// The store of leads, messages and their audit log.
pub struct LifecycleStore {
    leads: Vec<Lead>,
    messages: Vec<Message>,
    logs: Vec<OutreachLog>,
    clock: i64,
}

impl View for LifecycleStore {
    type V = StoreState;

    closed spec fn view(&self) -> StoreState {
        StoreState {
            leads: self.leads@,
            messages: self.messages@,
            logs: self.logs@,
            clock: self.clock,
        }
    }
}

impl LifecycleStore {
    pub open spec fn well_formed(&self) -> bool {
        wf(self@)
    }

    /// Appends the audit entry for message `message_id` entering `step` at
    /// time `t`.
    fn log_outreach(&mut self, message_id: i64, step: MessageStatus, t: i64)
        requires
            old(self)@.logs.len() < i64::MAX,
        ensures
            final(self)@ == (StoreState {
                logs: old(self)@.logs.push(next_entry(old(self)@, message_id, t, step)),
                ..old(self)@
            }),
    {
        let id = self.logs.len() as i64 + 1;
        self.logs.push(OutreachLog { id, message_id, log_at: t, step });
    }

    /// An empty store.
    pub fn new() -> (r: Self)
        ensures
            r.well_formed(),
            r@.leads.len() == 0,
            r@.messages.len() == 0,
            r@.logs.len() == 0,
            r@.clock == i64::MIN,
    {
        LifecycleStore { leads: Vec::new(), messages: Vec::new(), logs: Vec::new(), clock: i64::MIN }
    }

    /// Runs cycle `c` once at time `now`: every candidate is moved and logged.
    pub fn run_scan(&mut self, c: ScanCycle, now: i64)
        requires
            old(self).well_formed(),
        ensures
            final(self)@ == scan_state(c, old(self)@, now),
            final(self).well_formed(),
    {
        let ghost s = self@;
        let t = if now > self.clock {
            now
        } else {
            self.clock
        };
        self.clock = t;
        let n = self.messages.len();
        proof {
            lemma_scan_wf(c, s, now);
        }
        if (self.logs.len() as u128) + 2 * (n as u128) > (i64::MAX as u128) {
            assert(self@ == scan_state(c, s, now));
            return;
        }
        let ghost base = s.logs.len() as int;
        let mut i: usize = 0;
        while i < n
            invariant
                0 <= i <= n,
                n == s.messages.len(),
                wf(s),
                scan_room(s),
                base == s.logs.len(),
                t == tick(s, now),
                self.clock == t,
                self.leads@ == s.leads,
                self.messages@.len() == n,
                forall|j: int| 0 <= j < i ==> self.messages@[j] == scanned(c, s.messages[j], t),
                forall|j: int| i <= j < n ==> self.messages@[j] == s.messages[j],
                self.logs@ == s.logs + scan_entries(c, s.messages.take(i as int), t, base),
            decreases n - i,
        {
            let ghost pre = s.messages.take(i as int);
            proof {
                assert forall|j: int| 0 <= j < pre.len() implies #[trigger] pre[j].id == j
                    + 1 by {
                    assert(pre[j] == s.messages[j]);
                }
                lemma_entries_shape(c, pre, t, base);
                assert(s.messages.take(i + 1).drop_last() =~= pre);
                assert(s.messages.take(i + 1).last() == s.messages[i as int]);
            }
            if is_eligible(c, &self.messages[i], t) {
                let id = self.messages[i].id;
                advance(c, &mut self.messages[i], t);
                self.log_outreach(id, target_of(c), t);
            }
            i += 1;
        }
        proof {
            assert(s.messages.take(n as int) =~= s.messages);
            assert(self.messages@ =~= scan_state(c, s, now).messages);
        }
    }

    /// Moves every enqueued message to `Sent` at time `now`.
    pub fn process_enqueued_messages(&mut self, now: i64)
        requires
            old(self).well_formed(),
        ensures
            final(self)@ == scan_state(ScanCycle::Send, old(self)@, now),
            final(self).well_formed(),
    {
        self.run_scan(ScanCycle::Send, now)
    }

    /// Moves every message with an enqueued generated reply to `AiReplied`.
    pub fn process_ai_enqueued_messages(&mut self, now: i64)
        requires
            old(self).well_formed(),
        ensures
            final(self)@ == scan_state(ScanCycle::AiReply, old(self)@, now),
            final(self).well_formed(),
    {
        self.run_scan(ScanCycle::AiReply, now)
    }

    /// Moves every sent, unanswered message quiet for over a day to `FollowUp`.
    pub fn process_follow_up_messages(&mut self, now: i64)
        requires
            old(self).well_formed(),
        ensures
            final(self)@ == scan_state(ScanCycle::FollowUp, old(self)@, now),
            final(self).well_formed(),
    {
        self.run_scan(ScanCycle::FollowUp, now)
    }

    /// Closes every followed-up, unanswered message quiet for over a day.
    pub fn process_closed_messages(&mut self, now: i64)
        requires
            old(self).well_formed(),
        ensures
            final(self)@ == scan_state(ScanCycle::Close, old(self)@, now),
            final(self).well_formed(),
    {
        self.run_scan(ScanCycle::Close, now)
    }

    /// Creates a lead after checking its fields.
    pub fn create_lead(&mut self, req: CreateLeadRequest) -> (r: Result<Lead, ApiError>)
        requires
            old(self).well_formed(),
        ensures
            final(self).well_formed(),
            r is Ok <==> lead_fields_valid(trimmed(req.name@), req.email, req.phone) && lead_room(
                old(self)@,
            ),
            r matches Err(e) ==> final(self)@ == old(self)@ && e.kind == if lead_fields_valid(
                trimmed(req.name@),
                req.email,
                req.phone,
            ) {
                ErrorKind::Storage
            } else {
                ErrorKind::Validation
            },
            r matches Ok(l) ==> l == (Lead {
                id: (old(self)@.leads.len() + 1) as i64,
                name: req.name,
                email: req.email,
                phone: req.phone,
            }) && final(self)@ == (StoreState { leads: old(self)@.leads.push(l), ..old(self)@ }),
    {
        match validate_lead(&req) {
            Err(e) => {
                return Err(e);
            },
            Ok(()) => {},
        }
        if self.leads.len() as u128 + 1 >= i64::MAX as u128 {
            return Err(api_error(ErrorKind::Storage, "Failed to create lead"));
        }
        let lead = Lead {
            id: self.leads.len() as i64 + 1,
            name: req.name,
            email: req.email,
            phone: req.phone,
        };
        let out = copy_lead(&lead);
        self.leads.push(lead);
        proof {
            let s = self@;
            assert forall|i: int| 0 <= i < s.leads.len() implies #[trigger] s.leads[i].id == i
                + 1 by {
                if i < old(self)@.leads.len() {
                    assert(s.leads[i] == old(self)@.leads[i]);
                }
            }
        }
        Ok(out)
    }

    /// Creates a message for lead `req.lead_id`, enqueued at time `now`.
    pub fn send_message(&mut self, req: SendMessageRequest, now: i64) -> (r: Result<
        Message,
        ApiError,
    >)
        requires
            old(self).well_formed(),
        ensures
            final(self).well_formed(),
            r is Ok <==> has_lead(old(self)@, req.lead_id) && message_room(old(self)@),
            r matches Err(e) ==> final(self)@ == old(self)@ && e.kind == if has_lead(
                old(self)@,
                req.lead_id,
            ) {
                ErrorKind::Storage
            } else {
                ErrorKind::NotFound
            },
            r matches Ok(m) ==> {
                let s = old(self)@;
                let t = tick(s, now);
                &&& m == fresh_message((s.messages.len() + 1) as i64, req.lead_id, req.message, t)
                &&& final(self)@ == (StoreState {
                    leads: s.leads,
                    messages: s.messages.push(m),
                    logs: s.logs.push(next_entry(s, m.id, t, MessageStatus::Enqueued)),
                    clock: t,
                })
            },
    {
        if !(1 <= req.lead_id && (req.lead_id as i128) <= (self.leads.len() as i128)) {
            return Err(api_error(ErrorKind::NotFound, "Lead not found"));
        }
        if (self.messages.len() as u128) + (self.logs.len() as u128) + 2 > (i64::MAX as u128) {
            return Err(api_error(ErrorKind::Storage, "Failed to create message"));
        }
        let ghost s = self@;
        let t = if now > self.clock {
            now
        } else {
            self.clock
        };
        let id = self.messages.len() as i64 + 1;
        let m = new_message(id, req.lead_id, req.message, t);
        let out = copy_message(&m);
        self.messages.push(m);
        self.log_outreach(id, MessageStatus::Enqueued, t);
        self.clock = t;
        proof {
            let s2 = self@;
            let e = next_entry(s, id, t, MessageStatus::Enqueued);
            assert(s2.logs == s.logs.push(e));
            assert forall|i: int| 0 <= i < s2.messages.len() implies {
                let mi = #[trigger] s2.messages[i];
                &&& mi.id == i + 1
                &&& 1 <= mi.leads_id <= s2.leads.len()
                &&& timeline_ok(mi, s2.clock)
                &&& steps_of(s2.logs, mi.id).len() > 0
                &&& steps_of(s2.logs, mi.id).last() == mi.status
                &&& closed_count(steps_of(s2.logs, mi.id)) == if mi.closed_at is Some {
                    1nat
                } else {
                    0nat
                }
            } by {
                if i < s.messages.len() {
                    assert(s2.messages[i] == s.messages[i]);
                    lemma_steps_push(s.logs, e, s.messages[i].id);
                } else {
                    lemma_steps_push(s.logs, e, id);
                    assert forall|j: int| 0 <= j < s.logs.len() implies #[trigger] s.logs[j].message_id != id by {}
                    lemma_no_steps(s.logs, id);
                    lemma_closed_count_push(Seq::<MessageStatus>::empty(), MessageStatus::Enqueued);
                    assert(Seq::<MessageStatus>::empty().push(MessageStatus::Enqueued).drop_last() =~= Seq::<MessageStatus>::empty());
                }
            }
            assert forall|j: int| 0 <= j < s2.logs.len() implies {
                &&& (#[trigger] s2.logs[j]).id == j + 1
                &&& 1 <= s2.logs[j].message_id <= s2.messages.len()
                &&& s2.logs[j].log_at <= s2.clock
            } by {
                if j < s.logs.len() {
                    assert(s2.logs[j] == s.logs[j]);
                }
            }
            assert forall|i: int, j: int| 0 <= i <= j < s2.messages.len() implies #[trigger] s2.messages[i].created_at
                <= #[trigger] s2.messages[j].created_at by {
                if j < s.messages.len() {
                    assert(s2.messages[i] == s.messages[i]);
                    assert(s2.messages[j] == s.messages[j]);
                } else if i < s.messages.len() {
                    assert(s2.messages[i] == s.messages[i]);
                    assert(timeline_ok(s.messages[i], s.clock));
                }
            }
            assert forall|i: int, j: int| 0 <= i <= j < s2.logs.len() implies #[trigger] s2.logs[i].log_at
                <= #[trigger] s2.logs[j].log_at by {
                if j < s.logs.len() {
                    assert(s2.logs[i] == s.logs[i]);
                    assert(s2.logs[j] == s.logs[j]);
                } else if i < s.logs.len() {
                    assert(s2.logs[i] == s.logs[i]);
                }
            }
        }
        Ok(out)
    }

    /// Records the reply `req.reply` on message `req.message_id` at time
    /// `now`, whatever its status.
    pub fn reply_to_message(&mut self, req: ReplyRequest, now: i64) -> (r: Result<
        Message,
        ApiError,
    >)
        requires
            old(self).well_formed(),
        ensures
            final(self).well_formed(),
            r is Ok <==> has_message(old(self)@, req.message_id) && log_room(old(self)@),
            r matches Err(e) ==> final(self)@ == old(self)@ && e.kind == if has_message(
                old(self)@,
                req.message_id,
            ) {
                ErrorKind::Storage
            } else {
                ErrorKind::NotFound
            },
            r matches Ok(m) ==> {
                let s = old(self)@;
                let t = tick(s, now);
                &&& m == replied(s.messages[req.message_id - 1], req.reply, t)
                &&& final(self)@ == with_transition(s, req.message_id, m, t)
            },
    {
        let id = req.message_id;
        if !(1 <= id && (id as i128) <= (self.messages.len() as i128)) {
            return Err(api_error(ErrorKind::NotFound, "Message not found"));
        }
        if (self.messages.len() as u128) + (self.logs.len() as u128) + 1 > (i64::MAX as u128) {
            return Err(api_error(ErrorKind::Storage, "Failed to update message"));
        }
        let ghost s = self@;
        let t = if now > self.clock {
            now
        } else {
            self.clock
        };
        let idx = (id - 1) as usize;
        proof {
            assert(s.messages[idx as int].id == id);
            assert(timeline_ok(s.messages[idx as int], s.clock));
        }
        record_reply(&mut self.messages[idx], req.reply, t);
        let out = copy_message(&self.messages[idx]);
        self.log_outreach(id, MessageStatus::Replied, t);
        self.clock = t;
        proof {
            lemma_transition_wf(s, id, out, t);
            assert(self@.messages =~= s.messages.update(id - 1, out));
        }
        Ok(out)
    }

    /// Enqueues the generated reply on message `req.message_id` at time
    /// `now`, whatever its status.
    pub fn ai_reply(&mut self, req: AiReplyRequest, now: i64) -> (r: Result<Message, ApiError>)
        requires
            old(self).well_formed(),
        ensures
            final(self).well_formed(),
            r is Ok <==> has_message(old(self)@, req.message_id) && log_room(old(self)@),
            r matches Err(e) ==> final(self)@ == old(self)@ && e.kind == if has_message(
                old(self)@,
                req.message_id,
            ) {
                ErrorKind::Storage
            } else {
                ErrorKind::NotFound
            },
            r matches Ok(m) ==> {
                let s = old(self)@;
                let t = tick(s, now);
                &&& m.ai_reply matches Some(text) && text@ == ai_reply_text()
                &&& m == ai_enqueued(s.messages[req.message_id - 1], m.ai_reply->0)
                &&& final(self)@ == with_transition(s, req.message_id, m, t)
            },
    {
        let id = req.message_id;
        if !(1 <= id && (id as i128) <= (self.messages.len() as i128)) {
            return Err(api_error(ErrorKind::NotFound, "Message not found"));
        }
        if (self.messages.len() as u128) + (self.logs.len() as u128) + 1 > (i64::MAX as u128) {
            return Err(api_error(ErrorKind::Storage, "Failed to update message"));
        }
        let ghost s = self@;
        let t = if now > self.clock {
            now
        } else {
            self.clock
        };
        let idx = (id - 1) as usize;
        proof {
            assert(s.messages[idx as int].id == id);
            assert(timeline_ok(s.messages[idx as int], s.clock));
        }
        request_ai_reply(&mut self.messages[idx]);
        let out = copy_message(&self.messages[idx]);
        self.log_outreach(id, MessageStatus::AiEnqueued, t);
        self.clock = t;
        proof {
            lemma_transition_wf(s, id, out, t);
            assert(self@.messages =~= s.messages.update(id - 1, out));
        }
        Ok(out)
    }

    /// Lead `lead_id` with its messages, the latest created first, and their
    /// audit entries, the latest logged first.
    pub fn get_lead(&self, lead_id: i64) -> (r: Result<LeadWithDetails, ApiError>)
        requires
            self.well_formed(),
        ensures
            r is Ok <==> has_lead(self@, lead_id),
            r matches Err(e) ==> e.kind == ErrorKind::NotFound,
            r matches Ok(d) ==> {
                &&& d.lead == self@.leads[lead_id - 1]
                &&& d.messages@ == newest_messages_of(self@.messages, lead_id)
                &&& d.outreach_logs@ == newest_logs_of(self@.logs, self@.messages, lead_id)
                &&& newest_created_first(d.messages@)
                &&& newest_logged_first(d.outreach_logs@)
            },
    {
        if !(1 <= lead_id && (lead_id as i128) <= (self.leads.len() as i128)) {
            return Err(api_error(ErrorKind::NotFound, "Lead not found"));
        }
        let lead = copy_lead(&self.leads[(lead_id - 1) as usize]);
        let msgs = &self.messages;
        let n = msgs.len();
        let mut messages: Vec<Message> = Vec::new();
        let mut i: usize = n;
        while i > 0
            invariant
                i <= n,
                n == msgs@.len(),
                messages@ == newest_messages_of(msgs@.subrange(i as int, n as int), lead_id),
            decreases i,
        {
            i -= 1;
            proof {
                assert(msgs@.subrange(i as int, n as int).drop_first() =~= msgs@.subrange(
                    i + 1,
                    n as int,
                ));
            }
            if msgs[i].leads_id == lead_id {
                messages.push(copy_message(&msgs[i]));
            }
        }
        proof {
            assert(msgs@.subrange(0, n as int) =~= msgs@);
        }
        let logs = &self.logs;
        let k = logs.len();
        let mut outreach_logs: Vec<OutreachLog> = Vec::new();
        let mut j: usize = k;
        while j > 0
            invariant
                j <= k,
                k == logs@.len(),
                n == msgs@.len(),
                outreach_logs@ == newest_logs_of(logs@.subrange(j as int, k as int), msgs@, lead_id),
            decreases j,
        {
            j -= 1;
            proof {
                assert(logs@.subrange(j as int, k as int).drop_first() =~= logs@.subrange(
                    j + 1,
                    k as int,
                ));
            }
            let mid = logs[j].message_id;
            if 1 <= mid && (mid as i128) <= (n as i128) && msgs[(mid - 1) as usize].leads_id
                == lead_id {
                outreach_logs.push(logs[j]);
            }
        }
        proof {
            assert(logs@.subrange(0, k as int) =~= logs@);
            lemma_newest_messages_sorted(msgs@, lead_id);
            lemma_newest_logs_sorted(logs@, msgs@, lead_id);
        }
        Ok(LeadWithDetails { lead, messages, outreach_logs })
    }
}

/// A message that no entry of `logs` names has no steps.
proof fn lemma_no_steps(logs: Seq<OutreachLog>, mid: i64)
    requires
        forall|j: int| 0 <= j < logs.len() ==> #[trigger] logs[j].message_id != mid,
    ensures
        steps_of(logs, mid) == Seq::<MessageStatus>::empty(),
    decreases logs.len(),
{
    if logs.len() > 0 {
        let d = logs.drop_last();
        assert forall|j: int| 0 <= j < d.len() implies #[trigger] d[j].message_id != mid by {
            assert(d[j] == logs[j]);
        }
        lemma_no_steps(d, mid);
        assert(logs.last() == logs[logs.len() - 1]);
    }
}

/// Listing the messages of a lead from a store kept in creation order
/// gives them newest created first.
pub proof fn lemma_newest_messages_sorted(ms: Seq<Message>, lead_id: i64)
    requires
        created_in_order(ms),
    ensures
        newest_created_first(newest_messages_of(ms, lead_id)),
        ms.len() > 0 ==> forall|k: int|
            0 <= k < newest_messages_of(ms, lead_id).len() ==> #[trigger] newest_messages_of(
                ms,
                lead_id,
            )[k].created_at >= ms[0].created_at,
    decreases ms.len(),
{
    if ms.len() > 0 {
        let d = ms.drop_first();
        assert forall|i: int, j: int| 0 <= i <= j < d.len() implies #[trigger] d[i].created_at
            <= #[trigger] d[j].created_at by {
            assert(d[i] == ms[i + 1]);
            assert(d[j] == ms[j + 1]);
        }
        lemma_newest_messages_sorted(d, lead_id);
        let rest = newest_messages_of(d, lead_id);
        if d.len() > 0 {
            assert(d[0] == ms[1]);
        }
        assert(d.len() == 0 ==> rest.len() == 0);
    }
}

/// Listing the audit entries of a lead from a log kept in time order gives
/// them newest logged first.
pub proof fn lemma_newest_logs_sorted(ls: Seq<OutreachLog>, ms: Seq<Message>, lead_id: i64)
    requires
        logged_in_order(ls),
    ensures
        newest_logged_first(newest_logs_of(ls, ms, lead_id)),
        ls.len() > 0 ==> forall|k: int|
            0 <= k < newest_logs_of(ls, ms, lead_id).len() ==> #[trigger] newest_logs_of(
                ls,
                ms,
                lead_id,
            )[k].log_at >= ls[0].log_at,
    decreases ls.len(),
{
    if ls.len() > 0 {
        let d = ls.drop_first();
        assert forall|i: int, j: int| 0 <= i <= j < d.len() implies #[trigger] d[i].log_at
            <= #[trigger] d[j].log_at by {
            assert(d[i] == ls[i + 1]);
            assert(d[j] == ls[j + 1]);
        }
        lemma_newest_logs_sorted(d, ms, lead_id);
        let rest = newest_logs_of(d, ms, lead_id);
        if d.len() > 0 {
            assert(d[0] == ls[1]);
        }
        assert(d.len() == 0 ==> rest.len() == 0);
    }
}

} // verus!
