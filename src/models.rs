use vstd::prelude::*;

verus! {

/// The lifecycle state of an outreach message.
#[derive(Debug, Clone, Copy, PartialEq, Eq, Structural)]
pub enum MessageStatus {
    Enqueued,
    Sent,
    Replied,
    AiEnqueued,
    AiReplied,
    FollowUp,
    Closed,
}

/// The label under which a status is stored and logged.
pub open spec fn status_label(s: MessageStatus) -> Seq<char> {
    match s {
        MessageStatus::Enqueued => "enqueued"@,
        MessageStatus::Sent => "sent"@,
        MessageStatus::Replied => "replied"@,
        MessageStatus::AiEnqueued => "ai_enqueued"@,
        MessageStatus::AiReplied => "ai_replied"@,
        MessageStatus::FollowUp => "follow_up"@,
        MessageStatus::Closed => "closed"@,
    }
}

impl MessageStatus {
    pub fn as_str(&self) -> (r: &'static str)
        ensures
            r@ == status_label(*self),
    {
        match self {
            MessageStatus::Enqueued => "enqueued",
            MessageStatus::Sent => "sent",
            MessageStatus::Replied => "replied",
            MessageStatus::AiEnqueued => "ai_enqueued",
            MessageStatus::AiReplied => "ai_replied",
            MessageStatus::FollowUp => "follow_up",
            MessageStatus::Closed => "closed",
        }
    }
}

/// Two statuses share a stored label only when they are the same status, so
/// a label read back from storage names exactly one of the seven states.
pub proof fn lemma_status_labels_distinct(a: MessageStatus, b: MessageStatus)
    ensures
        status_label(a) == status_label(b) ==> a == b,
{
    reveal_strlit("enqueued");
    reveal_strlit("sent");
    reveal_strlit("replied");
    reveal_strlit("ai_enqueued");
    reveal_strlit("ai_replied");
    reveal_strlit("follow_up");
    reveal_strlit("closed");
    if status_label(a) == status_label(b) {
        assert(status_label(a).len() == status_label(b).len());
    }
}

/// Whether two strings hold the same characters.
fn same_text(a: &str, b: &str) -> (r: bool)
    ensures
        r == (a@ == b@),
{
    let n = a.unicode_len();
    if n != b.unicode_len() {
        return false;
    }
    let mut i: usize = 0;
    while i < n
        invariant
            n == a@.len(),
            n == b@.len(),
            i <= n,
            forall|j: int| 0 <= j < i ==> a@[j] == b@[j],
        decreases n - i,
    {
        if a.get_char(i) != b.get_char(i) {
            return false;
        }
        i += 1;
    }
    proof {
        assert(a@ =~= b@);
    }
    true
}

impl MessageStatus {
    /// The status stored under `label`, if any.
    pub fn from_label(label: &str) -> (r: Option<MessageStatus>)
        ensures
            r matches Some(st) ==> status_label(st) == label@,
            r is None ==> forall|st: MessageStatus| status_label(st) != label@,
    {
        let all = [
            MessageStatus::Enqueued,
            MessageStatus::Sent,
            MessageStatus::Replied,
            MessageStatus::AiEnqueued,
            MessageStatus::AiReplied,
            MessageStatus::FollowUp,
            MessageStatus::Closed,
        ];
        let mut i: usize = 0;
        while i < 7
            invariant
                i <= 7,
                all@ == seq![
                    MessageStatus::Enqueued,
                    MessageStatus::Sent,
                    MessageStatus::Replied,
                    MessageStatus::AiEnqueued,
                    MessageStatus::AiReplied,
                    MessageStatus::FollowUp,
                    MessageStatus::Closed,
                ],
                forall|j: int| 0 <= j < i ==> status_label(all@[j]) != label@,
            decreases 7 - i,
        {
            if same_text(all[i].as_str(), label) {
                return Some(all[i]);
            }
            i += 1;
        }
        proof {
            assert forall|st: MessageStatus| status_label(st) != label@ by {
                match st {
                    MessageStatus::Enqueued => assert(all@[0] == st),
                    MessageStatus::Sent => assert(all@[1] == st),
                    MessageStatus::Replied => assert(all@[2] == st),
                    MessageStatus::AiEnqueued => assert(all@[3] == st),
                    MessageStatus::AiReplied => assert(all@[4] == st),
                    MessageStatus::FollowUp => assert(all@[5] == st),
                    MessageStatus::Closed => assert(all@[6] == st),
                }
            }
        }
        None
    }
}

/// A contact targeted by outreach.
#[derive(Debug, Clone)]
pub struct Lead {
    pub id: i64,
    pub name: String,
    pub email: Option<String>,
    pub phone: Option<String>,
}

/// The fields a caller supplies to create a lead.
#[derive(Debug, Clone)]
pub struct CreateLeadRequest {
    pub name: String,
    pub email: Option<String>,
    pub phone: Option<String>,
}

/// One outreach attempt for one lead. Timestamps are Unix seconds.
#[derive(Debug, Clone)]
pub struct Message {
    pub id: i64,
    pub leads_id: i64,
    pub message_sent: Option<String>,
    pub sent_at: Option<i64>,
    pub reply_received: Option<String>,
    pub reply_received_at: Option<i64>,
    pub ai_reply: Option<String>,
    pub ai_reply_sent: Option<i64>,
    pub created_at: i64,
    pub status: MessageStatus,
    pub follow_up_at: Option<i64>,
    pub closed_at: Option<i64>,
}

/// A request to enqueue a message for a lead.
#[derive(Debug, Clone)]
pub struct SendMessageRequest {
    pub lead_id: i64,
    pub message: String,
}

/// A request to record a human reply to a message.
#[derive(Debug, Clone)]
pub struct ReplyRequest {
    pub message_id: i64,
    pub reply: String,
}

/// A request to enqueue a generated reply to a message.
#[derive(Debug, Clone)]
pub struct AiReplyRequest {
    pub message_id: i64,
}

/// One immutable audit entry: a message entered the status `step` at `log_at`.
#[derive(Debug, Clone, Copy)]
pub struct OutreachLog {
    pub id: i64,
    pub message_id: i64,
    pub log_at: i64,
    pub step: MessageStatus,
}

/// A lead with its messages (newest created first) and their audit
/// entries (newest logged first).
#[derive(Debug, Clone)]
pub struct LeadWithDetails {
    pub lead: Lead,
    pub messages: Vec<Message>,
    pub outreach_logs: Vec<OutreachLog>,
}

/// The class of a failed request.
#[derive(Debug, Clone, Copy, PartialEq, Eq, Structural)]
pub enum ErrorKind {
    NotFound,
    Validation,
    Storage,
}

/// An error surfaced to a caller.
#[derive(Debug, Clone)]
pub struct ApiError {
    pub kind: ErrorKind,
    pub error: String,
}

pub fn api_error(kind: ErrorKind, message: &str) -> (r: ApiError)
    ensures
        r.kind == kind,
        r.error@ == message@,
{
    ApiError { kind, error: message.to_owned() }
}

/// A copy of an optional text.
pub fn copy_text(o: &Option<String>) -> (r: Option<String>)
    ensures
        r == *o,
{
    match o {
        Some(t) => Some(t.clone()),
        None => None,
    }
}

/// A copy of a lead.
pub fn copy_lead(l: &Lead) -> (r: Lead)
    ensures
        r == *l,
{
    Lead { id: l.id, name: l.name.clone(), email: copy_text(&l.email), phone: copy_text(&l.phone) }
}

/// A copy of a message.
pub fn copy_message(m: &Message) -> (r: Message)
    ensures
        r == *m,
{
    Message {
        id: m.id,
        leads_id: m.leads_id,
        message_sent: copy_text(&m.message_sent),
        sent_at: m.sent_at,
        reply_received: copy_text(&m.reply_received),
        reply_received_at: m.reply_received_at,
        ai_reply: copy_text(&m.ai_reply),
        ai_reply_sent: m.ai_reply_sent,
        created_at: m.created_at,
        status: m.status,
        follow_up_at: m.follow_up_at,
        closed_at: m.closed_at,
    }
}

} // verus!
