use vstd::prelude::*;

use crate::models::{api_error, ApiError, CreateLeadRequest, ErrorKind, Message, MessageStatus};

verus! {

/// The quiet period, in seconds, after which a message is escalated.
pub const ESCALATION_SECONDS: i64 = 86400;

/// The text enqueued as the generated reply.
pub open spec fn ai_reply_text() -> Seq<char> {
    "Thank you for your interest! Our team will follow up shortly."@
}

/// One of the four clock-driven transitions.
#[derive(Debug, Clone, Copy, PartialEq, Eq, Structural)]
pub enum ScanCycle {
    /// Enqueued to Sent.
    Send,
    /// AiEnqueued to AiReplied.
    AiReply,
    /// Sent to FollowUp, after a quiet period.
    FollowUp,
    /// FollowUp to Closed, after a quiet period.
    Close,
}

/// `stamp` lies more than the quiet period before `now`.
pub open spec fn overdue(stamp: i64, now: i64) -> bool {
    stamp < now - ESCALATION_SECONDS
}

/// No reply has been recorded on `m`.
pub open spec fn unanswered(m: Message) -> bool {
    m.reply_received is None && m.reply_received_at is None
}

/// `m` is a candidate of cycle `c` at time `now`.
pub open spec fn is_candidate(c: ScanCycle, m: Message, now: i64) -> bool {
    match c {
        ScanCycle::Send => m.status == MessageStatus::Enqueued,
        ScanCycle::AiReply => m.status == MessageStatus::AiEnqueued,
        ScanCycle::FollowUp => {
            &&& m.sent_at matches Some(s) && overdue(s, now)
            &&& unanswered(m)
            &&& m.follow_up_at is None
            &&& m.closed_at is None
        },
        ScanCycle::Close => {
            &&& m.follow_up_at matches Some(f) && overdue(f, now)
            &&& unanswered(m)
            &&& m.closed_at is None
        },
    }
}

/// The status a message enters through cycle `c`.
pub open spec fn target_status(c: ScanCycle) -> MessageStatus {
    match c {
        ScanCycle::Send => MessageStatus::Sent,
        ScanCycle::AiReply => MessageStatus::AiReplied,
        ScanCycle::FollowUp => MessageStatus::FollowUp,
        ScanCycle::Close => MessageStatus::Closed,
    }
}

/// `m` after cycle `c` has moved it at time `now`.
pub open spec fn advanced(c: ScanCycle, m: Message, now: i64) -> Message {
    match c {
        ScanCycle::Send => Message { status: MessageStatus::Sent, sent_at: Some(now), ..m },
        ScanCycle::AiReply => Message {
            status: MessageStatus::AiReplied,
            ai_reply_sent: Some(now),
            ..m
        },
        ScanCycle::FollowUp => Message {
            status: MessageStatus::FollowUp,
            follow_up_at: Some(now),
            ..m
        },
        ScanCycle::Close => Message { status: MessageStatus::Closed, closed_at: Some(now), ..m },
    }
}

/// `m` after a human reply `reply` was recorded at `now`.
pub open spec fn replied(m: Message, reply: String, now: i64) -> Message {
    Message {
        reply_received: Some(reply),
        reply_received_at: Some(now),
        status: MessageStatus::Replied,
        ..m
    }
}

/// `m` after a generated reply `text` was enqueued.
pub open spec fn ai_enqueued(m: Message, text: String) -> Message {
    Message { ai_reply: Some(text), status: MessageStatus::AiEnqueued, ..m }
}

/// A new message, as it stands when created.
pub open spec fn fresh_message(id: i64, lead_id: i64, text: String, now: i64) -> Message {
    Message {
        id,
        leads_id: lead_id,
        message_sent: Some(text),
        sent_at: None,
        reply_received: None,
        reply_received_at: None,
        ai_reply: None,
        ai_reply_sent: None,
        created_at: now,
        status: MessageStatus::Enqueued,
        follow_up_at: None,
        closed_at: None,
    }
}

fn is_overdue(stamp: i64, now: i64) -> (r: bool)
    ensures
        r == overdue(stamp, now),
{
    (stamp as i128) < (now as i128) - (ESCALATION_SECONDS as i128)
}

/// Decides whether `m` is a candidate of cycle `c` at time `now`.
pub fn is_eligible(c: ScanCycle, m: &Message, now: i64) -> (r: bool)
    ensures
        r == is_candidate(c, *m, now),
{
    match c {
        ScanCycle::Send => m.status == MessageStatus::Enqueued,
        ScanCycle::AiReply => m.status == MessageStatus::AiEnqueued,
        ScanCycle::FollowUp => {
            let sent_overdue = match m.sent_at {
                Some(s) => is_overdue(s, now),
                None => false,
            };
            sent_overdue && m.reply_received.is_none() && m.reply_received_at.is_none()
                && m.follow_up_at.is_none() && m.closed_at.is_none()
        },
        ScanCycle::Close => {
            let follow_up_overdue = match m.follow_up_at {
                Some(f) => is_overdue(f, now),
                None => false,
            };
            follow_up_overdue && m.reply_received.is_none() && m.reply_received_at.is_none()
                && m.closed_at.is_none()
        },
    }
}

/// The status a message enters through cycle `c`.
pub fn target_of(c: ScanCycle) -> (r: MessageStatus)
    ensures
        r == target_status(c),
{
    match c {
        ScanCycle::Send => MessageStatus::Sent,
        ScanCycle::AiReply => MessageStatus::AiReplied,
        ScanCycle::FollowUp => MessageStatus::FollowUp,
        ScanCycle::Close => MessageStatus::Closed,
    }
}

/// Applies the field changes of cycle `c` to `m` at time `now`.
pub fn advance(c: ScanCycle, m: &mut Message, now: i64)
    ensures
        *final(m) == advanced(c, *old(m), now),
{
    match c {
        ScanCycle::Send => {
            m.status = MessageStatus::Sent;
            m.sent_at = Some(now);
        },
        ScanCycle::AiReply => {
            m.status = MessageStatus::AiReplied;
            m.ai_reply_sent = Some(now);
        },
        ScanCycle::FollowUp => {
            m.status = MessageStatus::FollowUp;
            m.follow_up_at = Some(now);
        },
        ScanCycle::Close => {
            m.status = MessageStatus::Closed;
            m.closed_at = Some(now);
        },
    }
}

/// Records the human reply `reply` on `m` at time `now`.
pub fn record_reply(m: &mut Message, reply: String, now: i64)
    ensures
        *final(m) == replied(*old(m), reply, now),
{
    m.reply_received = Some(reply);
    m.reply_received_at = Some(now);
    m.status = MessageStatus::Replied;
}

/// Enqueues the generated reply on `m`.
pub fn request_ai_reply(m: &mut Message)
    ensures
        final(m).ai_reply matches Some(t) && t@ == ai_reply_text(),
        *final(m) == ai_enqueued(*old(m), final(m).ai_reply->0),
{
    m.ai_reply = Some("Thank you for your interest! Our team will follow up shortly.".to_owned());
    m.status = MessageStatus::AiEnqueued;
}

/// A new message for lead `lead_id` holding `text`, created at `now`.
pub fn new_message(id: i64, lead_id: i64, text: String, now: i64) -> (r: Message)
    ensures
        r == fresh_message(id, lead_id, text, now),
{
    Message {
        id,
        leads_id: lead_id,
        message_sent: Some(text),
        sent_at: None,
        reply_received: None,
        reply_received_at: None,
        ai_reply: None,
        ai_reply_sent: None,
        created_at: now,
        status: MessageStatus::Enqueued,
        follow_up_at: None,
        closed_at: None,
    }
}

/// What `str::trim` returns for a string.
pub uninterp spec fn trimmed(s: Seq<char>) -> Seq<char>;

/// Relies on `str::trim`: the result depends on the characters alone, and an
/// empty string stays empty.
#[verifier::external_body]
fn trim_text(s: &str) -> (r: &str)
    ensures
        r@ == trimmed(s@),
        s@.len() == 0 ==> r@.len() == 0,
{
    s.trim()
}

/// A lead request is acceptable when its trimmed name is non-empty and it
/// carries an email or a phone.
pub open spec fn lead_fields_valid(
    trimmed_name: Seq<char>,
    email: Option<String>,
    phone: Option<String>,
) -> bool {
    trimmed_name.len() > 0 && (email is Some || phone is Some)
}

/// Checks a lead request whose name has already been trimmed.
pub fn check_lead_fields(trimmed_name: &str, email: &Option<String>, phone: &Option<String>) -> (r:
    Result<(), ApiError>)
    ensures
        r is Ok <==> lead_fields_valid(trimmed_name@, *email, *phone),
        r matches Err(e) ==> e.kind == ErrorKind::Validation,
{
    if trimmed_name.is_empty() {
        return Err(api_error(ErrorKind::Validation, "Name is required"));
    }
    if email.is_none() && phone.is_none() {
        return Err(api_error(ErrorKind::Validation, "At least one of email or phone is required"));
    }
    Ok(())
}

/// Checks a lead request before anything is stored.
pub fn validate_lead(req: &CreateLeadRequest) -> (r: Result<(), ApiError>)
    ensures
        r is Ok <==> lead_fields_valid(trimmed(req.name@), req.email, req.phone),
        r matches Err(e) ==> e.kind == ErrorKind::Validation,
{
    let name = trim_text(req.name.as_str());
    check_lead_fields(name, &req.email, &req.phone)
}

} // verus!
