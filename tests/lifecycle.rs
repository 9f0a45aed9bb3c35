use sales_app::engine::{check_lead_fields, is_eligible, validate_lead, ScanCycle};
use sales_app::models::{
    AiReplyRequest, CreateLeadRequest, ErrorKind, MessageStatus, OutreachLog, ReplyRequest,
    SendMessageRequest,
};
use sales_app::store::LifecycleStore;

const T0: i64 = 1_700_000_000;
const HOUR: i64 = 3600;

fn jane() -> CreateLeadRequest {
    CreateLeadRequest {
        name: "Jane".to_string(),
        email: Some("j@x.com".to_string()),
        phone: None,
    }
}

fn store_with_message(at: i64) -> (LifecycleStore, i64, i64) {
    let mut store = LifecycleStore::new();
    let lead = store.create_lead(jane()).unwrap();
    let msg = store
        .send_message(
            SendMessageRequest {
                lead_id: lead.id,
                message: "Hi".to_string(),
            },
            at,
        )
        .unwrap();
    (store, lead.id, msg.id)
}

fn steps(logs: &[OutreachLog], message_id: i64) -> Vec<MessageStatus> {
    logs.iter()
        .filter(|l| l.message_id == message_id)
        .map(|l| l.step)
        .collect()
}

#[test]
fn created_message_is_sent_by_a_tick() {
    let (mut store, lead_id, msg_id) = store_with_message(T0);
    let detail = store.get_lead(lead_id).unwrap();
    assert_eq!(detail.messages.len(), 1);
    assert_eq!(detail.messages[0].status, MessageStatus::Enqueued);
    assert_eq!(detail.messages[0].message_sent.as_deref(), Some("Hi"));
    assert_eq!(steps(&detail.outreach_logs, msg_id), vec![MessageStatus::Enqueued]);

    store.process_enqueued_messages(T0 + 60);
    let detail = store.get_lead(lead_id).unwrap();
    let m = &detail.messages[0];
    assert_eq!(m.status, MessageStatus::Sent);
    assert_eq!(m.sent_at, Some(T0 + 60));
    let sent: Vec<_> = detail
        .outreach_logs
        .iter()
        .filter(|l| l.step == MessageStatus::Sent)
        .collect();
    assert_eq!(sent.len(), 1);
    assert_eq!(sent[0].log_at, T0 + 60);
    assert_eq!(MessageStatus::Sent.as_str(), "sent");
}

#[test]
fn sent_message_is_followed_up_after_a_quiet_day() {
    let (mut store, lead_id, msg_id) = store_with_message(T0);
    store.process_enqueued_messages(T0);
    let now = T0 + 25 * HOUR;
    store.process_follow_up_messages(now);
    let detail = store.get_lead(lead_id).unwrap();
    assert_eq!(detail.messages[0].status, MessageStatus::FollowUp);
    assert_eq!(detail.messages[0].follow_up_at, Some(now));
    assert_eq!(
        steps(&detail.outreach_logs, msg_id),
        vec![MessageStatus::FollowUp, MessageStatus::Sent, MessageStatus::Enqueued]
    );

    store.process_follow_up_messages(now);
    let again = store.get_lead(lead_id).unwrap();
    assert_eq!(again.messages[0].status, MessageStatus::FollowUp);
    assert_eq!(again.messages[0].follow_up_at, Some(now));
    assert_eq!(again.outreach_logs.len(), detail.outreach_logs.len());
}

#[test]
fn followed_up_message_closes_then_accepts_reply() {
    let (mut store, lead_id, msg_id) = store_with_message(T0);
    store.process_enqueued_messages(T0);
    store.process_follow_up_messages(T0 + 25 * HOUR);
    let now = T0 + 50 * HOUR + 1;
    store.process_closed_messages(now);
    let detail = store.get_lead(lead_id).unwrap();
    assert_eq!(detail.messages[0].status, MessageStatus::Closed);
    assert_eq!(detail.messages[0].closed_at, Some(now));
    assert_eq!(detail.outreach_logs[0].step, MessageStatus::Closed);
    assert_eq!(steps(&detail.outreach_logs, msg_id).len(), 4);

    let replied = store
        .reply_to_message(
            ReplyRequest {
                message_id: msg_id,
                reply: "Sorry for the delay".to_string(),
            },
            now + 10,
        )
        .unwrap();
    assert_eq!(replied.status, MessageStatus::Replied);
    assert_eq!(replied.reply_received.as_deref(), Some("Sorry for the delay"));
    assert_eq!(replied.reply_received_at, Some(now + 10));
    assert_eq!(replied.closed_at, Some(now));
}

#[test]
fn lead_without_contact_is_rejected() {
    let mut store = LifecycleStore::new();
    let req = CreateLeadRequest {
        name: "Jane".to_string(),
        email: None,
        phone: None,
    };
    let err = store.create_lead(req).unwrap_err();
    assert_eq!(err.kind, ErrorKind::Validation);
    assert_eq!(store.get_lead(1).unwrap_err().kind, ErrorKind::NotFound);
}

#[test]
fn ai_reply_on_unknown_message_is_not_found() {
    let (mut store, lead_id, _) = store_with_message(T0);
    let before = store.get_lead(lead_id).unwrap();
    let err = store.ai_reply(AiReplyRequest { message_id: 99 }, T0 + 5).unwrap_err();
    assert_eq!(err.kind, ErrorKind::NotFound);
    let after = store.get_lead(lead_id).unwrap();
    assert_eq!(after.outreach_logs.len(), before.outreach_logs.len());
    assert_eq!(after.messages[0].status, before.messages[0].status);
    assert_eq!(after.messages[0].ai_reply, None);
}

#[test]
fn labels_round_trip_and_are_distinct() {
    let all = [
        MessageStatus::Enqueued,
        MessageStatus::Sent,
        MessageStatus::Replied,
        MessageStatus::AiEnqueued,
        MessageStatus::AiReplied,
        MessageStatus::FollowUp,
        MessageStatus::Closed,
    ];
    let labels: Vec<&str> = all.iter().map(|s| s.as_str()).collect();
    assert_eq!(
        labels,
        vec!["enqueued", "sent", "replied", "ai_enqueued", "ai_replied", "follow_up", "closed"]
    );
    for s in all {
        assert_eq!(MessageStatus::from_label(s.as_str()), Some(s));
    }
    assert_eq!(MessageStatus::from_label("pending"), None);
    assert_eq!(MessageStatus::from_label(""), None);
    assert_eq!(MessageStatus::from_label("Closed"), None);
}

#[test]
fn repeated_scans_log_nothing_twice() {
    let (mut store, lead_id, msg_id) = store_with_message(T0);
    store.process_enqueued_messages(T0 + 1);
    store.process_enqueued_messages(T0 + 1);
    store.process_enqueued_messages(T0 + 2);
    let detail = store.get_lead(lead_id).unwrap();
    assert_eq!(
        steps(&detail.outreach_logs, msg_id),
        vec![MessageStatus::Sent, MessageStatus::Enqueued]
    );
    assert_eq!(detail.messages[0].sent_at, Some(T0 + 1));
}

#[test]
fn closed_message_has_one_closed_entry_latest() {
    let (mut store, lead_id, msg_id) = store_with_message(T0);
    store.process_enqueued_messages(T0);
    store.process_follow_up_messages(T0 + 25 * HOUR);
    store.process_closed_messages(T0 + 50 * HOUR);
    store.process_closed_messages(T0 + 80 * HOUR);
    store.process_follow_up_messages(T0 + 80 * HOUR);
    let detail = store.get_lead(lead_id).unwrap();
    let s = steps(&detail.outreach_logs, msg_id);
    assert_eq!(s.iter().filter(|x| **x == MessageStatus::Closed).count(), 1);
    assert_eq!(s[0], MessageStatus::Closed);
    assert_eq!(detail.messages[0].closed_at, Some(T0 + 50 * HOUR));
}

#[test]
fn timestamps_are_ordered_even_with_an_early_clock() {
    let (mut store, lead_id, _) = store_with_message(T0);
    store.process_enqueued_messages(T0 - 500);
    store.process_follow_up_messages(T0 + 30 * HOUR);
    store.process_closed_messages(T0 + 60 * HOUR);
    let m = &store.get_lead(lead_id).unwrap().messages[0];
    let sent = m.sent_at.unwrap();
    let follow = m.follow_up_at.unwrap();
    let closed = m.closed_at.unwrap();
    assert!(m.created_at <= sent && sent <= follow && follow <= closed);
    assert_eq!(sent, T0);
}

#[test]
fn follow_up_waits_for_more_than_a_day() {
    let (mut store, lead_id, _) = store_with_message(T0);
    store.process_enqueued_messages(T0);
    store.process_follow_up_messages(T0 + 24 * HOUR);
    let m = &store.get_lead(lead_id).unwrap().messages[0];
    assert_eq!(m.status, MessageStatus::Sent);
    assert_eq!(m.follow_up_at, None);
    store.process_follow_up_messages(T0 + 24 * HOUR + 1);
    let m = &store.get_lead(lead_id).unwrap().messages[0];
    assert_eq!(m.status, MessageStatus::FollowUp);
}

#[test]
fn reply_blocks_escalation() {
    let (mut store, lead_id, msg_id) = store_with_message(T0);
    store.process_enqueued_messages(T0);
    store
        .reply_to_message(
            ReplyRequest {
                message_id: msg_id,
                reply: "Interested".to_string(),
            },
            T0 + HOUR,
        )
        .unwrap();
    store.process_follow_up_messages(T0 + 48 * HOUR);
    store.process_closed_messages(T0 + 96 * HOUR);
    let m = &store.get_lead(lead_id).unwrap().messages[0];
    assert_eq!(m.status, MessageStatus::Replied);
    assert_eq!(m.follow_up_at, None);
    assert_eq!(m.closed_at, None);
}

#[test]
fn ai_reply_is_enqueued_then_sent_by_scan() {
    let (mut store, lead_id, msg_id) = store_with_message(T0);
    let m = store.ai_reply(AiReplyRequest { message_id: msg_id }, T0 + 5).unwrap();
    assert_eq!(m.status, MessageStatus::AiEnqueued);
    assert_eq!(
        m.ai_reply.as_deref(),
        Some("Thank you for your interest! Our team will follow up shortly.")
    );
    assert_eq!(m.ai_reply_sent, None);
    store.process_ai_enqueued_messages(T0 + 60);
    let detail = store.get_lead(lead_id).unwrap();
    assert_eq!(detail.messages[0].status, MessageStatus::AiReplied);
    assert_eq!(detail.messages[0].ai_reply_sent, Some(T0 + 60));
    assert_eq!(detail.outreach_logs[0].step, MessageStatus::AiReplied);
    assert_eq!(detail.outreach_logs[1].step, MessageStatus::AiEnqueued);
}

#[test]
fn unknown_ids_are_not_found() {
    let (mut store, _, _) = store_with_message(T0);
    let err = store
        .send_message(
            SendMessageRequest {
                lead_id: 7,
                message: "Hello".to_string(),
            },
            T0,
        )
        .unwrap_err();
    assert_eq!(err.kind, ErrorKind::NotFound);
    let err = store
        .reply_to_message(
            ReplyRequest {
                message_id: 0,
                reply: "x".to_string(),
            },
            T0,
        )
        .unwrap_err();
    assert_eq!(err.kind, ErrorKind::NotFound);
    assert_eq!(store.get_lead(-1).unwrap_err().kind, ErrorKind::NotFound);
}

#[test]
fn blank_name_is_rejected_after_trimming() {
    let req = CreateLeadRequest {
        name: "   ".to_string(),
        email: Some("a@b.c".to_string()),
        phone: None,
    };
    assert_eq!(validate_lead(&req).unwrap_err().kind, ErrorKind::Validation);
    let ok = CreateLeadRequest {
        name: "  Bo ".to_string(),
        email: None,
        phone: Some("555".to_string()),
    };
    assert!(validate_lead(&ok).is_ok());
    assert!(check_lead_fields("Bo", &None, &Some("555".to_string())).is_ok());
    assert_eq!(
        check_lead_fields("", &Some("a@b.c".to_string()), &None).unwrap_err().error,
        "Name is required"
    );
    assert_eq!(
        check_lead_fields("Bo", &None, &None).unwrap_err().error,
        "At least one of email or phone is required"
    );
}

#[test]
fn lead_details_list_newest_first() {
    let mut store = LifecycleStore::new();
    let a = store.create_lead(jane()).unwrap();
    let b = store
        .create_lead(CreateLeadRequest {
            name: "Bob".to_string(),
            email: None,
            phone: Some("555-0100".to_string()),
        })
        .unwrap();
    assert_eq!((a.id, b.id), (1, 2));
    let first = store
        .send_message(SendMessageRequest { lead_id: a.id, message: "one".to_string() }, T0)
        .unwrap();
    store
        .send_message(SendMessageRequest { lead_id: b.id, message: "other".to_string() }, T0 + 1)
        .unwrap();
    let second = store
        .send_message(SendMessageRequest { lead_id: a.id, message: "two".to_string() }, T0 + 2)
        .unwrap();
    let detail = store.get_lead(a.id).unwrap();
    assert_eq!(detail.lead.name, "Jane");
    let ids: Vec<i64> = detail.messages.iter().map(|m| m.id).collect();
    assert_eq!(ids, vec![second.id, first.id]);
    let logged: Vec<i64> = detail.outreach_logs.iter().map(|l| l.message_id).collect();
    assert_eq!(logged, vec![second.id, first.id]);
    assert!(detail.outreach_logs[0].log_at >= detail.outreach_logs[1].log_at);
}

#[test]
fn engine_candidates_follow_the_null_guards() {
    let (store, lead_id, _) = store_with_message(T0);
    let mut m = store.get_lead(lead_id).unwrap().messages.remove(0);
    assert!(is_eligible(ScanCycle::Send, &m, T0));
    assert!(!is_eligible(ScanCycle::FollowUp, &m, T0 + 48 * HOUR));
    m.sent_at = Some(T0);
    m.status = MessageStatus::Sent;
    assert!(is_eligible(ScanCycle::FollowUp, &m, T0 + 48 * HOUR));
    m.reply_received_at = Some(T0 + 1);
    assert!(!is_eligible(ScanCycle::FollowUp, &m, T0 + 48 * HOUR));
}
