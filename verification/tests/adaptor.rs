//! Classification of payloads and the run of a scheduled request.

use outbound::adaptor::{
    effective_metadata, retry_after_scope, OutboundHint, OutboundOverrides, OutboundRequestError,
    RequestAction, RequestEvent, RequestOutcome, ScheduledRequest,
};
use outbound::classify::{
    canonical_username, scope_of_recipient, ChatDirectory, ChatId, ChatIdentity, PayloadScope,
    Recipient, TargetMessage, UserId,
};
use outbound::payload::hint::{
    Field, FieldValue, Payload, PayloadHint, CLASS_CHAT_ACTION, CLASS_MESSAGE_MUTATION,
    CLASS_MESSAGE_SEND, CLASS_READ,
};
use outbound::time::Duration;
use outbound::types::{
    NonZeroU32, OutboundAcquireError, OutboundChatKey, OutboundClass, OutboundCompletion,
    OutboundLaneKey, OutboundMetadata, OutboundPriority, OutboundScope, WindowChatKind,
};

fn payload(method: &str, fields: Vec<(&str, FieldValue)>) -> Payload {
    Payload {
        method: method.to_string(),
        fields: fields
            .into_iter()
            .map(|(name, value)| Field { name: name.to_string(), value })
            .collect(),
    }
}

fn hint(method: &str, fields: Vec<(&str, FieldValue)>) -> PayloadHint {
    payload(method, fields).outbound_hint().unwrap()
}

fn chat(id: i64) -> FieldValue {
    FieldValue::Recipient(Recipient::Id(ChatId { value: id }))
}

fn user(id: u64) -> FieldValue {
    FieldValue::UserId(UserId { value: id })
}

fn username(name: &str) -> Recipient {
    Recipient::ChannelUsername(name.to_string())
}

#[test]
fn retry_after_scope_policy_follows_the_request_scope() {
    let chat = OutboundMetadata {
        scope: OutboundScope::Chat(OutboundChatKey::new(9)),
        class: OutboundClass::new(CLASS_MESSAGE_SEND),
        priority: OutboundPriority::normal(),
        weight: NonZeroU32::new(1).unwrap(),
    };
    let error = RequestOutcome::RetryAfter(Duration::from_secs(3));
    assert_eq!(retry_after_scope(&chat, &error), OutboundScope::Chat(OutboundChatKey::new(9)));

    let global = OutboundMetadata { scope: OutboundScope::Global, ..chat };
    assert_eq!(retry_after_scope(&global, &error), OutboundScope::Global);
}

#[test]
fn channel_usernames_get_distinct_chat_scopes() {
    let foo = scope_of_recipient(&username("foo"));
    let bar = scope_of_recipient(&username("bar"));
    let foo_again = scope_of_recipient(&username("foo"));
    let numeric = scope_of_recipient(&Recipient::Id(ChatId { value: 7 }));

    assert_eq!(foo, foo_again, "the same username is the same identity");
    assert_ne!(foo, bar, "different usernames must not share a scope");
    assert_ne!(foo, numeric, "a username and a numeric chat id are different identities");
    assert_eq!(foo, PayloadScope::username("foo"));

    // neither case nor the leading `@` makes a new identity
    let upper = scope_of_recipient(&username("@FOO"));
    assert_eq!(upper, foo, "usernames are case-insensitive");
}

#[test]
fn batch_payload_weights_scale_with_the_batch_length() {
    // send_media_group: one unit per media
    let fields = vec![("chat_id", chat(1)), ("media", FieldValue::List(3))];
    assert_eq!(hint("send_media_group", fields).weight, NonZeroU32::new(3).unwrap());

    // forward_messages: one unit per message
    let batch = |len: usize| {
        vec![
            ("chat_id", chat(1)),
            ("from_chat_id", chat(2)),
            ("message_ids", FieldValue::List(len)),
        ]
    };
    assert_eq!(hint("forward_messages", batch(4)).weight, NonZeroU32::new(4).unwrap());

    // copy_messages: the same
    assert_eq!(hint("copy_messages", batch(5)).weight, NonZeroU32::new(5).unwrap());

    // an empty batch still weighs one unit
    assert_eq!(hint("forward_messages", batch(0)).weight, NonZeroU32::new(1).unwrap());
}

#[test]
fn global_read_payload_is_classified_global() {
    let hint = hint("get_me", vec![]);
    assert_eq!(hint.scope, PayloadScope::Global);
    assert_eq!(hint.class, OutboundClass::new(CLASS_READ));
    assert_eq!(hint.priority, OutboundPriority::normal());
    assert_eq!(hint.weight, NonZeroU32::new(1).unwrap());
}

#[test]
fn message_mutation_payload_is_classified_chat_scoped() {
    let hint = hint("edit_message_text", vec![("chat_id", chat(9))]);
    assert_eq!(hint.scope, PayloadScope::id(9));
    assert_eq!(hint.class, OutboundClass::new(CLASS_MESSAGE_MUTATION));
    assert_eq!(hint.priority, OutboundPriority::normal());
}

#[test]
fn optional_chat_id_falls_back_to_global() {
    let without = vec![("chat_id", FieldValue::OptionalChatId(None))];
    assert_eq!(hint("get_chat_menu_button", without).scope, PayloadScope::Global);
    let with = vec![("chat_id", FieldValue::OptionalChatId(Some(ChatId { value: 5 })))];
    assert_eq!(hint("get_chat_menu_button", with).scope, PayloadScope::id(5));
}

#[test]
fn custom_scope_rules_classify_special_payloads() {
    // drafts are addressed to the owner of the draft (a user id)
    let draft = hint("send_message_draft", vec![("chat_id", user(11))]);
    assert_eq!(draft.scope, PayloadScope::id(11));

    // transfer_gift follows new_owner_chat_id
    let gift = hint(
        "transfer_gift",
        vec![("new_owner_chat_id", FieldValue::ChatId(ChatId { value: 22 }))],
    );
    assert_eq!(gift.scope, PayloadScope::id(22));

    // repost_story acts for a business account: the source chat must not be
    // penalized, so its scope is global
    let story =
        hint("repost_story", vec![("from_chat_id", FieldValue::ChatId(ChatId { value: 33 }))]);
    assert_eq!(story.scope, PayloadScope::Global);
}

#[test]
fn inline_mutations_are_global() {
    assert_eq!(hint("edit_message_text_inline", vec![]).scope, PayloadScope::Global);
    assert_eq!(hint("edit_message_caption_inline", vec![]).scope, PayloadScope::Global);
}

#[test]
fn game_score_scopes_follow_the_target_message() {
    // an inline game score has no chat identity
    let inline = hint("set_game_score_inline", vec![("user_id", user(7))]);
    assert_eq!(inline.scope, PayloadScope::Global);

    // an ordinary set_game_score addresses the chat of its message
    let score = hint(
        "set_game_score",
        vec![("user_id", user(7)), ("chat_id", FieldValue::Number(42))],
    );
    assert_eq!(score.scope, PayloadScope::id(42));

    // get_game_high_scores: a common target is a chat, an inline one global
    let common = TargetMessage::Common {
        chat_id: Recipient::Id(ChatId { value: 43 }),
        message_id: 2,
    };
    let scores = hint(
        "get_game_high_scores",
        vec![("user_id", user(7)), ("target", FieldValue::Target(common))],
    );
    assert_eq!(scores.scope, PayloadScope::id(43));
    let inline = TargetMessage::Inline { inline_message_id: "im".to_string() };
    let scores = hint(
        "get_game_high_scores",
        vec![("user_id", user(7)), ("target", FieldValue::Target(inline))],
    );
    assert_eq!(scores.scope, PayloadScope::Global);
}

#[test]
fn chat_actions_are_background_work() {
    let hint = hint("send_chat_action", vec![("chat_id", chat(4))]);
    assert_eq!(hint.scope, PayloadScope::id(4));
    assert_eq!(hint.class, OutboundClass::new(CLASS_CHAT_ACTION));
    assert_eq!(hint.priority, OutboundPriority::background());
}

#[test]
fn a_payload_without_its_fields_has_no_hint() {
    assert_eq!(payload("send_message", vec![]).outbound_hint(), None);
    assert_eq!(payload("no_such_method", vec![("chat_id", chat(1))]).outbound_hint(), None);
    // the field is there, but holds something else
    assert_eq!(payload("send_message", vec![("chat_id", user(1))]).outbound_hint(), None);
}

#[test]
fn canonical_usernames_drop_one_at_sign_and_lower_ascii() {
    assert_eq!(canonical_username("@RustLang"), "rustlang");
    assert_eq!(canonical_username("RUST_2024"), "rust_2024");
    assert_eq!(canonical_username("@@x"), "@x");
    assert_eq!(canonical_username("\u{c9}A"), "\u{c9}a");
    assert_eq!(canonical_username("@"), "");
    assert_eq!(canonical_username(""), "");
}

#[test]
fn the_directory_keeps_one_key_per_chat() {
    let mut directory = ChatDirectory::new();
    let first = directory.key_of(&ChatIdentity::Id(-100));
    let second = directory.key_of(&ChatIdentity::Username("foo".to_string()));
    assert_ne!(first, second);
    assert_eq!(directory.key_of(&ChatIdentity::Id(-100)), first);
    assert_eq!(
        directory.scope_of(&scope_of_recipient(&username("@Foo"))),
        OutboundScope::Chat(second)
    );
    assert_eq!(directory.scope_of(&PayloadScope::Global), OutboundScope::Global);
    assert_eq!(directory.known.len(), 2);
}

#[test]
fn a_chat_key_says_the_kind_of_the_chat() {
    let mut directory = ChatDirectory::new();
    let mut kind = |identity: ChatIdentity| directory.key_of(&identity).kind();
    assert_eq!(kind(ChatIdentity::Id(123)), WindowChatKind::NonChannel);
    assert_eq!(kind(ChatIdentity::Id(-100)), WindowChatKind::NonChannel);
    assert_eq!(kind(ChatIdentity::Id(-999_999_999_999)), WindowChatKind::NonChannel);
    assert_eq!(kind(ChatIdentity::Id(-1_000_000_000_000)), WindowChatKind::ChannelOrSupergroup);
    assert_eq!(kind(ChatIdentity::Id(-1001234567890)), WindowChatKind::ChannelOrSupergroup);
    assert_eq!(
        kind(ChatIdentity::Username("foo".to_string())),
        WindowChatKind::ChannelOrSupergroup
    );
}

#[test]
fn overrides_replace_what_they_name() {
    let hint = OutboundHint {
        scope: OutboundScope::Chat(OutboundChatKey::new(1)),
        class: OutboundClass::new(CLASS_MESSAGE_SEND),
        priority: OutboundPriority::normal(),
        weight: NonZeroU32::new(3).unwrap(),
    };
    let kept = effective_metadata(hint, OutboundOverrides::default());
    assert_eq!(kept.weight, NonZeroU32::new(3).unwrap());
    assert_eq!(kept.priority, OutboundPriority::normal());
    let overrides = OutboundOverrides {
        class: Some(OutboundClass::new(77)),
        priority: Some(OutboundPriority::critical()),
        weight: Some(NonZeroU32::new(5).unwrap()),
    };
    let changed = effective_metadata(hint, overrides);
    assert_eq!(changed.scope, OutboundScope::Chat(OutboundChatKey::new(1)));
    assert_eq!(changed.class, OutboundClass::new(77));
    assert_eq!(changed.priority, OutboundPriority::critical());
    assert_eq!(changed.weight, NonZeroU32::new(5).unwrap());
}

#[test]
fn a_scheduled_request_carries_its_overrides_and_its_lane() {
    let request = ScheduledRequest::new(payload("send_message", vec![("chat_id", chat(1))]))
        .on_lane(OutboundLaneKey { value: 3 })
        .priority(OutboundPriority::critical())
        .weight(NonZeroU32::new(2).unwrap())
        .class(OutboundClass::new(9));
    let metadata = request.metadata().unwrap();
    assert_eq!(metadata.scope, PayloadScope::id(1));
    assert_eq!(metadata.priority, OutboundPriority::critical());
    assert_eq!(metadata.weight, NonZeroU32::new(2).unwrap());
    assert_eq!(metadata.class, OutboundClass::new(9));
    assert_eq!(request.lane, Some(OutboundLaneKey { value: 3 }));

    let plain = request.with_outbound_overrides(OutboundOverrides::default());
    assert_eq!(plain.metadata().unwrap().priority, OutboundPriority::normal());
    assert_eq!(plain.into_inner().method, "send_message");
}

#[test]
fn changing_the_payload_changes_the_scope_that_is_sent() {
    let mut directory = ChatDirectory::new();
    let mut request = ScheduledRequest::new(payload("send_message", vec![("chat_id", chat(1))]));
    let (first, _) = request.send(&mut directory).unwrap();
    request.request.fields[0].value = chat(2);
    let (second, _) = request.send(&mut directory).unwrap();
    assert_ne!(first.metadata.scope, second.metadata.scope);
    request.request.fields[0].value = chat(1);
    let (third, _) = request.send(&mut directory).unwrap();
    assert_eq!(first.metadata.scope, third.metadata.scope);
}

#[test]
fn the_inner_request_runs_after_the_grant_and_once() {
    let mut directory = ChatDirectory::new();
    let request = ScheduledRequest::new(payload("send_message", vec![("chat_id", chat(1))]));
    let (mut run, action) = request.send(&mut directory).unwrap();
    let scope = OutboundScope::Chat(OutboundChatKey::new(0));
    assert_eq!(action, RequestAction::Acquire { metadata: run.metadata, lane: None });
    assert_eq!(run.metadata.scope, scope);
    // an execution before the grant is not taken in
    assert_eq!(run.step(RequestEvent::Executed(RequestOutcome::Success)), None);
    assert_eq!(run.step(RequestEvent::Acquired(Ok(()))), Some(RequestAction::Execute));
    assert_eq!(run.step(RequestEvent::Acquired(Ok(()))), None);
    assert_eq!(
        run.step(RequestEvent::Executed(RequestOutcome::RetryAfter(Duration::from_secs(2)))),
        Some(RequestAction::Complete(OutboundCompletion::RetryAfter {
            scope,
            duration: Duration::from_secs(2),
        }))
    );
}

#[test]
fn outcomes_are_completed_as_they_ended() {
    let complete = |outcome: RequestOutcome| {
        let mut directory = ChatDirectory::new();
        let request = ScheduledRequest::new(payload("get_me", vec![]));
        let (mut run, _) = request.send(&mut directory).unwrap();
        run.step(RequestEvent::Acquired(Ok(())));
        run.step(RequestEvent::Executed(outcome))
    };
    assert_eq!(
        complete(RequestOutcome::Success),
        Some(RequestAction::Complete(OutboundCompletion::Success))
    );
    assert_eq!(
        complete(RequestOutcome::Failed),
        Some(RequestAction::Complete(OutboundCompletion::Failed))
    );
}

#[test]
fn request_errors_have_texts_and_pass_retry_after_on() {
    let inner: OutboundRequestError<u8> = OutboundRequestError::Inner(4);
    let refused: OutboundRequestError<u8> =
        OutboundRequestError::Acquire(OutboundAcquireError::Closed);
    assert_eq!(inner.message("boom"), "the scheduled request failed: boom");
    assert_eq!(refused.message("closed"), "the outbound queue rejected the request: closed");
    let asked = Some(Duration::from_secs(1));
    assert_eq!(inner.retry_after(asked), asked);
    assert_eq!(refused.retry_after(asked), None);
}
