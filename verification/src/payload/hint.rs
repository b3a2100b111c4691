//! The classification of a payload at hand.

use super::policy::{MethodPolicy, ScopePolicy, WeightPolicy};
use super::table;
use crate::classify;
use crate::classify::{
    ChatId, IdentityView, PayloadScope, Recipient, ScopeView, TargetMessage, UserId,
};
use crate::text::same_text;
use crate::types::{NonZeroU32, OutboundClass, OutboundPriority};
use vstd::prelude::*;
use vstd::string::*;

verus! {

/// Read-only queries.
pub const CLASS_READ: u64 = 1;

/// Ordinary message sends.
pub const CLASS_MESSAGE_SEND: u64 = 2;

/// Edits of existing messages.
pub const CLASS_MESSAGE_MUTATION: u64 = 3;

/// Ephemeral typing indicators.
pub const CLASS_CHAT_ACTION: u64 = 4;

/// Everything else (admin, stickers, payments, business accounts, ...).
pub const CLASS_OTHER: u64 = 5;

/// The value of a payload field, as far as a classification reads it.
#[derive(Clone, Debug, PartialEq, Eq)]
pub enum FieldValue {
    Recipient(Recipient),
    ChatId(ChatId),
    OptionalChatId(Option<ChatId>),
    UserId(UserId),
    Target(TargetMessage),
    Number(u32),
    /// A list of this many items.
    List(usize),
}

/// A named payload field.
#[derive(Clone, Debug, PartialEq, Eq)]
pub struct Field {
    pub name: String,
    pub value: FieldValue,
}

/// A payload: the method it calls and the fields a classification may read.
#[derive(Clone, Debug, PartialEq, Eq)]
pub struct Payload {
    pub method: String,
    pub fields: Vec<Field>,
}

/// Classification of a payload.
#[derive(Clone, Debug, PartialEq, Eq)]
pub struct PayloadHint {
    pub scope: PayloadScope,
    pub class: OutboundClass,
    pub priority: OutboundPriority,
    pub weight: NonZeroU32,
}

/// What a classification says.
pub struct HintView {
    pub scope: ScopeView,
    pub class: u64,
    pub priority: u8,
    pub weight: u32,
}

impl PayloadHint {
    pub open spec fn view(&self) -> HintView {
        HintView {
            scope: self.scope@,
            class: self.class.value,
            priority: self.priority.value,
            weight: self.weight@,
        }
    }
}

/// The position of a field, or the number of fields.
pub open spec fn position(fields: Seq<Field>, name: Seq<char>) -> nat
    decreases fields.len(),
{
    if fields.len() == 0 || fields[0].name@ == name {
        0
    } else {
        1 + position(fields.drop_first(), name)
    }
}

/// The value of a field.
pub open spec fn field(fields: Seq<Field>, name: Seq<char>) -> Option<FieldValue> {
    if position(fields, name) < fields.len() {
        Some(fields[position(fields, name) as int].value)
    } else {
        None
    }
}

/// The scope of a numeric id.
pub open spec fn id_scope(id: i64) -> ScopeView {
    ScopeView::Chat(IdentityView::Id(id))
}

/// The scope a payload has under a policy, or `None` if it lacks the field
/// the policy reads.
pub open spec fn scope_under(policy: ScopePolicy, fields: Seq<Field>) -> Option<ScopeView> {
    match policy {
        ScopePolicy::Global => Some(ScopeView::Global),
        ScopePolicy::RecipientField(name) => match field(fields, name@) {
            Some(FieldValue::Recipient(recipient)) => Some(classify::recipient_scope(recipient)),
            _ => None,
        },
        ScopePolicy::ChatIdField(name) => match field(fields, name@) {
            Some(FieldValue::ChatId(chat_id)) => Some(id_scope(chat_id.value)),
            _ => None,
        },
        ScopePolicy::OptionalChatIdField(name) => match field(fields, name@) {
            Some(FieldValue::OptionalChatId(Some(chat_id))) => Some(id_scope(chat_id.value)),
            Some(FieldValue::OptionalChatId(None)) => Some(ScopeView::Global),
            _ => None,
        },
        ScopePolicy::UserIdField(name) => match field(fields, name@) {
            Some(FieldValue::UserId(user_id)) => Some(id_scope(user_id.value as i64)),
            _ => None,
        },
        ScopePolicy::Custom(function, name) => match field(fields, name@) {
            Some(FieldValue::UserId(owner)) => if function@ == "draft_chat_id_scope"@ {
                Some(id_scope(owner.value as i64))
            } else {
                None
            },
            Some(FieldValue::Target(target)) => if function@ == "target_message_scope"@ {
                Some(classify::target_scope(target))
            } else {
                None
            },
            Some(FieldValue::ChatId(owner)) => if function@ == "new_owner_chat_id_scope"@ {
                Some(id_scope(owner.value))
            } else {
                None
            },
            _ => None,
        },
        ScopePolicy::CustomValue(function, name) => match field(fields, name@) {
            Some(FieldValue::Number(chat_id)) => if function@ == "game_chat_id_scope"@ {
                Some(id_scope(chat_id as i64))
            } else {
                None
            },
            _ => None,
        },
    }
}

/// The weight a payload has under a policy: an empty batch still consumes
/// one unit.
pub open spec fn weight_under(policy: WeightPolicy, fields: Seq<Field>) -> Option<u32> {
    match policy {
        WeightPolicy::One => Some(1),
        WeightPolicy::Len(name) => match field(fields, name@) {
            Some(FieldValue::List(len)) => if (len as u32) == 0 {
                Some(1)
            } else {
                Some(len as u32)
            },
            _ => None,
        },
    }
}

/// The number of a request class.
pub open spec fn class_number(name: Seq<char>) -> Option<u64> {
    if name == "READ"@ {
        Some(CLASS_READ)
    } else if name == "MESSAGE_SEND"@ {
        Some(CLASS_MESSAGE_SEND)
    } else if name == "MESSAGE_MUTATION"@ {
        Some(CLASS_MESSAGE_MUTATION)
    } else if name == "CHAT_ACTION"@ {
        Some(CLASS_CHAT_ACTION)
    } else if name == "OTHER"@ {
        Some(CLASS_OTHER)
    } else {
        None
    }
}

/// The level of a named priority.
pub open spec fn priority_level(name: Seq<char>) -> Option<u8> {
    if name == "BACKGROUND"@ {
        Some(32)
    } else if name == "NORMAL"@ {
        Some(128)
    } else {
        None
    }
}

/// The classification of a payload under a policy.
pub open spec fn hint_under(policy: MethodPolicy, fields: Seq<Field>) -> Option<HintView> {
    match (
        scope_under(policy.scope, fields),
        class_number(policy.class@),
        priority_level(policy.priority@),
        weight_under(policy.weight, fields),
    ) {
        (Some(scope), Some(class), Some(priority), Some(weight)) => Some(
            HintView { scope, class, priority, weight },
        ),
        _ => None,
    }
}

fn class_of(name: &str) -> (r: Option<OutboundClass>)
    ensures
        match (r, class_number(name@)) {
            (Some(class), Some(number)) => class.value == number,
            (None, None) => true,
            _ => false,
        },
{
    if same_text(name, "READ") {
        Some(OutboundClass::new(CLASS_READ))
    } else if same_text(name, "MESSAGE_SEND") {
        Some(OutboundClass::new(CLASS_MESSAGE_SEND))
    } else if same_text(name, "MESSAGE_MUTATION") {
        Some(OutboundClass::new(CLASS_MESSAGE_MUTATION))
    } else if same_text(name, "CHAT_ACTION") {
        Some(OutboundClass::new(CLASS_CHAT_ACTION))
    } else if same_text(name, "OTHER") {
        Some(OutboundClass::new(CLASS_OTHER))
    } else {
        None
    }
}

fn priority_of(name: &str) -> (r: Option<OutboundPriority>)
    ensures
        match (r, priority_level(name@)) {
            (Some(priority), Some(level)) => priority.value == level,
            (None, None) => true,
            _ => false,
        },
{
    if same_text(name, "BACKGROUND") {
        Some(OutboundPriority::background())
    } else if same_text(name, "NORMAL") {
        Some(OutboundPriority::normal())
    } else {
        None
    }
}

impl Payload {
    /// The value of a field.
    fn find(&self, name: &str) -> (r: Option<&FieldValue>)
        ensures
            match (r, field(self.fields@, name@)) {
                (Some(value), Some(held)) => *value == held,
                (None, None) => true,
                _ => false,
            },
    {
        let mut i: usize = 0;
        assert(self.fields@.skip(0) =~= self.fields@);
        while i < self.fields.len()
            invariant
                i <= self.fields.len(),
                position(self.fields@, name@) == i + position(
                    self.fields@.skip(i as int),
                    name@,
                ),
            decreases self.fields.len() - i,
        {
            let ghost rest = self.fields@.skip(i as int);
            assert(rest[0] == self.fields@[i as int]);
            assert(rest.drop_first() =~= self.fields@.skip(i + 1));
            if same_text(self.fields[i].name.as_str(), name) {
                return Some(&self.fields[i].value);
            }
            i = i + 1;
        }
        None
    }

    /// The scope under a policy.
    fn scope(&self, policy: ScopePolicy) -> (r: Option<PayloadScope>)
        ensures
            match (r, scope_under(policy, self.fields@)) {
                (Some(scope), Some(view)) => scope@ == view,
                (None, None) => true,
                _ => false,
            },
    {
        match policy {
            ScopePolicy::Global => Some(PayloadScope::Global),
            ScopePolicy::RecipientField(name) => match self.find(name) {
                Some(FieldValue::Recipient(recipient)) => Some(
                    classify::scope_of_recipient(recipient),
                ),
                _ => None,
            },
            ScopePolicy::ChatIdField(name) => match self.find(name) {
                Some(FieldValue::ChatId(chat_id)) => Some(classify::chat_id_scope(*chat_id)),
                _ => None,
            },
            ScopePolicy::OptionalChatIdField(name) => match self.find(name) {
                Some(FieldValue::OptionalChatId(Some(chat_id))) => Some(
                    classify::chat_id_scope(*chat_id),
                ),
                Some(FieldValue::OptionalChatId(None)) => Some(PayloadScope::Global),
                _ => None,
            },
            ScopePolicy::UserIdField(name) => match self.find(name) {
                Some(FieldValue::UserId(user_id)) => Some(classify::user_id_scope(*user_id)),
                _ => None,
            },
            ScopePolicy::Custom(function, name) => match self.find(name) {
                Some(FieldValue::UserId(owner)) => if same_text(function, "draft_chat_id_scope") {
                    Some(classify::draft_chat_id_scope(owner))
                } else {
                    None
                },
                Some(FieldValue::Target(target)) => if same_text(
                    function,
                    "target_message_scope",
                ) {
                    Some(classify::target_message_scope(target))
                } else {
                    None
                },
                Some(FieldValue::ChatId(owner)) => if same_text(
                    function,
                    "new_owner_chat_id_scope",
                ) {
                    Some(classify::new_owner_chat_id_scope(owner))
                } else {
                    None
                },
                _ => None,
            },
            ScopePolicy::CustomValue(function, name) => match self.find(name) {
                Some(FieldValue::Number(chat_id)) => if same_text(function, "game_chat_id_scope") {
                    Some(classify::game_chat_id_scope(*chat_id))
                } else {
                    None
                },
                _ => None,
            },
        }
    }

    /// The weight under a policy.
    fn weight(&self, policy: WeightPolicy) -> (r: Option<NonZeroU32>)
        ensures
            match (r, weight_under(policy, self.fields@)) {
                (Some(weight), Some(value)) => weight@ == value,
                (None, None) => true,
                _ => false,
            },
    {
        match policy {
            WeightPolicy::One => Some(NonZeroU32::one()),
            WeightPolicy::Len(name) => match self.find(name) {
                Some(FieldValue::List(len)) => match NonZeroU32::new(*len as u32) {
                    Some(weight) => Some(weight),
                    None => Some(NonZeroU32::one()),
                },
                _ => None,
            },
        }
    }

    /// The classification of the payload, or `None` if its method is not
    /// classified or it lacks a field that the classification reads.
    pub fn outbound_hint(&self) -> (r: Option<PayloadHint>)
        ensures
            match table::policy_of(self.method@) {
                Some(policy) => match (r, hint_under(policy, self.fields@)) {
                    (Some(hint), Some(view)) => hint@ == view,
                    (None, None) => true,
                    _ => false,
                },
                None => r is None,
            },
    {
        match table::find_policy(self.method.as_str()) {
            Some(policy) => match (
                self.scope(policy.scope),
                class_of(policy.class),
                priority_of(policy.priority),
                self.weight(policy.weight),
            ) {
                (Some(scope), Some(class), Some(priority), Some(weight)) => Some(
                    PayloadHint { scope, class, priority, weight },
                ),
                _ => None,
            },
            None => None,
        }
    }
}

// ---------- laws ----------

/// Every classified method has a class and a priority: a payload of it that
/// has the fields the classification reads is always classified.
pub proof fn law_classified_methods_are_complete(name: Seq<char>, fields: Seq<Field>)
    requires
        table::policy_of(name) is Some,
        scope_under(table::policy_of(name)->0.scope, fields) is Some,
        weight_under(table::policy_of(name)->0.weight, fields) is Some,
    ensures
        hint_under(table::policy_of(name)->0, fields) is Some,
{
}

/// No payload is free: whatever it holds, its weight is positive.
pub proof fn law_weights_are_positive(policy: WeightPolicy, fields: Seq<Field>)
    ensures
        weight_under(policy, fields) matches Some(weight) ==> weight >= 1,
{
}

} // verus!
