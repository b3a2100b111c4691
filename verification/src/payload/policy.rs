//! How a method is classified, and the expressions that say so in terms of
//! its payload.

use vstd::prelude::*;
use vstd::string::*;

verus! {

/// How the scope of a method is derived from its payload.
#[derive(Clone, Copy, Debug, PartialEq, Eq)]
pub enum ScopePolicy {
    /// The request applies to no chat; global windows only.
    Global,
    /// A recipient field (numeric id or channel username).
    RecipientField(&'static str),
    /// A numeric chat id field.
    ChatIdField(&'static str),
    /// An optional numeric chat id field: without one the request applies
    /// to no chat.
    OptionalChatIdField(&'static str),
    /// A numeric user id field.
    UserIdField(&'static str),
    /// A hand-written classifier (function name, field name).
    Custom(&'static str, &'static str),
    /// A hand-written classifier for a field passed by value (function name,
    /// field name).
    CustomValue(&'static str, &'static str),
}

/// Weight of one request in window capacity units. Batch methods that send,
/// forward or copy several messages in one call account for every message,
/// so that windows measure message traffic and not the number of calls.
#[derive(Clone, Copy, Debug, PartialEq, Eq)]
pub enum WeightPolicy {
    /// A single unit regardless of the payload contents.
    One,
    /// The length of the named list field, at least one.
    Len(&'static str),
}

/// Classification of one method.
#[derive(Clone, Copy, Debug, PartialEq, Eq)]
pub struct MethodPolicy {
    pub scope: ScopePolicy,
    pub class: &'static str,
    pub priority: &'static str,
    pub weight: WeightPolicy,
}

/// The scope expression, in terms of `self`.
pub open spec fn scope_text(scope: ScopePolicy) -> Seq<char> {
    match scope {
        ScopePolicy::Global => "crate::outbound::OutboundScope::Global"@,
        ScopePolicy::RecipientField(field) => "crate::outbound::classify::scope_of_recipient(&self."@
            + field@ + ")"@,
        ScopePolicy::ChatIdField(field) => "crate::outbound::classify::chat_id_scope(self."@ + field@
            + ")"@,
        ScopePolicy::OptionalChatIdField(field) => "match self."@ + field@
            + " { Some(chat_id) => crate::outbound::classify::chat_id_scope(chat_id), None => crate::outbound::OutboundScope::Global }"@,
        ScopePolicy::UserIdField(field) => "crate::outbound::classify::user_id_scope(self."@ + field@
            + ")"@,
        ScopePolicy::Custom(function, field) => "crate::outbound::classify::"@ + function@
            + "(&self."@ + field@ + ")"@,
        ScopePolicy::CustomValue(function, field) => "crate::outbound::classify::"@ + function@
            + "(self."@ + field@ + ")"@,
    }
}

/// The weight expression, in terms of `self`.
pub open spec fn weight_text(weight: WeightPolicy) -> Seq<char> {
    match weight {
        WeightPolicy::One => "std::num::NonZeroU32::new(1).unwrap()"@,
        WeightPolicy::Len(field) => "std::num::NonZeroU32::new(self."@ + field@
            + ".len() as u32) .unwrap_or(std::num::NonZeroU32::MIN)"@,
    }
}

impl MethodPolicy {
    /// The scope expression, in terms of `self`.
    pub fn scope_expr(&self) -> (r: String)
        ensures
            r@ == scope_text(self.scope),
    {
        match self.scope {
            ScopePolicy::Global => String::from_str("crate::outbound::OutboundScope::Global"),
            ScopePolicy::RecipientField(field) => {
                let mut expr = String::from_str(
                    "crate::outbound::classify::scope_of_recipient(&self.",
                );
                expr.append(field);
                expr.append(")");
                expr
            },
            ScopePolicy::ChatIdField(field) => {
                let mut expr = String::from_str("crate::outbound::classify::chat_id_scope(self.");
                expr.append(field);
                expr.append(")");
                expr
            },
            ScopePolicy::OptionalChatIdField(field) => {
                let mut expr = String::from_str("match self.");
                expr.append(field);
                expr.append(
                    " { Some(chat_id) => crate::outbound::classify::chat_id_scope(chat_id), None => crate::outbound::OutboundScope::Global }",
                );
                expr
            },
            ScopePolicy::UserIdField(field) => {
                let mut expr = String::from_str("crate::outbound::classify::user_id_scope(self.");
                expr.append(field);
                expr.append(")");
                expr
            },
            ScopePolicy::Custom(function, field) => {
                let mut expr = String::from_str("crate::outbound::classify::");
                expr.append(function);
                expr.append("(&self.");
                expr.append(field);
                expr.append(")");
                expr
            },
            ScopePolicy::CustomValue(function, field) => {
                let mut expr = String::from_str("crate::outbound::classify::");
                expr.append(function);
                expr.append("(self.");
                expr.append(field);
                expr.append(")");
                expr
            },
        }
    }

    /// The weight expression, in terms of `self`.
    pub fn weight_expr(&self) -> (r: String)
        ensures
            r@ == weight_text(self.weight),
    {
        match self.weight {
            WeightPolicy::One => String::from_str("std::num::NonZeroU32::new(1).unwrap()"),
            WeightPolicy::Len(field) => {
                let mut expr = String::from_str("std::num::NonZeroU32::new(self.");
                expr.append(field);
                expr.append(".len() as u32) .unwrap_or(std::num::NonZeroU32::MIN)");
                expr
            },
        }
    }
}

} // verus!
