//! The classification table and the rendering of payloads.

use outbound::payload::policy::{MethodPolicy, ScopePolicy, WeightPolicy};
use outbound::payload::render::{
    default_needed, eq_hash_suitable, multipart_input_file_fields, outbound_impl, params,
    partial_eq_suitable, render_doc, ty_is_multiparty, uses,
};
use outbound::payload::schema::{Convert, Doc, Method, Param, Type};
use outbound::payload::table::{find_policy, is_classified, method_policy};

fn raw(name: &str) -> Type {
    Type::RawTy(name.to_string())
}

fn doc(md: &str) -> Doc {
    Doc { md: md.to_string(), md_links: Vec::new() }
}

fn param(name: &str, ty: Type, ty_text: &str, convert: Convert) -> Param {
    Param {
        name: name.to_string(),
        ty,
        ty_text: ty_text.to_string(),
        convert,
        descr: doc("What it is"),
    }
}

fn send_photo() -> Method {
    Method {
        payload_name: "SendPhoto".to_string(),
        name: "send_photo".to_string(),
        return_ty: raw("Message"),
        params: vec![
            param("chat_id", raw("Recipient"), "Recipient", Convert::Into),
            param("photo", raw("InputFile"), "InputFile", Convert::Id),
            param("caption", Type::Optional(Box::new(Type::Text)), "String", Convert::Into),
        ],
        multipart: vec!["thumbnail".to_string()],
    }
}

#[test]
fn methods_have_their_policies() {
    let send = method_policy("send_message");
    assert_eq!(send.class, "MESSAGE_SEND");
    assert_eq!(send.priority, "NORMAL");
    assert_eq!(send.scope, ScopePolicy::RecipientField("chat_id"));
    assert_eq!(send.weight, WeightPolicy::One);
    assert_eq!(method_policy("copy_messages").weight, WeightPolicy::Len("message_ids"));
    assert_eq!(method_policy("get_me").scope, ScopePolicy::Global);
    assert!(is_classified("get_me"));
    assert!(!is_classified("no_such_method"));
    assert!(find_policy("no_such_method").is_none());
}

#[test]
fn policies_say_what_they_read() {
    let policy = MethodPolicy {
        scope: ScopePolicy::Custom("target_message_scope", "target"),
        class: "OTHER",
        priority: "NORMAL",
        weight: WeightPolicy::Len("media"),
    };
    assert_eq!(
        policy.scope_expr(),
        "crate::outbound::classify::target_message_scope(&self.target)"
    );
    assert_eq!(
        policy.weight_expr(),
        "std::num::NonZeroU32::new(self.media.len() as u32) .unwrap_or(std::num::NonZeroU32::MIN)"
    );
}

#[test]
fn the_impl_carries_the_classification() {
    let text = outbound_impl("GetMe", &method_policy("get_me"));
    assert!(text.starts_with("\n\nimpl crate::outbound::OutboundPayload for GetMe {\n"));
    assert!(text.contains("scope: crate::outbound::OutboundScope::Global,\n"));
    assert!(text.contains("OutboundClass::new(crate::outbound::class::READ),\n"));
    assert!(text.contains("priority: crate::outbound::OutboundPriority::NORMAL,\n"));
    assert!(text.ends_with("weight: std::num::NonZeroU32::new(1).unwrap(),\n        }\n    }\n}\n"));
}

#[test]
fn imports_are_listed_once() {
    let text = uses(&send_photo());
    assert_eq!(text.matches("use serde::Serialize;").count(), 1);
    assert_eq!(text.matches("Recipient").count(), 1);
    assert_eq!(text.matches("Message").count(), 1);
    // the lines stand apart
    assert!(text.contains('\n'));
}

#[test]
fn parameters_are_rendered_by_kind() {
    let required = params(&send_photo(), false);
    let optional = params(&send_photo(), true);
    assert!(required.contains("pub chat_id: Recipient [into],"));
    assert!(required.contains("pub photo: InputFile,"));
    assert!(!required.contains("caption"));
    assert!(optional.contains("pub caption: String [into],"));
    assert!(!optional.contains("photo"));
    assert_eq!(required.matches("/// What it is").count(), 2);
    let bare = Method { params: Vec::new(), ..send_photo() };
    assert_eq!(params(&bare, false), "");
}

#[test]
fn descriptions_become_doc_comments() {
    assert_eq!(render_doc(&doc("One\nTwo"), None), "    /// One\n    /// Two");
    let linked = Doc {
        md: "See [x]".to_string(),
        md_links: vec![("x".to_string(), "https://x".to_string())],
    };
    let text = render_doc(&linked, Some("GetMe"));
    assert!(text.starts_with("    /// See [x]"));
    assert!(text.contains("See also: [`GetMe`](crate::payloads::GetMe)"));
    assert!(text.ends_with("[x]: https://x"));
}

#[test]
fn files_are_found_among_the_parameters() {
    assert_eq!(
        multipart_input_file_fields(&send_photo()),
        Some(vec!["photo".to_string(), "thumbnail".to_string()])
    );
    let bare = Method { params: Vec::new(), multipart: Vec::new(), ..send_photo() };
    assert_eq!(multipart_input_file_fields(&bare), None);
    assert!(ty_is_multiparty(&Type::Optional(Box::new(raw("InputFile")))));
    assert!(!ty_is_multiparty(&Type::ArrayOf(Box::new(raw("InputFile")))));
    assert!(ty_is_multiparty(&raw("InputSticker")));
}

#[test]
fn derives_follow_the_parameters() {
    assert!(!default_needed(&send_photo()));
    let optional = Method {
        params: vec![param(
            "offset",
            Type::Optional(Box::new(Type::Signed32)),
            "i32",
            Convert::Id,
        )],
        ..send_photo()
    };
    assert!(default_needed(&optional));
    assert!(partial_eq_suitable(&optional));
    assert!(eq_hash_suitable(&optional));
    let floating = Method {
        params: vec![param("latitude", Type::Floating, "f64", Convert::Id)],
        ..send_photo()
    };
    assert!(!eq_hash_suitable(&floating));
}
