//! What the source text of a payload says.

use super::policy;
use super::policy::{MethodPolicy, ScopePolicy, WeightPolicy};
use super::render;
use super::render::UseView;
use super::schema::{Convert, Doc, Param, Type};
use vstd::prelude::*;

verus! {

/// What a type is made of: the type inside its options and lists.
pub open spec fn element(ty: Type) -> Type
    decreases ty,
{
    match ty {
        Type::Optional(inner) => element(*inner),
        Type::ArrayOf(inner) => element(*inner),
        _ => ty,
    }
}

/// What a type is inside its options.
pub open spec fn without_options(ty: Type) -> Type
    decreases ty,
{
    match ty {
        Type::Optional(inner) => without_options(*inner),
        _ => ty,
    }
}

// ---------- types ----------

/// What can be compared, hashed and sent as a file: of a type only what it is
/// made of matters. Everything can be compared but a few types of the API that
/// carry files or rich content; everything can be hashed but floating-point
/// numbers and three types of the API; and only three types of the API are
/// files, alone or optional, never as a list.
pub proof fn law_what_a_type_is_made_of_matters(ty: Type)
    ensures
        render::comparable(ty) <==> !(element(ty) matches Type::RawTy(raw) && (raw@ == "InputSticker"@
            || raw@ == "InputProfilePhoto"@ || raw@ == "InputStoryContent"@ || raw@
            == "InputMedia"@ || raw@ == "InputPaidMedia"@ || raw@ == "InputPollMedia"@ || raw@
            == "InputPollOption"@ || raw@ == "InputPollOptionMedia"@ || raw@
            == "InputRichMessage"@)),
        render::hashable(ty) <==> !(element(ty) is Floating || (element(ty) matches Type::RawTy(raw) && (
        raw@ == "InputSticker"@ || raw@ == "MaskPosition"@ || raw@ == "InlineQueryResult"@))),
        render::is_file(ty) <==> (without_options(ty) matches Type::RawTy(raw) && (raw@
            == "InputFile"@ || raw@ == "InputSticker"@ || raw@ == "InputProfilePhoto"@)),
    decreases ty,
{
    match ty {
        Type::Optional(inner) => law_what_a_type_is_made_of_matters(*inner),
        Type::ArrayOf(inner) => law_what_a_type_is_made_of_matters(*inner),
        _ => {},
    }
}

/// What a type has to be imported from: a type of the API by its name from the
/// crate, addresses and dates from where they are defined, and everything else
/// from nowhere. Options and lists need no import of their own.
pub proof fn law_what_is_imported_for_a_type(ty: Type)
    ensures
        match element(ty) {
            Type::True => render::use_of(ty) == UseView::Crate("use crate::types::True;"@),
            Type::RawTy(raw) => render::use_of(ty) == UseView::Crate(
                "use crate::types::"@ + raw@ + ";"@,
            ),
            Type::Url => render::use_of(ty) == UseView::External("use url::Url;"@),
            Type::DateTime => render::use_of(ty) == UseView::External(
                "use chrono::{DateTime, Utc};"@,
            ),
            _ => render::use_of(ty) is Prelude,
        },
    decreases ty,
{
    match ty {
        Type::Optional(inner) => law_what_is_imported_for_a_type(*inner),
        Type::ArrayOf(inner) => law_what_is_imported_for_a_type(*inner),
        _ => {},
    }
}

/// What is imported: every line that a mentioned type needs, once, and no
/// other, but for the serializer, which every payload needs.
pub proof fn law_every_import_is_needed_and_listed_once(types: Seq<Type>, line: Seq<char>)
    ensures
        render::crate_lines(types).contains(line) <==> exists|i: int|
            0 <= i < types.len() && render::use_of(#[trigger] types[i]) == UseView::Crate(line),
        render::external_lines(types).contains(line) <==> line == "use serde::Serialize;"@
            || exists|i: int|
            0 <= i < types.len() && render::use_of(#[trigger] types[i]) == UseView::External(line),
        render::crate_lines(types).no_duplicates(),
        render::external_lines(types).no_duplicates(),
    decreases types.len(),
{
    if types.len() > 0 {
        let rest = types.drop_last();
        let last = types.last();
        law_every_import_is_needed_and_listed_once(rest, line);
        assert(types[types.len() - 1] == last);
        assert forall|i: int| 0 <= i < rest.len() implies #[trigger] rest[i] == types[i] by {}
        if exists|i: int|
            0 <= i < rest.len() && render::use_of(#[trigger] rest[i]) == UseView::Crate(line) {
            let i = choose|i: int|
                0 <= i < rest.len() && render::use_of(#[trigger] rest[i]) == UseView::Crate(line);
            assert(render::use_of(types[i]) == UseView::Crate(line));
        }
        if exists|i: int|
            0 <= i < rest.len() && render::use_of(#[trigger] rest[i]) == UseView::External(line) {
            let i = choose|i: int|
                0 <= i < rest.len() && render::use_of(#[trigger] rest[i]) == UseView::External(
                    line,
                );
            assert(render::use_of(types[i]) == UseView::External(line));
        }
        if exists|i: int|
            0 <= i < types.len() && render::use_of(#[trigger] types[i]) == UseView::Crate(line) {
            let i = choose|i: int|
                0 <= i < types.len() && render::use_of(#[trigger] types[i]) == UseView::Crate(line);
            if i < rest.len() {
                assert(render::use_of(rest[i]) == UseView::Crate(line));
            }
        }
        if exists|i: int|
            0 <= i < types.len() && render::use_of(#[trigger] types[i]) == UseView::External(line) {
            let i = choose|i: int|
                0 <= i < types.len() && render::use_of(#[trigger] types[i]) == UseView::External(
                    line,
                );
            if i < rest.len() {
                assert(render::use_of(rest[i]) == UseView::External(line));
            }
        }
        match render::use_of(last) {
            UseView::Crate(new) => lemma_with_line(render::crate_lines(rest), new, line),
            UseView::External(new) => lemma_with_line(render::external_lines(rest), new, line),
            UseView::Prelude => {},
        }
    } else {
        let first = render::external_lines(types);
        assert(first[0] == "use serde::Serialize;"@);
    }
}

proof fn lemma_with_line(lines: Seq<Seq<char>>, new: Seq<char>, line: Seq<char>)
    requires
        lines.no_duplicates(),
    ensures
        render::with_line(lines, new).contains(line) <==> lines.contains(line) || line == new,
        render::with_line(lines, new).no_duplicates(),
{
    let all = render::with_line(lines, new);
    if !lines.contains(new) {
        assert(all[lines.len() as int] == new);
        if lines.contains(line) {
            let i = choose|i: int| 0 <= i < lines.len() && lines[i] == line;
            assert(all[i] == line);
        }
        if all.contains(line) {
            let i = choose|i: int| 0 <= i < all.len() && all[i] == line;
            if i < lines.len() {
                assert(lines[i] == line);
            }
        }
        assert forall|a: int, b: int| 0 <= a < b < all.len() implies all[a] != all[b] by {
            if b == lines.len() {
                assert(lines[a] == all[a]);
                assert(lines.contains(all[a]));
            }
        }
    }
}

/// The files of a payload: the names of exactly the parameters that are files.
pub proof fn law_file_fields_are_the_files(params: Seq<Param>, name: Seq<char>)
    ensures
        render::file_params(params).contains(name) <==> exists|i: int|
            0 <= i < params.len() && (#[trigger] params[i]).name@ == name && render::is_file(
                params[i].ty,
            ),
        render::file_params(params).len() <= params.len(),
    decreases params.len(),
{
    if params.len() > 0 {
        let rest = params.drop_last();
        let last = params.last();
        law_file_fields_are_the_files(rest, name);
        assert(params[params.len() - 1] == last);
        let before = render::file_params(rest);
        let all = render::file_params(params);
        if before.contains(name) {
            let j = choose|j: int| 0 <= j < before.len() && before[j] == name;
            assert(all[j] == name);
            let i = choose|i: int|
                0 <= i < rest.len() && (#[trigger] rest[i]).name@ == name && render::is_file(
                    rest[i].ty,
                );
            assert(params[i] == rest[i]);
        }
        if all.contains(name) {
            let j = choose|j: int| 0 <= j < all.len() && all[j] == name;
            if j < before.len() {
                assert(before[j] == name);
            }
        }
        if exists|i: int|
            0 <= i < params.len() && (#[trigger] params[i]).name@ == name && render::is_file(
                params[i].ty,
            ) {
            let i = choose|i: int|
                0 <= i < params.len() && (#[trigger] params[i]).name@ == name && render::is_file(
                    params[i].ty,
                );
            if i < rest.len() {
                assert(rest[i] == params[i]);
            } else {
                assert(all[all.len() - 1] == name);
            }
        }
    }
}

// ---------- descriptions ----------

/// What becomes of line breaks: a text without any stays as it is, and every
/// break is replaced where it stands, with what is before and after it kept.
pub proof fn law_line_breaks_are_replaced_where_they_stand(
    before: Seq<char>,
    after: Seq<char>,
    with: Seq<char>,
)
    ensures
        (forall|i: int| 0 <= i < before.len() ==> before[i] != '\n') ==> render::breaks_replaced(
            before,
            with,
        ) == before,
        render::breaks_replaced(before + seq!['\n'] + after, with) == render::breaks_replaced(
            before,
            with,
        ) + with + render::breaks_replaced(after, with),
    decreases before.len(), after.len(),
{
    if after.len() == 0 {
        let whole = before + seq!['\n'] + after;
        assert(whole.drop_last() =~= before);
        assert(whole.last() == '\n');
        assert(render::breaks_replaced(whole, with) =~= render::breaks_replaced(before, with) + with
            + render::breaks_replaced(after, with));
        if before.len() > 0 {
            lemma_no_breaks(before, with);
        }
    } else {
        law_line_breaks_are_replaced_where_they_stand(before, after.drop_last(), with);
        let whole = before + seq!['\n'] + after;
        assert(whole.drop_last() =~= before + seq!['\n'] + after.drop_last());
        assert(whole.last() == after.last());
        assert(render::breaks_replaced(whole, with) =~= render::breaks_replaced(before, with) + with
            + render::breaks_replaced(after, with));
    }
}

proof fn lemma_no_breaks(s: Seq<char>, with: Seq<char>)
    ensures
        (forall|i: int| 0 <= i < s.len() ==> s[i] != '\n') ==> render::breaks_replaced(s, with) == s,
    decreases s.len(),
{
    if s.len() > 0 {
        lemma_no_breaks(s.drop_last(), with);
        assert(s.drop_last() + seq![s.last()] =~= s);
    }
}

/// How a description reads: as a comment, every line of it marked as one. A
/// sibling is named below it, on a line after an empty one, and every link
/// adds a line of its own at the end, after an empty one.
pub proof fn law_a_description_is_a_comment(doc: Doc, sibling: Seq<char>, link: (String, String))
    ensures
        doc.md_links@.len() == 0 ==> render::doc_text(doc, None) == "    /// "@
            + render::breaks_replaced(doc.md@, "\n    /// "@),
        doc.md_links@.len() == 0 ==> render::doc_text(doc, Some(sibling)) == render::doc_text(
            doc,
            None,
        ) + ("\n    /// \n    /// See also: [`"@ + sibling + "`](crate::payloads::"@ + sibling
            + ")"@),
        forall|more: Doc|
            #![trigger render::doc_text(more, None)]
            more.md == doc.md && more.md_links@ == doc.md_links@.push(link) && doc.md_links@.len()
                > 0 ==> render::doc_text(more, None) == render::doc_text(doc, None) + (
            "\n    /// ["@ + link.0@ + "]: "@ + link.1@),
        doc.md_links@.len() == 1 ==> render::doc_text(doc, None) == "    /// "@
            + render::breaks_replaced(doc.md@, "\n    /// "@) + ("\n    ///"@ + ("\n    /// ["@
            + doc.md_links@[0].0@ + "]: "@ + doc.md_links@[0].1@)),
{
    let text = "    /// "@ + render::breaks_replaced(doc.md@, "\n    /// "@);
    if doc.md_links@.len() == 0 {
        let empty = Seq::<char>::empty();
        assert(text + empty + empty =~= text);
        let note = "\n    /// \n    /// See also: [`"@ + sibling + "`](crate::payloads::"@ + sibling
            + ")"@;
        assert(text + note + empty =~= text + note);
    }
    assert forall|more: Doc|
        #![trigger render::doc_text(more, None)]
        more.md == doc.md && more.md_links@ == doc.md_links@.push(link) && doc.md_links@.len()
            > 0 implies render::doc_text(more, None) == render::doc_text(doc, None) + (
    "\n    /// ["@ + link.0@ + "]: "@ + link.1@) by {
        assert(more.md_links@.drop_last() =~= doc.md_links@);
        let one = "\n    /// ["@ + link.0@ + "]: "@ + link.1@;
        assert(render::doc_text(more, None) =~= render::doc_text(doc, None) + one);
    }
    if doc.md_links@.len() == 1 {
        let links = doc.md_links@;
        assert(links.drop_last() =~= Seq::empty());
        assert(links.last() == links[0]);
        let one = "\n    /// ["@ + links[0].0@ + "]: "@ + links[0].1@;
        assert(render::links_text(links.drop_last()) =~= Seq::empty());
        assert(render::links_text(links) =~= one);
        assert(render::doc_text(doc, None) =~= text + ("\n    ///"@ + one));
    }
}

// ---------- parameters ----------

/// Which parameters are listed: of the optional ones, or of the others, each
/// one in the order of the method.
pub proof fn law_parameters_are_listed_in_order(params: Seq<Param>, optional: bool, last: Param)
    ensures
        render::param_texts(params.push(last), optional) == (if last.ty is Optional == optional {
            render::param_texts(params, optional).push(render::param_text(last))
        } else {
            render::param_texts(params, optional)
        }),
        render::param_texts(Seq::<Param>::empty(), optional).len() == 0,
{
    assert(params.push(last).drop_last() =~= params);
}

/// How a parameter reads: its description, how it is written, and then its
/// name, its type and how it is taken. A message id is spread over the request
/// but where it names the message replied to, a list of them is written as
/// numbers, and so is a date; a name that ends in `_` is written without it.
pub proof fn law_how_a_parameter_reads(param: Param)
    ensures
        ({
            let ty = render::inside(param.ty);
            let spread = render::flatten_text(ty, param.name@);
            let dated = render::with_text(ty);
            let named = render::rename_text(param.name@);
            let taken = render::convert_text(param.convert);
            &&& render::param_text(param) == "        "@ + render::breaks_replaced(
                render::doc_text(param.descr, None),
                "\n        "@,
            ) + spread + dated + named + "\n            pub "@ + param.name@ + ": "@
                + param.ty_text@ + taken + ","@
            &&& match ty {
                Type::RawTy(raw) => if raw@ == "MessageId"@ && param.name@
                    == "reply_to_message_id"@ {
                    spread
                        == "\n            #[serde(serialize_with = \"crate::types::serialize_reply_to_message_id\")]"@
                } else if raw@ == "MessageId"@ || raw@ == "TargetMessage"@ || raw@
                    == "StickerType"@ {
                    spread == "\n            #[serde(flatten)]"@
                } else {
                    spread == ""@
                },
                Type::ArrayOf(inner) => if (*inner matches Type::RawTy(raw) && raw@
                    == "MessageId"@) {
                    spread
                        == "\n            #[serde(with = \"crate::types::vec_msg_id_as_vec_int\")]"@
                } else {
                    spread == ""@
                },
                _ => spread == ""@,
            }
            &&& ty is DateTime ==> dated
                == "\n            #[serde(with = \"crate::types::serde_opt_date_from_unix_timestamp\")]"@
            &&& !(ty is DateTime) ==> dated == ""@
            &&& param.name@.len() > 0 && param.name@.last() == '_' ==> named
                == "\n            #[serde(rename = \""@ + param.name@.drop_last() + "\")]"@
            &&& !(param.name@.len() > 0 && param.name@.last() == '_') ==> named.len() == 0
            &&& match param.convert {
                Convert::Id => taken == ""@,
                Convert::Into => taken == " [into]"@,
                Convert::Collect => taken == " [collect]"@,
            }
            &&& match param.ty {
                Type::Optional(held) => ty == *held,
                _ => ty == param.ty,
            }
        }),
{
}

// ---------- the classification ----------

/// What the rendered classification says: for the payload named, the scope,
/// class, priority and weight of its policy, in that order.
pub proof fn law_the_rendered_classification_is_that_of_the_policy(
    payload_name: Seq<char>,
    policy: MethodPolicy,
)
    ensures
        render::outbound_impl_text(payload_name, policy)
            == "\n\nimpl crate::outbound::OutboundPayload for "@ + payload_name
            + " {\n    fn outbound_hint(&self) -> crate::outbound::OutboundHint {\n        crate::outbound::OutboundHint {\n            scope: "@
            + policy::scope_text(policy.scope)
            + ",\n            class: crate::outbound::OutboundClass::new(crate::outbound::class::"@
            + policy.class@ + "),\n            priority: crate::outbound::OutboundPriority::"@
            + policy.priority@ + ",\n            weight: "@ + policy::weight_text(policy.weight)
            + ",\n        }\n    }\n}\n"@,
{
}

/// How a scope is rendered: from the field that the policy reads, by the
/// classifier of its kind.
pub proof fn law_a_scope_is_rendered_from_its_field(
    field: &'static str,
    function: &'static str,
)
    ensures
        policy::scope_text(ScopePolicy::Global) == "crate::outbound::OutboundScope::Global"@,
        policy::scope_text(ScopePolicy::RecipientField(field))
            == "crate::outbound::classify::scope_of_recipient(&self."@ + field@ + ")"@,
        policy::scope_text(ScopePolicy::ChatIdField(field))
            == "crate::outbound::classify::chat_id_scope(self."@ + field@ + ")"@,
        policy::scope_text(ScopePolicy::OptionalChatIdField(field)) == "match self."@ + field@
            + " { Some(chat_id) => crate::outbound::classify::chat_id_scope(chat_id), None => crate::outbound::OutboundScope::Global }"@,
        policy::scope_text(ScopePolicy::UserIdField(field))
            == "crate::outbound::classify::user_id_scope(self."@ + field@ + ")"@,
        policy::scope_text(ScopePolicy::Custom(function, field)) == "crate::outbound::classify::"@
            + function@ + "(&self."@ + field@ + ")"@,
        policy::scope_text(ScopePolicy::CustomValue(function, field))
            == "crate::outbound::classify::"@ + function@ + "(self."@ + field@ + ")"@,
        policy::weight_text(WeightPolicy::One) == "std::num::NonZeroU32::new(1).unwrap()"@,
        policy::weight_text(WeightPolicy::Len(field)) == "std::num::NonZeroU32::new(self."@ + field@
            + ".len() as u32) .unwrap_or(std::num::NonZeroU32::MIN)"@,
{
}

} // verus!
