//! The source text of payloads.

use super::policy;
use super::policy::MethodPolicy;
use super::schema::{Convert, Doc, Method, Param, Type};
use crate::text::same_text;
use vstd::prelude::*;
use vstd::string::*;

verus! {

// ---------- pieces of text ----------

/// The texts of a list.
pub open spec fn texts(items: Seq<String>) -> Seq<Seq<char>> {
    Seq::new(items.len(), |i: int| items[i]@)
}

/// Texts one after the other, with a separator between them.
pub open spec fn joined(items: Seq<Seq<char>>, separator: Seq<char>) -> Seq<char>
    decreases items.len(),
{
    if items.len() == 0 {
        Seq::empty()
    } else if items.len() == 1 {
        items[0]
    } else {
        joined(items.drop_last(), separator) + separator + items.last()
    }
}

/// `itertools::Itertools::join` writes the items of an iterator one after
/// the other, each as its `Display` writes it, with the separator between
/// them. A `String` is written as the text it holds. A separator of at most
/// one character keeps the capacity it reserves within bounds.
#[verifier::external_body]
fn join(items: &Vec<String>, separator: &str) -> (r: String)
    requires
        separator@.len() <= 1,
    ensures
        r@ == joined(texts(items@), separator@),
{
    itertools::Itertools::join(&mut items.iter(), separator)
}

/// A text with every line break replaced.
pub open spec fn breaks_replaced(s: Seq<char>, with: Seq<char>) -> Seq<char>
    decreases s.len(),
{
    if s.len() == 0 {
        Seq::empty()
    } else {
        breaks_replaced(s.drop_last(), with) + if s.last() == '\n' {
            with
        } else {
            seq![s.last()]
        }
    }
}

fn replace_breaks(s: &str, with: &str) -> (r: String)
    ensures
        r@ == breaks_replaced(s@, with@),
{
    let n: usize = s.unicode_len();
    let mut r = String::new();
    let mut i: usize = 0;
    while i < n
        invariant
            i <= n,
            n == s@.len(),
            r@ == breaks_replaced(s@.take(i as int), with@),
        decreases n - i,
    {
        let c: char = s.get_char(i);
        let ghost before = r@;
        if c == '\n' {
            r.append(with);
        } else {
            r.push(c);
            assert(r@ =~= before + seq![c]);
        }
        i = i + 1;
        assert(s@.take(i as int).drop_last() =~= s@.take(i - 1));
    }
    assert(s@.take(i as int) =~= s@);
    r
}

// ---------- imports ----------

/// What has to be imported for a type.
pub enum UseView {
    Prelude,
    Crate(Seq<char>),
    External(Seq<char>),
}

enum Use {
    Prelude,
    Crate(String),
    External(String),
}

impl Use {
    spec fn view(&self) -> UseView {
        match self {
            Use::Prelude => UseView::Prelude,
            Use::Crate(line) => UseView::Crate(line@),
            Use::External(line) => UseView::External(line@),
        }
    }
}

pub open spec fn use_of(ty: Type) -> UseView
    decreases ty,
{
    match ty {
        Type::True => UseView::Crate("use crate::types::True;"@),
        Type::Optional(inner) => use_of(*inner),
        Type::ArrayOf(inner) => use_of(*inner),
        Type::RawTy(raw) => UseView::Crate("use crate::types::"@ + raw@ + ";"@),
        Type::Url => UseView::External("use url::Url;"@),
        Type::DateTime => UseView::External("use chrono::{DateTime, Utc};"@),
        _ => UseView::Prelude,
    }
}

fn ty_use(ty: &Type) -> (r: Use)
    ensures
        r.view() == use_of(*ty),
    decreases ty,
{
    match ty {
        Type::True => Use::Crate(String::from_str("use crate::types::True;")),
        Type::Optional(inner) => ty_use(inner),
        Type::ArrayOf(inner) => ty_use(inner),
        Type::RawTy(raw) => {
            let mut line = String::from_str("use crate::types::");
            line.append(raw.as_str());
            line.append(";");
            Use::Crate(line)
        },
        Type::Url => Use::External(String::from_str("use url::Url;")),
        Type::DateTime => Use::External(String::from_str("use chrono::{DateTime, Utc};")),
        _ => Use::Prelude,
    }
}

/// The lines of an import block with one more, unless it is there already.
pub open spec fn with_line(lines: Seq<Seq<char>>, line: Seq<char>) -> Seq<Seq<char>> {
    if lines.contains(line) {
        lines
    } else {
        lines.push(line)
    }
}

/// The types a method mentions: its result, then its parameters.
pub open spec fn mentioned(method: Method) -> Seq<Type> {
    seq![method.return_ty] + Seq::new(method.params@.len(), |i: int| method.params@[i].ty)
}

/// The lines that import from outside, in the order of their first mention.
pub open spec fn external_lines(types: Seq<Type>) -> Seq<Seq<char>>
    decreases types.len(),
{
    if types.len() == 0 {
        seq!["use serde::Serialize;"@]
    } else {
        let before = external_lines(types.drop_last());
        match use_of(types.last()) {
            UseView::External(line) => with_line(before, line),
            _ => before,
        }
    }
}

/// The lines that import from the crate, in the order of their first
/// mention.
pub open spec fn crate_lines(types: Seq<Type>) -> Seq<Seq<char>>
    decreases types.len(),
{
    if types.len() == 0 {
        Seq::empty()
    } else {
        let before = crate_lines(types.drop_last());
        match use_of(types.last()) {
            UseView::Crate(line) => with_line(before, line),
            _ => before,
        }
    }
}

/// The imports of a payload.
pub open spec fn imports(external: Seq<Seq<char>>, own: Seq<Seq<char>>) -> Seq<char> {
    if own.len() == 0 {
        joined(external, "\n"@)
    } else {
        joined(external, "\n"@) + "\n\n"@ + joined(own, ""@)
    }
}

fn add_line(lines: &mut Vec<String>, line: String)
    ensures
        texts(final(lines)@) == with_line(texts(old(lines)@), line@),
{
    let ghost before = texts(lines@);
    let mut i: usize = 0;
    while i < lines.len()
        invariant
            i <= lines.len(),
            texts(lines@) == before,
            forall|j: int| 0 <= j < i ==> #[trigger] before[j] != line@,
        decreases lines.len() - i,
    {
        assert(before[i as int] == lines@[i as int]@);
        if lines[i] == line {
            assert(before.contains(line@));
            return;
        }
        i = i + 1;
    }
    assert(!before.contains(line@));
    let ghost said = line@;
    lines.push(line);
    assert(texts(lines@) =~= before.push(said));
}

fn note_use(ty: &Type, external: &mut Vec<String>, own: &mut Vec<String>)
    ensures
        texts(final(external)@) == match use_of(*ty) {
            UseView::External(line) => with_line(texts(old(external)@), line),
            _ => texts(old(external)@),
        },
        texts(final(own)@) == match use_of(*ty) {
            UseView::Crate(line) => with_line(texts(old(own)@), line),
            _ => texts(old(own)@),
        },
{
    match ty_use(ty) {
        Use::Prelude => {},
        Use::Crate(line) => add_line(own, line),
        Use::External(line) => add_line(external, line),
    }
}

/// The imports a payload needs, every line once.
pub fn uses(method: &Method) -> (r: String)
    ensures
        r@ == imports(external_lines(mentioned(*method)), crate_lines(mentioned(*method))),
{
    let ghost types = mentioned(*method);
    let mut external: Vec<String> = Vec::new();
    let mut own: Vec<String> = Vec::new();
    external.push(String::from_str("use serde::Serialize;"));
    proof {
        assert(texts(external@) =~= external_lines(types.take(0)));
        assert(texts(own@) =~= crate_lines(types.take(0)));
        assert(types.take(1).drop_last() =~= types.take(0));
    }
    note_use(&method.return_ty, &mut external, &mut own);
    let mut i: usize = 0;
    while i < method.params.len()
        invariant
            i <= method.params.len(),
            types == mentioned(*method),
            texts(external@) == external_lines(types.take(i + 1)),
            texts(own@) == crate_lines(types.take(i + 1)),
        decreases method.params.len() - i,
    {
        proof {
            assert(types.take(i + 2).drop_last() =~= types.take(i + 1));
            assert(types.take(i + 2).last() == method.params@[i as int].ty);
        }
        note_use(&method.params[i].ty, &mut external, &mut own);
        i = i + 1;
    }
    assert(types.take(i + 1) =~= types);
    proof {
        reveal_strlit("\n");
        reveal_strlit("");
    }
    let mut text = join(&external, "\n");
    if own.len() > 0 {
        text.append("\n\n");
        text.append(join(&own, "").as_str());
    }
    text
}

// ---------- documentation ----------

/// The links of a description.
pub open spec fn links_text(links: Seq<(String, String)>) -> Seq<char>
    decreases links.len(),
{
    if links.len() == 0 {
        Seq::empty()
    } else {
        links_text(links.drop_last()) + ("\n    /// ["@ + links.last().0@ + "]: "@
            + links.last().1@)
    }
}

/// A description as a doc comment.
pub open spec fn doc_text(doc: Doc, sibling: Option<Seq<char>>) -> Seq<char> {
    let note = match sibling {
        Some(s) => "\n    /// \n    /// See also: [`"@ + s + "`](crate::payloads::"@ + s + ")"@,
        None => Seq::empty(),
    };
    let links = if doc.md_links@.len() == 0 {
        Seq::empty()
    } else {
        "\n    ///"@ + links_text(doc.md_links@)
    };
    "    /// "@ + breaks_replaced(doc.md@, "\n    /// "@) + note + links
}

/// Renders a description as a doc comment. A sibling is named by the type of
/// its payload.
pub fn render_doc(doc: &Doc, sibling: Option<&str>) -> (r: String)
    ensures
        r@ == doc_text(
            *doc,
            match sibling {
                Some(s) => Some(s@),
                None => None,
            },
        ),
{
    let mut text = String::from_str("    /// ");
    text.append(replace_breaks(doc.md.as_str(), "\n    /// ").as_str());
    if let Some(s) = sibling {
        let mut note = String::from_str("\n    /// \n    /// See also: [`");
        note.append(s);
        note.append("`](crate::payloads::");
        note.append(s);
        note.append(")");
        text.append(note.as_str());
    }
    if doc.md_links.len() > 0 {
        let mut links = String::new();
        let mut i: usize = 0;
        while i < doc.md_links.len()
            invariant
                i <= doc.md_links.len(),
                links@ == links_text(doc.md_links@.take(i as int)),
            decreases doc.md_links.len() - i,
        {
            proof {
                assert(doc.md_links@.take(i + 1).drop_last() =~= doc.md_links@.take(i as int));
            }
            let mut line = String::from_str("\n    /// [");
            line.append(doc.md_links[i].0.as_str());
            line.append("]: ");
            line.append(doc.md_links[i].1.as_str());
            links.append(line.as_str());
            i = i + 1;
        }
        assert(doc.md_links@.take(i as int) =~= doc.md_links@);
        let mut block = String::from_str("\n    ///");
        block.append(links.as_str());
        text.append(block.as_str());
    }
    proof {
        let note = match sibling {
            Some(s) => "\n    /// \n    /// See also: [`"@ + s@ + "`](crate::payloads::"@ + s@
                + ")"@,
            None => Seq::empty(),
        };
        let head = "    /// "@ + breaks_replaced(doc.md@, "\n    /// "@);
        assert(head + Seq::<char>::empty() =~= head);
        assert(head + note + Seq::<char>::empty() =~= head + note);
    }
    text
}

// ---------- derives ----------

/// Whether values of a type can be compared.
pub open spec fn comparable(ty: Type) -> bool
    decreases ty,
{
    match ty {
        Type::Optional(inner) => comparable(*inner),
        Type::ArrayOf(inner) => comparable(*inner),
        Type::RawTy(raw) => !({
            ||| raw@ == "InputSticker"@
            ||| raw@ == "InputProfilePhoto"@
            ||| raw@ == "InputStoryContent"@
            ||| raw@ == "InputMedia"@
            ||| raw@ == "InputPaidMedia"@
            ||| raw@ == "InputPollMedia"@
            ||| raw@ == "InputPollOption"@
            ||| raw@ == "InputPollOptionMedia"@
            ||| raw@ == "InputRichMessage"@
        }),
        _ => true,
    }
}

/// Whether values of a type can be hashed and compared exactly.
pub open spec fn hashable(ty: Type) -> bool
    decreases ty,
{
    match ty {
        Type::Floating => false,
        Type::Optional(inner) => hashable(*inner),
        Type::ArrayOf(inner) => hashable(*inner),
        Type::RawTy(raw) => raw@ != "InputSticker"@ && raw@ != "MaskPosition"@ && raw@
            != "InlineQueryResult"@,
        _ => true,
    }
}

/// Whether values of a type are sent as files.
pub open spec fn is_file(ty: Type) -> bool
    decreases ty,
{
    match ty {
        Type::RawTy(raw) => raw@ == "InputFile"@ || raw@ == "InputSticker"@ || raw@
            == "InputProfilePhoto"@,
        Type::Optional(inner) => is_file(*inner),
        _ => false,
    }
}

fn ty_partial_eq_suitable(ty: &Type) -> (r: bool)
    ensures
        r == comparable(*ty),
    decreases ty,
{
    match ty {
        Type::Optional(inner) => ty_partial_eq_suitable(inner),
        Type::ArrayOf(inner) => ty_partial_eq_suitable(inner),
        Type::RawTy(raw) => {
            let raw = raw.as_str();
            !(same_text(raw, "InputSticker") || same_text(raw, "InputProfilePhoto")
                || same_text(raw, "InputStoryContent") || same_text(raw, "InputMedia")
                || same_text(raw, "InputPaidMedia") || same_text(raw, "InputPollMedia")
                || same_text(raw, "InputPollOption") || same_text(raw, "InputPollOptionMedia")
                || same_text(raw, "InputRichMessage"))
        },
        _ => true,
    }
}

fn ty_eq_hash_suitable(ty: &Type) -> (r: bool)
    ensures
        r == hashable(*ty),
    decreases ty,
{
    match ty {
        Type::Floating => false,
        Type::Optional(inner) => ty_eq_hash_suitable(inner),
        Type::ArrayOf(inner) => ty_eq_hash_suitable(inner),
        Type::RawTy(raw) => {
            let raw = raw.as_str();
            !same_text(raw, "InputSticker") && !same_text(raw, "MaskPosition") && !same_text(
                raw,
                "InlineQueryResult",
            )
        },
        _ => true,
    }
}

/// Whether a value of the type is sent as a file.
pub fn ty_is_multiparty(ty: &Type) -> (r: bool)
    ensures
        r == is_file(*ty),
    decreases ty,
{
    match ty {
        Type::RawTy(raw) => {
            let raw = raw.as_str();
            same_text(raw, "InputFile") || same_text(raw, "InputSticker") || same_text(
                raw,
                "InputProfilePhoto",
            )
        },
        Type::Optional(inner) => ty_is_multiparty(inner),
        _ => false,
    }
}

/// Whether payloads of a method can be compared.
pub fn partial_eq_suitable(method: &Method) -> (r: bool)
    ensures
        r <==> forall|i: int|
            0 <= i < method.params.len() ==> comparable((#[trigger] method.params@[i]).ty),
{
    let mut i: usize = 0;
    while i < method.params.len()
        invariant
            i <= method.params.len(),
            forall|j: int| 0 <= j < i ==> comparable((#[trigger] method.params@[j]).ty),
        decreases method.params.len() - i,
    {
        if !ty_partial_eq_suitable(&method.params[i].ty) {
            return false;
        }
        i = i + 1;
    }
    true
}

/// Whether payloads of a method can be hashed.
pub fn eq_hash_suitable(method: &Method) -> (r: bool)
    ensures
        r <==> forall|i: int|
            0 <= i < method.params.len() ==> hashable((#[trigger] method.params@[i]).ty),
{
    let mut i: usize = 0;
    while i < method.params.len()
        invariant
            i <= method.params.len(),
            forall|j: int| 0 <= j < i ==> hashable((#[trigger] method.params@[j]).ty),
        decreases method.params.len() - i,
    {
        if !ty_eq_hash_suitable(&method.params[i].ty) {
            return false;
        }
        i = i + 1;
    }
    true
}

/// Whether a payload can be built from nothing: every parameter is optional.
pub fn default_needed(method: &Method) -> (r: bool)
    ensures
        r <==> forall|i: int|
            0 <= i < method.params.len() ==> (#[trigger] method.params@[i]).ty is Optional,
{
    let mut i: usize = 0;
    while i < method.params.len()
        invariant
            i <= method.params.len(),
            forall|j: int| 0 <= j < i ==> (#[trigger] method.params@[j]).ty is Optional,
        decreases method.params.len() - i,
    {
        match &method.params[i].ty {
            Type::Optional(_) => {},
            _ => {
                return false;
            },
        }
        i = i + 1;
    }
    true
}

/// The names of the parameters that are sent as files.
pub open spec fn file_params(params: Seq<Param>) -> Seq<Seq<char>>
    decreases params.len(),
{
    if params.len() == 0 {
        Seq::empty()
    } else {
        let before = file_params(params.drop_last());
        if is_file(params.last().ty) {
            before.push(params.last().name@)
        } else {
            before
        }
    }
}

/// The fields of a payload that are sent as files, if there are any: file
/// parameters first, then the further ones.
pub fn multipart_input_file_fields(method: &Method) -> (r: Option<Vec<String>>)
    ensures
        ({
            let fields = file_params(method.params@) + texts(method.multipart@);
            match r {
                Some(names) => texts(names@) == fields && fields.len() > 0,
                None => fields.len() == 0,
            }
        }),
{
    let mut names: Vec<String> = Vec::new();
    let mut i: usize = 0;
    assert(texts(names@) =~= file_params(method.params@.take(0)));
    while i < method.params.len()
        invariant
            i <= method.params.len(),
            texts(names@) == file_params(method.params@.take(i as int)),
        decreases method.params.len() - i,
    {
        let ghost before = texts(names@);
        proof {
            assert(method.params@.take(i + 1).drop_last() =~= method.params@.take(i as int));
        }
        if ty_is_multiparty(&method.params[i].ty) {
            names.push(method.params[i].name.clone());
            assert(texts(names@) =~= before.push(method.params@[i as int].name@));
        }
        i = i + 1;
    }
    assert(method.params@.take(i as int) =~= method.params@);
    let ghost own = texts(names@);
    let mut j: usize = 0;
    assert(own + texts(method.multipart@).take(0) =~= own);
    while j < method.multipart.len()
        invariant
            j <= method.multipart.len(),
            texts(names@) == own + texts(method.multipart@).take(j as int),
        decreases method.multipart.len() - j,
    {
        let ghost before = texts(names@);
        names.push(method.multipart[j].clone());
        proof {
            let more = texts(method.multipart@);
            assert(texts(names@) =~= before.push(more[j as int]));
            assert(more.take(j + 1) =~= more.take(j as int).push(more[j as int]));
            assert(own + more.take(j + 1) =~= (own + more.take(j as int)).push(more[j as int]));
        }
        j = j + 1;
    }
    assert(texts(method.multipart@).take(j as int) =~= texts(method.multipart@));
    assert(texts(names@).len() == names@.len());
    if names.len() == 0 {
        None
    } else {
        Some(names)
    }
}

// ---------- parameters ----------

/// How a parameter is spread over the request.
pub open spec fn flatten_text(ty: Type, field: Seq<char>) -> Seq<char> {
    match ty {
        Type::RawTy(raw) => if raw@ == "MessageId"@ && field == "reply_to_message_id"@ {
            "\n            #[serde(serialize_with = \"crate::types::serialize_reply_to_message_id\")]"@
        } else if raw@ == "MessageId"@ || raw@ == "TargetMessage"@ || raw@ == "StickerType"@ {
            "\n            #[serde(flatten)]"@
        } else {
            ""@
        },
        Type::ArrayOf(inner) => match *inner {
            Type::RawTy(raw) => if raw@ == "MessageId"@ {
                "\n            #[serde(with = \"crate::types::vec_msg_id_as_vec_int\")]"@
            } else {
                ""@
            },
            _ => ""@,
        },
        _ => ""@,
    }
}

/// How a date is written.
pub open spec fn with_text(ty: Type) -> Seq<char> {
    match ty {
        Type::DateTime =>
            "\n            #[serde(with = \"crate::types::serde_opt_date_from_unix_timestamp\")]"@,
        _ => ""@,
    }
}

/// The name of a field whose own name ends in `_`.
pub open spec fn rename_text(field: Seq<char>) -> Seq<char> {
    if field.len() > 0 && field.last() == '_' {
        "\n            #[serde(rename = \""@ + field.drop_last() + "\")]"@
    } else {
        Seq::empty()
    }
}

pub open spec fn convert_text(convert: Convert) -> Seq<char> {
    match convert {
        Convert::Id => ""@,
        Convert::Into => " [into]"@,
        Convert::Collect => " [collect]"@,
    }
}

/// The type of a parameter without its outermost option.
pub open spec fn inside(ty: Type) -> Type {
    match ty {
        Type::Optional(inner) => *inner,
        _ => ty,
    }
}

/// The text of one parameter.
pub open spec fn param_text(param: Param) -> Seq<char> {
    "        "@ + breaks_replaced(doc_text(param.descr, None), "\n        "@) + flatten_text(
        inside(param.ty),
        param.name@,
    ) + with_text(inside(param.ty)) + rename_text(param.name@) + "\n            pub "@
        + param.name@ + ": "@ + param.ty_text@ + convert_text(param.convert) + ","@
}

/// Whether a parameter is listed: the optional ones, or the others.
pub open spec fn listed(param: Param, optional: bool) -> bool {
    (param.ty is Optional) == optional
}

/// The texts of the listed parameters.
pub open spec fn param_texts(params: Seq<Param>, optional: bool) -> Seq<Seq<char>>
    decreases params.len(),
{
    if params.len() == 0 {
        Seq::empty()
    } else {
        let before = param_texts(params.drop_last(), optional);
        if listed(params.last(), optional) {
            before.push(param_text(params.last()))
        } else {
            before
        }
    }
}

fn flatten(ty: &Type, field: &str) -> (r: &'static str)
    ensures
        r@ == flatten_text(*ty, field@),
{
    match ty {
        Type::RawTy(raw) => {
            let raw = raw.as_str();
            if same_text(raw, "MessageId") && same_text(field, "reply_to_message_id") {
                "\n            #[serde(serialize_with = \"crate::types::serialize_reply_to_message_id\")]"
            } else if same_text(raw, "MessageId") || same_text(raw, "TargetMessage") || same_text(
                raw,
                "StickerType",
            ) {
                "\n            #[serde(flatten)]"
            } else {
                ""
            }
        },
        Type::ArrayOf(inner) => match &**inner {
            Type::RawTy(raw) => if same_text(raw.as_str(), "MessageId") {
                "\n            #[serde(with = \"crate::types::vec_msg_id_as_vec_int\")]"
            } else {
                ""
            },
            _ => "",
        },
        _ => "",
    }
}

fn rename(field: &str) -> (r: String)
    ensures
        r@ == rename_text(field@),
{
    let n: usize = field.unicode_len();
    if n > 0 && field.get_char(n - 1) == '_' {
        let kept = field.substring_char(0, n - 1);
        assert(kept@ =~= field@.drop_last());
        let mut text = String::from_str("\n            #[serde(rename = \"");
        text.append(kept);
        text.append("\")]");
        text
    } else {
        String::new()
    }
}

fn render_param(param: &Param) -> (r: String)
    ensures
        r@ == param_text(*param),
{
    let ty: &Type = match &param.ty {
        Type::Optional(inner) => &**inner,
        other => other,
    };
    assert(*ty == inside(param.ty));
    let doc = render_doc(&param.descr, None);
    let mut text = String::from_str("        ");
    text.append(replace_breaks(doc.as_str(), "\n        ").as_str());
    text.append(flatten(ty, param.name.as_str()));
    let with: &str = match ty {
        Type::DateTime =>
            "\n            #[serde(with = \"crate::types::serde_opt_date_from_unix_timestamp\")]",
        _ => "",
    };
    text.append(with);
    text.append(rename(param.name.as_str()).as_str());
    text.append("\n            pub ");
    text.append(param.name.as_str());
    text.append(": ");
    text.append(param.ty_text.as_str());
    let convert: &str = match param.convert {
        Convert::Id => "",
        Convert::Into => " [into]",
        Convert::Collect => " [collect]",
    };
    text.append(convert);
    text.append(",");
    text
}

/// Renders the optional parameters of a method, or the others.
pub fn params(method: &Method, optional: bool) -> (r: String)
    ensures
        r@ == joined(param_texts(method.params@, optional), "\n"@),
{
    let mut lines: Vec<String> = Vec::new();
    let mut i: usize = 0;
    assert(texts(lines@) =~= param_texts(method.params@.take(0), optional));
    while i < method.params.len()
        invariant
            i <= method.params.len(),
            texts(lines@) == param_texts(method.params@.take(i as int), optional),
        decreases method.params.len() - i,
    {
        let ghost before = texts(lines@);
        proof {
            assert(method.params@.take(i + 1).drop_last() =~= method.params@.take(i as int));
        }
        let is_optional = match &method.params[i].ty {
            Type::Optional(_) => true,
            _ => false,
        };
        if is_optional == optional {
            let line = render_param(&method.params[i]);
            let ghost said = line@;
            lines.push(line);
            assert(texts(lines@) =~= before.push(said));
        }
        i = i + 1;
    }
    proof {
        assert(method.params@.take(i as int) =~= method.params@);
        reveal_strlit("\n");
    }
    join(&lines, "\n")
}

// ---------- classification ----------

/// The impl that carries the classification of a payload.
pub open spec fn outbound_impl_text(payload_name: Seq<char>, policy: MethodPolicy) -> Seq<char> {
    "\n\nimpl crate::outbound::OutboundPayload for "@ + payload_name
        + " {\n    fn outbound_hint(&self) -> crate::outbound::OutboundHint {\n        crate::outbound::OutboundHint {\n            scope: "@
        + policy::scope_text(policy.scope)
        + ",\n            class: crate::outbound::OutboundClass::new(crate::outbound::class::"@
        + policy.class@ + "),\n            priority: crate::outbound::OutboundPriority::"@
        + policy.priority@ + ",\n            weight: "@ + policy::weight_text(policy.weight)
        + ",\n        }\n    }\n}\n"@
}

/// Renders the impl that carries the classification of a payload.
pub fn outbound_impl(payload_name: &str, policy: &MethodPolicy) -> (r: String)
    ensures
        r@ == outbound_impl_text(payload_name@, *policy),
{
    let mut text = String::from_str("\n\nimpl crate::outbound::OutboundPayload for ");
    text.append(payload_name);
    text.append(
        " {\n    fn outbound_hint(&self) -> crate::outbound::OutboundHint {\n        crate::outbound::OutboundHint {\n            scope: ",
    );
    text.append(policy.scope_expr().as_str());
    text.append(
        ",\n            class: crate::outbound::OutboundClass::new(crate::outbound::class::",
    );
    text.append(policy.class);
    text.append("),\n            priority: crate::outbound::OutboundPriority::");
    text.append(policy.priority);
    text.append(",\n            weight: ");
    text.append(policy.weight_expr().as_str());
    text.append(",\n        }\n    }\n}\n");
    text
}

} // verus!
