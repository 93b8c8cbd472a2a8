//! Reading and writing documents with `serde_json` and `serde_yaml`.

use vstd::prelude::*;

use crate::format::{detect_format, is_format_of, SpecFormat};
use crate::json::{
    distinct_keys, group_json_views, items_view, members_view, Json, JsonView, Member, MemberView,
};
use crate::limits::{fits_yaml, is_writable_as_yaml, DOCUMENT_LIMIT};
use crate::pointer::{pointer_target, resolved};
use crate::text::{chars_of, with_tail};

verus! {

/// A document as `serde_json` holds it.
#[verifier::external_type_specification]
#[verifier::external_body]
pub struct ExValue(serde_json::Value);

/// The tree that a `serde_json::Value` holds. The members of an object are in the order in which
/// its map hands them out.
pub uninterp spec fn value_contents(value: serde_json::Value) -> JsonView;

/// The top of a `serde_json::Value`, with its children by reference.
enum Opened<'a> {
    Null,
    Bool(bool),
    Number(&'a serde_json::Number),
    Text(&'a String),
    Array(&'a Vec<serde_json::Value>),
    Object(Vec<(&'a String, &'a serde_json::Value)>),
}

/// The top of a `serde_json::Value` that is still to be made.
enum Parts {
    Null,
    Bool(bool),
    Number(serde_json::Number),
    Text(String),
    Array(Vec<serde_json::Value>),
    Object(Vec<(String, serde_json::Value)>),
}

spec fn opened_contents(opened: Opened) -> JsonView {
    match opened {
        Opened::Null => JsonView::Null,
        Opened::Bool(b) => JsonView::Bool(b),
        Opened::Number(n) => JsonView::Number(*n),
        Opened::Text(s) => JsonView::Text(s@),
        Opened::Array(items) => JsonView::Array(
            items@.map_values(|v: serde_json::Value| value_contents(v)),
        ),
        Opened::Object(entries) => JsonView::Object(
            entries@.map_values(
                |e: (&String, &serde_json::Value)|
                    MemberView { key: e.0@, value: value_contents(*e.1) },
            ),
        ),
    }
}

spec fn parts_contents(parts: Parts) -> JsonView {
    match parts {
        Parts::Null => JsonView::Null,
        Parts::Bool(b) => JsonView::Bool(b),
        Parts::Number(n) => JsonView::Number(n),
        Parts::Text(s) => JsonView::Text(s@),
        Parts::Array(items) => JsonView::Array(
            items@.map_values(|v: serde_json::Value| value_contents(v)),
        ),
        Parts::Object(entries) => JsonView::Object(
            entries@.map_values(
                |e: (String, serde_json::Value)|
                    MemberView { key: e.0@, value: value_contents(e.1) },
            ),
        ),
    }
}

/// Tells the variants of a `serde_json::Value` apart. The children of an array come in its order,
/// the entries of an object in the order of `serde_json::Map::iter`; a map holds each key once.
#[verifier::external_body]
fn open_value<'a>(value: &'a serde_json::Value) -> (r: Opened<'a>)
    ensures
        opened_contents(r) == value_contents(*value),
        opened_contents(r) matches JsonView::Object(members) ==> distinct_keys(members),
{
    match value {
        serde_json::Value::Null => Opened::Null,
        serde_json::Value::Bool(b) => Opened::Bool(*b),
        serde_json::Value::Number(n) => Opened::Number(n),
        serde_json::Value::String(s) => Opened::Text(s),
        serde_json::Value::Array(items) => Opened::Array(items),
        serde_json::Value::Object(map) => Opened::Object(map.iter().collect()),
    }
}

/// Makes a `serde_json::Value` of the variant that is asked for. An object is collected into a
/// `serde_json::Map`, which keeps the entries in the order in which they come (the feature
/// `preserve_order`) as long as no key comes twice.
#[verifier::external_body]
fn close_value(parts: Parts) -> (r: serde_json::Value)
    requires
        parts_contents(parts) matches JsonView::Object(members) ==> distinct_keys(members),
    ensures
        value_contents(r) == parts_contents(parts),
{
    match parts {
        Parts::Null => serde_json::Value::Null,
        Parts::Bool(b) => serde_json::Value::Bool(b),
        Parts::Number(n) => serde_json::Value::Number(n),
        Parts::Text(s) => serde_json::Value::String(s),
        Parts::Array(items) => serde_json::Value::Array(items),
        Parts::Object(entries) => serde_json::Value::Object(entries.into_iter().collect()),
    }
}

/// The tree that a `serde_json::Value` holds.
pub(crate) fn from_value(value: &serde_json::Value) -> (r: Json)
    ensures
        r@ == value_contents(*value),
        r@.well_formed(),
    decreases value_contents(*value),
{
    broadcast use group_json_views;

    match open_value(value) {
        Opened::Null => Json::Null,
        Opened::Bool(b) => Json::Bool(b),
        Opened::Number(n) => Json::Number(n.clone()),
        Opened::Text(s) => Json::Text(s.clone()),
        Opened::Array(items) => {
            let ghost contents = value_contents(*value);
            let mut copies: Vec<Json> = Vec::new();
            for i in 0..items.len()
                invariant
                    contents == value_contents(*value),
                    contents == opened_contents(Opened::Array(items)),
                    copies.len() == i,
                    forall|j: int|
                        0 <= j < i ==> (#[trigger] copies@[j])@ == contents->Array_0[j]
                            && copies@[j]@.well_formed(),
            {
                proof {
                    assert(contents->Array_0[i as int] == value_contents(items@[i as int]));
                }
                copies.push(from_value(&items[i]));
            }
            proof {
                assert(items_view(copies@) =~= contents->Array_0);
            }
            Json::Array(copies)
        },
        Opened::Object(entries) => {
            let ghost contents = value_contents(*value);
            let mut copies: Vec<Member> = Vec::new();
            for i in 0..entries.len()
                invariant
                    contents == value_contents(*value),
                    contents == opened_contents(Opened::Object(entries)),
                    copies.len() == i,
                    forall|j: int|
                        0 <= j < i ==> (#[trigger] copies@[j])@ == contents->Object_0[j]
                            && copies@[j]@.value.well_formed(),
            {
                let entry = entries[i];
                proof {
                    assert(contents->Object_0[i as int].value == value_contents(*entry.1));
                    assert(decreases_to!(contents => contents->Object_0[i as int].value));
                }
                copies.push(Member { key: entry.0.clone(), value: from_value(entry.1) });
            }
            proof {
                assert(members_view(copies@) =~= contents->Object_0);
            }
            Json::Object(copies)
        },
    }
}

/// A `serde_json::Value` that holds the given tree.
pub(crate) fn to_value(json: &Json) -> (r: serde_json::Value)
    requires
        json@.well_formed(),
    ensures
        value_contents(r) == json@,
    decreases json,
{
    broadcast use group_json_views;

    match json {
        Json::Null => close_value(Parts::Null),
        Json::Bool(b) => close_value(Parts::Bool(*b)),
        Json::Number(n) => close_value(Parts::Number(n.clone())),
        Json::Text(s) => close_value(Parts::Text(s.clone())),
        Json::Array(items) => {
            let mut values: Vec<serde_json::Value> = Vec::new();
            for i in 0..items.len()
                invariant
                    json matches Json::Array(v) && v == items,
                    json@.well_formed(),
                    json@ == JsonView::Array(items_view(items@)),
                    values.len() == i,
                    forall|j: int|
                        0 <= j < i ==> value_contents(#[trigger] values@[j]) == items@[j]@,
            {
                proof {
                    assert(json@->Array_0[i as int].well_formed());
                }
                values.push(to_value(&items[i]));
            }
            proof {
                assert(values@.map_values(|v: serde_json::Value| value_contents(v)) =~= items_view(
                    items@,
                ));
            }
            close_value(Parts::Array(values))
        },
        Json::Object(members) => {
            let mut entries: Vec<(String, serde_json::Value)> = Vec::new();
            for i in 0..members.len()
                invariant
                    json matches Json::Object(v) && v == members,
                    json@.well_formed(),
                    json@ == JsonView::Object(members_view(members@)),
                    entries.len() == i,
                    forall|j: int|
                        0 <= j < i ==> (#[trigger] entries@[j]).0@ == members@[j].key@
                            && value_contents(entries@[j].1) == members@[j].value@,
            {
                proof {
                    assert(json@->Object_0[i as int].value.well_formed());
                }
                entries.push((members[i].key.clone(), to_value(&members[i].value)));
            }
            proof {
                assert(entries@.map_values(
                    |e: (String, serde_json::Value)|
                        MemberView { key: e.0@, value: value_contents(e.1) },
                ) =~= members_view(members@));
            }
            close_value(Parts::Object(entries))
        },
    }
}

/// What `serde_json::from_str` makes of a text: the tree, or the text of its error.
pub uninterp spec fn json_parse(text: Seq<char>) -> Result<JsonView, Seq<char>>;

/// What `serde_yaml::from_str` makes of a text when it is asked for a `serde_json::Value`: the
/// tree, or the text of its error.
pub uninterp spec fn yaml_parse(text: Seq<char>) -> Result<JsonView, Seq<char>>;

/// What `serde_json::to_string_pretty` writes for a tree, or the text of its error.
pub uninterp spec fn json_text(tree: JsonView) -> Result<Seq<char>, Seq<char>>;

/// What `serde_yaml::to_string` writes for a tree that is not too large, or the text of its error.
pub uninterp spec fn yaml_text(tree: JsonView) -> Result<Seq<char>, Seq<char>>;

/// `serde_json::from_str`. Whether the text is accepted, and which tree or error comes out, is
/// named [`json_parse`]; nothing more is said of it. The digits of a number are counted in 32 bits,
/// so that the text must not be too long.
#[verifier::external_body]
fn parse_json(text: &str) -> (r: Result<serde_json::Value, String>)
    requires
        text@.len() < DOCUMENT_LIMIT,
    ensures
        match r {
            Ok(value) => json_parse(text@) == Ok::<JsonView, Seq<char>>(value_contents(value)),
            Err(error) => json_parse(text@) == Err::<JsonView, Seq<char>>(error@),
        },
{
    match serde_json::from_str(text) {
        Ok(value) => Ok(value),
        Err(error) => Err(error.to_string()),
    }
}

/// `serde_yaml::from_str`, asked for a `serde_json::Value`. Whether the text is accepted, and
/// which tree or error comes out, is named [`yaml_parse`]; nothing more is said of it. Indentation
/// is counted in 32 bits, so that the text must not be too long.
#[verifier::external_body]
fn parse_yaml(text: &str) -> (r: Result<serde_json::Value, String>)
    requires
        text@.len() < DOCUMENT_LIMIT,
    ensures
        match r {
            Ok(value) => yaml_parse(text@) == Ok::<JsonView, Seq<char>>(value_contents(value)),
            Err(error) => yaml_parse(text@) == Err::<JsonView, Seq<char>>(error@),
        },
{
    match serde_yaml::from_str(text) {
        Ok(value) => Ok(value),
        Err(error) => Err(error.to_string()),
    }
}

/// `serde_json::to_string_pretty`. The text that it writes, which depends on the tree alone, is
/// named [`json_text`]; nothing more is said of it.
#[verifier::external_body]
fn print_json(value: &serde_json::Value) -> (r: Result<String, String>)
    ensures
        text_result(r) == json_text(value_contents(*value)),
{
    match serde_json::to_string_pretty(value) {
        Ok(text) => Ok(text),
        Err(error) => Err(error.to_string()),
    }
}

/// `serde_yaml::to_string`. The text that it writes, which depends on the tree alone, is named
/// [`yaml_text`]; nothing more is said of it. The length of a text, columns and lines are counted in
/// 32 bits, so that the tree must not be too large.
#[verifier::external_body]
fn print_yaml(value: &serde_json::Value) -> (r: Result<String, String>)
    requires
        fits_yaml(value_contents(*value)),
    ensures
        text_result(r) == yaml_text(value_contents(*value)),
{
    match serde_yaml::to_string(value) {
        Ok(text) => Ok(text),
        Err(error) => Err(error.to_string()),
    }
}

/// `serde_json::Value::pointer`: the node that a JSON pointer addresses, as [`pointer_target`]
/// says.
#[verifier::external_body]
fn value_pointer<'a>(value: &'a serde_json::Value, pointer: &str) -> (r: Option<
    &'a serde_json::Value,
>)
    ensures
        match r {
            Some(target) => pointer_target(value_contents(*value), pointer@) == Some(
                value_contents(*target),
            ),
            None => pointer_target(value_contents(*value), pointer@) is None,
        },
{
    value.pointer(pointer)
}

/// The node that a reference like `#/components/schemas/Foo` names in its own document.
pub(crate) fn resolve_in(value: &serde_json::Value, reference: &str) -> (r: Option<Json>)
    ensures
        match r {
            Some(node) => resolved(value_contents(*value), reference@) == Some(node@)
                && node@.well_formed(),
            None => resolved(value_contents(*value), reference@) is None,
        },
{
    let chars = chars_of(reference);
    if chars.len() == 0 || chars[0] != '#' {
        return None;
    }
    let pointer = reference.substring_char(1, chars.len());
    proof {
        assert(pointer@ =~= reference@.skip(1));
    }
    match value_pointer(value, pointer) {
        Some(target) => Some(from_value(target)),
        None => None,
    }
}

/// The characters of either text.
pub open spec fn text_result(r: Result<String, String>) -> Result<Seq<char>, Seq<char>> {
    match r {
        Ok(text) => Ok(text@),
        Err(error) => Err(error@),
    }
}

/// The tree, or the characters of the error.
pub open spec fn tree_result(r: Result<Json, String>) -> Result<JsonView, Seq<char>> {
    match r {
        Ok(json) => Ok(json@),
        Err(error) => Err(error@),
    }
}

/// An error with a label in front of it; a success as it is.
pub open spec fn labelled<T>(r: Result<T, Seq<char>>, label: Seq<char>) -> Result<T, Seq<char>> {
    match r {
        Ok(value) => Ok(value),
        Err(error) => Err(label + error),
    }
}

/// The label of an error in reading a format.
pub open spec fn parse_label(format: SpecFormat) -> Seq<char> {
    match format {
        SpecFormat::Json => "JSON parse error: "@,
        SpecFormat::Yaml => "YAML parse error: "@,
    }
}

/// The label of an error in writing a format.
pub open spec fn write_label(format: SpecFormat) -> Seq<char> {
    match format {
        SpecFormat::Json => "JSON write error: "@,
        SpecFormat::Yaml => "YAML write error: "@,
    }
}

/// The tree of a document's text, or what is reported when it cannot be read.
pub open spec fn parsed(text: Seq<char>, format: SpecFormat) -> Result<JsonView, Seq<char>> {
    match format {
        SpecFormat::Json => labelled(json_parse(text), parse_label(format)),
        SpecFormat::Yaml => labelled(yaml_parse(text), parse_label(format)),
    }
}

/// The text of a document, or what is reported when it cannot be written.
pub open spec fn serialized(tree: JsonView, format: SpecFormat) -> Result<Seq<char>, Seq<char>> {
    match format {
        SpecFormat::Json => labelled(json_text(tree), write_label(format)),
        SpecFormat::Yaml => labelled(
            if fits_yaml(tree) {
                yaml_text(tree)
            } else {
                Err("document is too large"@)
            },
            write_label(format),
        ),
    }
}

/// What is reported of the outcome of reading a document.
pub fn label_parse_result(result: Result<Json, String>, format: SpecFormat) -> (r: Result<
    Json,
    String,
>)
    ensures
        tree_result(r) == labelled(tree_result(result), parse_label(format)),
        r is Ok ==> r == result,
{
    match result {
        Ok(json) => Ok(json),
        Err(error) => {
            let label = match format {
                SpecFormat::Json => "JSON parse error: ",
                SpecFormat::Yaml => "YAML parse error: ",
            };
            Err(with_tail(label, error.as_str()))
        },
    }
}

/// What is reported of the outcome of writing a document.
pub fn label_write_result(result: Result<String, String>, format: SpecFormat) -> (r: Result<
    String,
    String,
>)
    ensures
        text_result(r) == labelled(text_result(result), write_label(format)),
{
    match result {
        Ok(text) => Ok(text),
        Err(error) => {
            let label = match format {
                SpecFormat::Json => "JSON write error: ",
                SpecFormat::Yaml => "YAML write error: ",
            };
            Err(with_tail(label, error.as_str()))
        },
    }
}

/// Read a document.
pub fn parse_spec_string(contents: &str, format: SpecFormat) -> (r: Result<Json, String>)
    requires
        contents@.len() < DOCUMENT_LIMIT,
    ensures
        tree_result(r) == parsed(contents@, format),
        r matches Ok(json) ==> json@.well_formed(),
{
    let outcome = match format {
        SpecFormat::Json => parse_json(contents),
        SpecFormat::Yaml => parse_yaml(contents),
    };
    let result = match outcome {
        Ok(value) => Ok(from_value(&value)),
        Err(error) => Err(error),
    };
    label_parse_result(result, format)
}

/// The document of a file, with its format, or what is reported when there is none.
pub open spec fn loaded_file(contents: Result<Seq<char>, Seq<char>>, format: SpecFormat) -> Result<
    (JsonView, SpecFormat),
    Seq<char>,
> {
    match contents {
        Ok(text) => match parsed(text, format) {
            Ok(tree) => Ok((tree, format)),
            Err(error) => Err(error),
        },
        Err(error) => Err("Read error: "@ + error),
    }
}

/// The tree and the format, or the characters of the error.
pub open spec fn file_result(r: Result<(Json, SpecFormat), String>) -> Result<
    (JsonView, SpecFormat),
    Seq<char>,
> {
    match r {
        Ok((json, format)) => Ok((json@, format)),
        Err(error) => Err(error@),
    }
}

/// Read the document of a file from what was found in it, or from why it could not be read, in
/// the format that the path of the file tells.
pub fn load_spec(contents: Result<String, String>, path: &str) -> (r: Result<
    (Json, SpecFormat),
    String,
>)
    requires
        contents matches Ok(text) ==> text@.len() < DOCUMENT_LIMIT,
    ensures
        exists|format: SpecFormat| #[trigger]
            is_format_of(path@, format) && file_result(r) == loaded_file(
                text_result(contents),
                format,
            ),
        r matches Ok((json, _)) ==> json@.well_formed(),
{
    let format = detect_format(path);
    proof {
        assert(is_format_of(path@, format));
    }
    load_in_format(contents, format)
}

/// Read the document of a file of the given format from what was found in it, or from why it could
/// not be read.
pub fn load_in_format(contents: Result<String, String>, format: SpecFormat) -> (r: Result<
    (Json, SpecFormat),
    String,
>)
    requires
        contents matches Ok(text) ==> text@.len() < DOCUMENT_LIMIT,
    ensures
        file_result(r) == loaded_file(text_result(contents), format),
        r matches Ok((json, _)) ==> json@.well_formed(),
{
    match contents {
        Ok(text) => match parse_spec_string(text.as_str(), format) {
            Ok(json) => Ok((json, format)),
            Err(error) => Err(error),
        },
        Err(error) => Err(with_tail("Read error: ", error.as_str())),
    }
}

/// Write a document.
pub fn serialize_spec(spec: &Json, format: SpecFormat) -> (r: Result<String, String>)
    requires
        spec@.well_formed(),
    ensures
        text_result(r) == serialized(spec@, format),
{
    let result = match format {
        SpecFormat::Json => print_json(&to_value(spec)),
        SpecFormat::Yaml => if is_writable_as_yaml(spec) {
            print_yaml(&to_value(spec))
        } else {
            Err("document is too large".to_owned())
        },
    };
    label_write_result(result, format)
}

} // verus!
