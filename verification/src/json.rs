//! JSON documents as text: every key and every scalar on a line of its own.

use vstd::prelude::*;
use crate::processor::DocumentProcessor;
use crate::text::{concat, from_chars, push_str};

verus! {

/// A JSON value. A number is held as the text it is written with; the fields
/// of an object stand in the order in which they are to be rendered.
#[derive(Debug)]
pub enum JsonValue {
    Null,
    Bool(bool),
    Number(String),
    String(String),
    Array(Vec<JsonValue>),
    Object(Vec<(String, JsonValue)>),
}

/// The mathematical value that a `JsonValue` stands for.
pub enum JsonTree {
    Null,
    Bool(bool),
    Number(Seq<char>),
    String(Seq<char>),
    Array(Seq<JsonTree>),
    Object(Seq<(Seq<char>, JsonTree)>),
}

impl JsonValue {
    pub open spec fn view(self) -> JsonTree
        decreases self,
    {
        match self {
            JsonValue::Null => JsonTree::Null,
            JsonValue::Bool(b) => JsonTree::Bool(b),
            JsonValue::Number(n) => JsonTree::Number(n@),
            JsonValue::String(s) => JsonTree::String(s@),
            JsonValue::Array(items) => JsonTree::Array(
                Seq::new(
                    items@.len(),
                    |i: int|
                        if 0 <= i < items@.len() {
                            items@[i].view()
                        } else {
                            JsonTree::Null
                        },
                ),
            ),
            JsonValue::Object(fields) => JsonTree::Object(
                Seq::new(
                    fields@.len(),
                    |i: int|
                        if 0 <= i < fields@.len() {
                            (fields@[i].0@, fields@[i].1.view())
                        } else {
                            (seq![], JsonTree::Null)
                        },
                ),
            ),
        }
    }
}

/// The text of the first `n` items of an array, a line feed between each two.
pub open spec fn items_text(items: Seq<JsonTree>, n: int) -> Seq<char>
    decreases items, n,
{
    if n <= 0 || n > items.len() {
        seq![]
    } else if n == 1 {
        json_text(items[0])
    } else {
        items_text(items, n - 1) + seq!['\n'] + json_text(items[n - 1])
    }
}

/// The text of the first `n` fields of an object, each as its key, a colon, a
/// space and the text of its value, a line feed between each two.
pub open spec fn fields_text(fields: Seq<(Seq<char>, JsonTree)>, n: int) -> Seq<char>
    decreases fields, n,
{
    if n <= 0 || n > fields.len() {
        seq![]
    } else if n == 1 {
        fields[0].0 + seq![':', ' '] + json_text(fields[0].1)
    } else {
        fields_text(fields, n - 1) + seq!['\n'] + fields[n - 1].0 + seq![':', ' '] + json_text(
            fields[n - 1].1,
        )
    }
}

/// The text of a JSON value: a string or a number as it is, a truth value as
/// `true` or `false`, null as nothing, an array as its items and an object as
/// its fields, one on each line.
pub open spec fn json_text(v: JsonTree) -> Seq<char>
    decreases v, 0int,
{
    match v {
        JsonTree::Null => seq![],
        JsonTree::Bool(b) => if b {
            seq!['t', 'r', 'u', 'e']
        } else {
            seq!['f', 'a', 'l', 's', 'e']
        },
        JsonTree::Number(n) => n,
        JsonTree::String(s) => s,
        JsonTree::Array(items) => items_text(items, items.len() as int),
        JsonTree::Object(fields) => fields_text(fields, fields.len() as int),
    }
}

/// Appends the text of `value` to `out`.
pub fn push_json(out: &mut Vec<char>, value: &JsonValue)
    ensures
        final(out)@ == old(out)@ + json_text(value@),
    decreases value,
{
    match value {
        JsonValue::Null => {
            assert(out@ =~= old(out)@ + Seq::<char>::empty());
        },
        JsonValue::Bool(b) => {
            if *b {
                out.push('t');
                out.push('r');
                out.push('u');
                out.push('e');
            } else {
                out.push('f');
                out.push('a');
                out.push('l');
                out.push('s');
                out.push('e');
            }
            assert(out@ =~= old(out)@ + json_text(value@));
        },
        JsonValue::Number(n) => {
            push_str(out, n.as_str());
        },
        JsonValue::String(s) => {
            push_str(out, s.as_str());
        },
        JsonValue::Array(items) => {
            let ghost trees = value@->Array_0;
            let mut i: usize = 0;
            assert(out@ =~= old(out)@ + items_text(trees, 0));
            while i < items.len()
                invariant
                    i <= items.len(),
                    value == JsonValue::Array(*items),
                    trees == value@->Array_0,
                    trees.len() == items@.len(),
                    out@ == old(out)@ + items_text(trees, i as int),
                decreases items.len() - i,
            {
                if i > 0 {
                    out.push('\n');
                }
                assert(trees[i as int] == items@[i as int]@);
                push_json(out, &items[i]);
                i += 1;
                assert(out@ =~= old(out)@ + items_text(trees, i as int));
            }
        },
        JsonValue::Object(fields) => {
            let ghost trees = value@->Object_0;
            let mut i: usize = 0;
            assert(out@ =~= old(out)@ + fields_text(trees, 0));
            while i < fields.len()
                invariant
                    i <= fields.len(),
                    value == JsonValue::Object(*fields),
                    trees == value@->Object_0,
                    trees.len() == fields@.len(),
                    out@ == old(out)@ + fields_text(trees, i as int),
                decreases fields.len() - i,
            {
                if i > 0 {
                    out.push('\n');
                }
                assert(trees[i as int] == (fields@[i as int].0@, fields@[i as int].1@));
                push_str(out, fields[i].0.as_str());
                out.push(':');
                out.push(' ');
                push_json(out, &fields[i].1);
                i += 1;
                assert(out@ =~= old(out)@ + fields_text(trees, i as int));
            }
        },
    }
}

/// A parsed JSON document of `serde_json`.
#[verifier::external_type_specification]
#[verifier::external_body]
pub struct ExJsonDocument(serde_json::Value);

/// What `serde_json::from_str` reads from a text: the value that the text
/// denotes, or nothing where the text is not one JSON value.
pub uninterp spec fn json_parse(text: Seq<char>) -> Option<JsonTree>;

/// The value that a parsed document holds, its object fields in the order in
/// which the document hands them out.
pub uninterp spec fn document_tree(document: serde_json::Value) -> JsonTree;

/// `serde_json::from_str`, read as a generic value. The result is a function
/// of the text alone: the document of `json_parse`, or the parser's message
/// where there is none.
#[verifier::external_body]
fn parse_document(text: &str) -> (r: Result<serde_json::Value, String>)
    ensures
        r matches Ok(document) ==> json_parse(text@) == Some(document_tree(document)),
        r is Err ==> json_parse(text@) is None,
{
    serde_json::from_str::<serde_json::Value>(text).map_err(|e| e.to_string())
}

/// Copies a `serde_json::Value` into a `JsonValue`, variant by variant: a
/// number as the text that `serde_json` prints it with, the fields of an object
/// in the order of its iterator.
#[verifier::external_body]
fn copy_document(document: &serde_json::Value) -> (r: JsonValue)
    ensures
        r@ == document_tree(*document),
{
    match document {
        serde_json::Value::Null => JsonValue::Null,
        serde_json::Value::Bool(b) => JsonValue::Bool(*b),
        serde_json::Value::Number(n) => JsonValue::Number(n.to_string()),
        serde_json::Value::String(s) => JsonValue::String(s.clone()),
        serde_json::Value::Array(a) => JsonValue::Array(a.iter().map(copy_document).collect()),
        serde_json::Value::Object(o) => JsonValue::Object(
            o.iter().map(|(k, v)| (k.clone(), copy_document(v))).collect(),
        ),
    }
}

/// The value that `text` denotes, or the parser's message.
pub fn parse_json(text: &str) -> (r: Result<JsonValue, String>)
    ensures
        r matches Ok(value) ==> json_parse(text@) == Some(value@),
        r is Err ==> json_parse(text@) is None,
{
    match parse_document(text) {
        Ok(document) => Ok(copy_document(&document)),
        Err(message) => Err(message),
    }
}

impl DocumentProcessor {
    /// The text of a JSON value.
    pub fn json_to_text(&self, value: &JsonValue) -> (r: String)
        ensures
            r@ == json_text(value@),
    {
        let mut out: Vec<char> = Vec::new();
        push_json(&mut out, value);
        assert(out@ =~= json_text(value@));
        from_chars(&out)
    }

    /// The text of the JSON document `content`, or why it is no JSON document.
    pub fn extract_json_text(&self, content: &str) -> (r: Result<String, String>)
        ensures
            r matches Ok(text) ==> json_parse(content@) matches Some(tree) && text@ == json_text(
                tree,
            ),
            r is Err ==> json_parse(content@) is None,
    {
        match parse_json(content) {
            Ok(value) => Ok(self.json_to_text(&value)),
            Err(message) => {
                Err(concat("Failed to parse JSON: ", message.as_str()))
            },
        }
    }
}

} // verus!
