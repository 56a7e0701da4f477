//! The text of an XML document: what stands outside its tags.

use vstd::prelude::*;
use crate::processor::DocumentProcessor;
use crate::text::{collapse, collapse_whitespace, from_chars, to_chars};

verus! {

/// After the characters `s`, a tag is open: the last of `<` and `>` in `s` is a `<`.
pub open spec fn inside_tag(s: Seq<char>) -> bool
    decreases s.len(),
{
    if s.len() == 0 {
        false
    } else if s.last() == '<' {
        true
    } else if s.last() == '>' {
        false
    } else {
        inside_tag(s.drop_last())
    }
}

/// The characters of `s` that stand outside tags, with a space where each tag opens.
/// A `>` is never kept, whether it closes a tag or not.
pub open spec fn strip_tags(s: Seq<char>) -> Seq<char>
    decreases s.len(),
{
    if s.len() == 0 {
        seq![]
    } else {
        let before = strip_tags(s.drop_last());
        let c = s.last();
        if c == '<' {
            before.push(' ')
        } else if c == '>' || inside_tag(s.drop_last()) {
            before
        } else {
            before.push(c)
        }
    }
}

/// The text of the XML document `s`: its characters outside tags, the text
/// before and after a tag kept apart, and every run of whitespace made one space.
pub open spec fn xml_text(s: Seq<char>) -> Seq<char> {
    collapse_whitespace(strip_tags(s))
}

/// The characters of `v` outside tags.
pub fn strip_tags_of(v: &Vec<char>) -> (out: Vec<char>)
    ensures
        out@ == strip_tags(v@),
{
    let mut out: Vec<char> = Vec::new();
    let mut inside = false;
    let mut i: usize = 0;
    while i < v.len()
        invariant
            i <= v.len(),
            out@ == strip_tags(v@.take(i as int)),
            inside == inside_tag(v@.take(i as int)),
        decreases v.len() - i,
    {
        let c = v[i];
        proof {
            assert(v@.take(i + 1).drop_last() =~= v@.take(i as int));
            assert(v@.take(i + 1).last() == c);
        }
        if c == '<' {
            inside = true;
            out.push(' ');
        } else if c == '>' {
            inside = false;
        } else if !inside {
            out.push(c);
        }
        i += 1;
    }
    assert(v@.take(v.len() as int) =~= v@);
    out
}

/// The text of the XML document `xml`, as characters.
pub fn collapse_tags(xml: &str) -> (out: Vec<char>)
    ensures
        out@ == xml_text(xml@),
{
    let v = to_chars(xml);
    let stripped = strip_tags_of(&v);
    collapse(&stripped)
}

impl DocumentProcessor {
    /// The text of the XML document `xml`.
    pub fn extract_text_from_xml(&self, xml: &str) -> (r: String)
        ensures
            r@ == xml_text(xml@),
    {
        let collapsed = collapse_tags(xml);
        from_chars(&collapsed)
    }
}

} // verus!
