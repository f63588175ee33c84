//! What a browse request asks for.
//!
//! The body of a request is an XML document that names the object to browse in an
//! element `ObjectID`. The header of the request names the action behind a `#`.

use vstd::prelude::*;
use crate::catalog::BrowseError;
use crate::natural_order::all_digits;
use crate::natural_order::digits_value;
use crate::natural_order::lemma_extend_monotone;
use crate::natural_order::lemma_extend_split;
use crate::text::chars_of;
use crate::text::text_of;

verus! {

/// A node of a parsed document: the local name of its tag, which is empty where the
/// node is no element, and its text, which for an element is that of its first child
/// where that child is text.
#[derive(PartialEq, Debug, Clone)]
pub struct XmlNode {
    pub name: String,
    pub text: Option<String>,
}

impl View for XmlNode {
    type V = (Seq<char>, Option<Seq<char>>);

    open spec fn view(&self) -> (Seq<char>, Option<Seq<char>>) {
        (
            self.name@,
            match self.text {
                Some(text) => Some(text@),
                None => None,
            },
        )
    }
}

/// The names and texts of a sequence of nodes.
pub open spec fn node_views(nodes: Seq<XmlNode>) -> Seq<(Seq<char>, Option<Seq<char>>)> {
    nodes.map_values(|node: XmlNode| node@)
}

/// The nodes of an XML document, the root first and then all below it in the order of
/// the document, each as its name and its text, as `roxmltree` parses the document; or
/// nothing where it does not take the text for a document.
pub uninterp spec fn xml_nodes(document: Seq<char>) -> Option<Seq<(Seq<char>, Option<Seq<char>>)>>;

/// Calls `roxmltree::Document::parse`, walks the document with `descendants`, and takes
/// of each node `tag_name().name()` and `text()`. The result is named, not stated: it
/// depends on the text of the document alone.
#[verifier::external_body]
fn parse_nodes(document: &str) -> (nodes: Option<Vec<XmlNode>>)
    ensures
        match nodes {
            Some(nodes) => xml_nodes(document@) == Some(node_views(nodes@)),
            None => xml_nodes(document@) is None,
        },
{
    match roxmltree::Document::parse(document) {
        Ok(parsed) => Some(
            parsed.descendants().map(
                |node|
                    XmlNode {
                        name: node.tag_name().name().to_owned(),
                        text: node.text().map(|text| text.to_owned()),
                    },
            ).collect(),
        ),
        Err(_) => None,
    }
}

// ---------------------------------------------------------------------------
// Numbers
// ---------------------------------------------------------------------------

/// The number that one or more decimal digits write, where it is a `u64`.
pub open spec fn number_of_digits(digits: Seq<char>) -> Option<u64> {
    if digits.len() > 0 && all_digits(digits) && digits_value(digits) <= u64::MAX {
        Some(digits_value(digits) as u64)
    } else {
        None
    }
}

/// The number that `text` writes: one or more decimal digits, with a `+` before them
/// or without, whose value is a `u64`. Any other text writes no number.
pub open spec fn parsed_number(text: Seq<char>) -> Option<u64> {
    if text.len() > 0 && text[0] == '+' {
        number_of_digits(text.drop_first())
    } else {
        number_of_digits(text)
    }
}

/// Reads the number that `text` writes.
pub fn parse_number(text: &str) -> (number: Option<u64>)
    ensures
        number == parsed_number(text@),
{
    let chars = chars_of(text);
    let start: usize = if chars.len() > 0 && chars[0] == '+' {
        1
    } else {
        0
    };
    let ghost digits = chars@.skip(start as int);
    proof {
        if start == 0 {
            assert(digits =~= text@);
        }
    }
    if start == chars.len() {
        return None;
    }
    let mut value: u64 = 0;
    let mut i: usize = start;
    while i < chars.len()
        invariant
            start <= i <= chars.len(),
            digits == chars@.skip(start as int),
            parsed_number(text@) == number_of_digits(digits),
            all_digits(digits.take(i - start)),
            value == digits_value(digits.take(i - start)),
        decreases chars.len() - i,
    {
        let c = chars[i];
        let ghost k = i - start;
        proof {
            assert(digits[k] == c);
            assert(digits.take(k + 1).drop_last() =~= digits.take(k));
        }
        if !('0' <= c && c <= '9') {
            return None;
        }
        let d = (c as u8 - '0' as u8) as u64;
        if value > (u64::MAX - d) / 10 {
            proof {
                assert(digits =~= digits.take(k + 1) + digits.skip(k + 1));
                lemma_extend_split(0, digits.take(k + 1), digits.skip(k + 1));
                lemma_extend_monotone(
                    digits_value(digits.take(k + 1)),
                    digits_value(digits.take(k + 1)),
                    digits.skip(k + 1),
                    digits.skip(k + 1),
                );
            }
            return None;
        }
        value = value * 10 + d;
        i += 1;
    }
    proof {
        assert(digits.take(chars.len() - start) =~= digits);
    }
    Some(value)
}

// ---------------------------------------------------------------------------
// The object of a request
// ---------------------------------------------------------------------------

/// The first node of the name `name`, if there is one.
pub open spec fn first_named(nodes: Seq<(Seq<char>, Option<Seq<char>>)>, name: Seq<char>) -> Option<
    (Seq<char>, Option<Seq<char>>),
>
    decreases nodes.len(),
{
    if nodes.len() == 0 {
        None
    } else if nodes[0].0 == name {
        Some(nodes[0])
    } else {
        first_named(nodes.drop_first(), name)
    }
}

/// The object that a document asks for: the number that the text of its first
/// `ObjectID` writes. A document without an `ObjectID`, or whose first `ObjectID` has
/// no text or a text that writes no number, asks for nothing.
pub open spec fn requested_object(nodes: Seq<(Seq<char>, Option<Seq<char>>)>) -> Result<
    u64,
    BrowseError,
> {
    match first_named(nodes, "ObjectID"@) {
        Some((_, Some(text))) => match parsed_number(text) {
            Some(object_id) => Ok(object_id),
            None => Err(BrowseError::Protocol),
        },
        _ => Err(BrowseError::Protocol),
    }
}

/// Finds the object that a parsed document asks for.
pub fn object_id_of(nodes: &Vec<XmlNode>) -> (object_id: Result<u64, BrowseError>)
    ensures
        object_id == requested_object(node_views(nodes@)),
{
    let name = "ObjectID".to_owned();
    let ghost views = node_views(nodes@);
    let mut i: usize = 0;
    proof {
        assert(views.skip(0) =~= views);
    }
    while i < nodes.len()
        invariant
            i <= nodes.len(),
            views == node_views(nodes@),
            name@ == "ObjectID"@,
            first_named(views, name@) == first_named(views.skip(i as int), name@),
        decreases nodes.len() - i,
    {
        proof {
            assert(views.skip(i as int).drop_first() =~= views.skip(i + 1));
        }
        if nodes[i].name == name {
            return match &nodes[i].text {
                Some(text) => match parse_number(text.as_str()) {
                    Some(object_id) => Ok(object_id),
                    None => Err(BrowseError::Protocol),
                },
                None => Err(BrowseError::Protocol),
            };
        }
        i += 1;
    }
    Err(BrowseError::Protocol)
}

/// Finds the object that the body of a browse request asks for. The request fails with
/// `Protocol` where the body is no XML document or asks for nothing.
pub fn parse_object_id(body: &str) -> (object_id: Result<u64, BrowseError>)
    ensures
        object_id == match xml_nodes(body@) {
            Some(nodes) => requested_object(nodes),
            None => Err(BrowseError::Protocol),
        },
{
    match parse_nodes(body) {
        Some(nodes) => object_id_of(&nodes),
        None => Err(BrowseError::Protocol),
    }
}

// ---------------------------------------------------------------------------
// The action of a request
// ---------------------------------------------------------------------------

/// How many characters at the start of `text` are `c`.
pub open spec fn count_leading(text: Seq<char>, c: char) -> nat
    decreases text.len(),
{
    if text.len() > 0 && text[0] == c {
        1 + count_leading(text.drop_first(), c)
    } else {
        0
    }
}

/// How many characters at the end of `text` are `c`.
pub open spec fn count_trailing(text: Seq<char>, c: char) -> nat
    decreases text.len(),
{
    if text.len() > 0 && text.last() == c {
        1 + count_trailing(text.drop_last(), c)
    } else {
        0
    }
}

/// Where `c` first stands in `text`; the length of `text` where it does not.
pub open spec fn index_of(text: Seq<char>, c: char) -> nat
    decreases text.len(),
{
    if text.len() > 0 && text[0] != c {
        1 + index_of(text.drop_first(), c)
    } else {
        0
    }
}

/// `text` without the double quotes at its start and at its end.
pub open spec fn unquoted(text: Seq<char>) -> Seq<char> {
    let rest = text.skip(count_leading(text, '"') as int);
    rest.take(rest.len() - count_trailing(rest, '"'))
}

/// The action that a header names: what stands between its first `#` and its second,
/// or its end, once the quotes around the header are taken off. A header without a `#`
/// names no action.
pub open spec fn action_name(header: Seq<char>) -> Seq<char> {
    let name = unquoted(header);
    let first = index_of(name, '#');
    if first == name.len() {
        Seq::empty()
    } else {
        let rest = name.skip(first as int + 1);
        rest.take(index_of(rest, '#') as int)
    }
}

/// `n` characters `c` at the start of `text`, and another character or the end behind
/// them, make the count `n`.
proof fn lemma_count_leading(text: Seq<char>, c: char, n: int)
    requires
        0 <= n <= text.len(),
        forall|i: int| 0 <= i < n ==> text[i] == c,
        n < text.len() ==> text[n] != c,
    ensures
        count_leading(text, c) == n,
    decreases n,
{
    if n > 0 {
        let rest = text.drop_first();
        lemma_count_leading(rest, c, n - 1);
    }
}

/// `n` characters `c` at the end of `text`, and another character or the start before
/// them, make the count `n`.
proof fn lemma_count_trailing(text: Seq<char>, c: char, n: int)
    requires
        0 <= n <= text.len(),
        forall|i: int| text.len() - n <= i < text.len() ==> text[i] == c,
        n < text.len() ==> text[text.len() - n - 1] != c,
    ensures
        count_trailing(text, c) == n,
    decreases n,
{
    if n > 0 {
        let rest = text.drop_last();
        lemma_count_trailing(rest, c, n - 1);
    }
}

/// Where no `c` stands before the position `n`, and `c` or the end of `text` at it, `n`
/// is where `c` first stands.
proof fn lemma_index_of(text: Seq<char>, c: char, n: int)
    requires
        0 <= n <= text.len(),
        forall|i: int| 0 <= i < n ==> text[i] != c,
        n < text.len() ==> text[n] == c,
    ensures
        index_of(text, c) == n,
    decreases n,
{
    if n > 0 {
        let rest = text.drop_first();
        lemma_index_of(rest, c, n - 1);
    }
}

/// Where `c` first stands in `chars` at or after `from`; the length of `chars` where
/// it does not.
fn find_from(chars: &Vec<char>, from: usize, c: char) -> (at: usize)
    requires
        from <= chars.len(),
    ensures
        from <= at <= chars.len(),
        at - from == index_of(chars@.skip(from as int), c),
{
    let mut at = from;
    while at < chars.len() && chars[at] != c
        invariant
            from <= at <= chars.len(),
            forall|i: int| from <= i < at ==> chars[i] != c,
        decreases chars.len() - at,
    {
        at += 1;
    }
    proof {
        lemma_index_of(chars@.skip(from as int), c, at - from);
    }
    at
}

/// Reads the action that a header names.
pub fn soap_action(header: &str) -> (action: String)
    ensures
        action@ == action_name(header@),
{
    let chars = chars_of(header);
    let mut start: usize = 0;
    while start < chars.len() && chars[start] == '"'
        invariant
            start <= chars.len(),
            forall|i: int| 0 <= i < start ==> chars[i] == '"',
        decreases chars.len() - start,
    {
        start += 1;
    }
    let mut end: usize = chars.len();
    while end > start && chars[end - 1] == '"'
        invariant
            start <= end <= chars.len(),
            forall|i: int| end <= i < chars.len() ==> chars[i] == '"',
        decreases end,
    {
        end -= 1;
    }
    let mut name: Vec<char> = Vec::new();
    let mut i: usize = start;
    while i < end
        invariant
            start <= i <= end <= chars.len(),
            name@ == chars@.subrange(start as int, i as int),
        decreases end - i,
    {
        name.push(chars[i]);
        i += 1;
    }
    proof {
        let rest = chars@.skip(start as int);
        lemma_count_leading(chars@, '"', start as int);
        lemma_count_trailing(rest, '"', chars.len() - end);
        assert(name@ =~= unquoted(header@));
    }
    let first = find_from(&name, 0, '#');
    proof {
        assert(name@.skip(0) =~= name@);
    }
    if first == name.len() {
        return String::new();
    }
    let second = find_from(&name, first + 1, '#');
    let mut action: Vec<char> = Vec::new();
    let mut k: usize = first + 1;
    while k < second
        invariant
            first + 1 <= k <= second <= name.len(),
            action@ == name@.subrange(first + 1, k as int),
        decreases second - k,
    {
        action.push(name[k]);
        k += 1;
    }
    text_of(&action)
}

} // verus!
