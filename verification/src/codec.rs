//! Rendering of listings as XML.
//!
//! A listing is written as a DIDL-Lite document. The document, with its markup
//! characters escaped, is the `Result` text of a `BrowseResponse` inside an envelope.

use vstd::prelude::*;
use vstd::string::StringExecFns;
use crate::text::chars_of;
use crate::types::Body;
use crate::types::BrowseResponse;
use crate::types::Container;
use crate::types::ContainerView;
use crate::types::DidlLite;
use crate::types::Envelope;
use crate::types::Item;
use crate::types::ItemView;
use crate::types::ListItem;
use crate::types::ListItemView;
use crate::types::ListItemWrapper;
use crate::types::Res;
use crate::types::ResView;
use crate::types::item_views;
use crate::types::ENVELOPE_ENCODING_STYLE;
use crate::types::XMLNS_CONTENT_DIRECTORY;
use crate::types::XMLNS_DC;
use crate::types::XMLNS_DIDL;
use crate::types::XMLNS_ENVELOPE;
use crate::types::XMLNS_UPNP;

verus! {

// ---------------------------------------------------------------------------
// Escaping
// ---------------------------------------------------------------------------

/// One of the five characters that text and attribute values may not hold as they are.
pub open spec fn is_special(c: char) -> bool {
    c == '<' || c == '>' || c == '&' || c == '\'' || c == '"'
}

/// What stands for `c` in text and in attribute values.
pub open spec fn escape_of(c: char) -> Seq<char> {
    if c == '<' {
        "&lt;"@
    } else if c == '>' {
        "&gt;"@
    } else if c == '&' {
        "&amp;"@
    } else if c == '\'' {
        "&apos;"@
    } else if c == '"' {
        "&quot;"@
    } else {
        seq![c]
    }
}

/// `text` with each special character replaced by its entity.
pub open spec fn xml_escaped(text: Seq<char>) -> Seq<char>
    decreases text.len(),
{
    if text.len() == 0 {
        Seq::empty()
    } else {
        xml_escaped(text.drop_last()) + escape_of(text.last())
    }
}

/// One of the three characters that open and close tags and attribute values.
pub open spec fn is_delimiter(c: char) -> bool {
    c == '<' || c == '>' || c == '"'
}

/// One of the four characters that are escaped in a document that becomes the text of
/// another: the three delimiters, and the `&` that begins an entity.
pub open spec fn is_markup(c: char) -> bool {
    is_delimiter(c) || c == '&'
}

/// What stands for `c` in a document that becomes the text of another.
pub open spec fn markup_escape_of(c: char) -> Seq<char> {
    if c == '<' {
        "&lt;"@
    } else if c == '>' {
        "&gt;"@
    } else if c == '&' {
        "&amp;"@
    } else if c == '"' {
        "&quot;"@
    } else {
        seq![c]
    }
}

/// `text` with `&`, `<`, `>` and `"` replaced by their entities, and nothing else
/// changed.
pub open spec fn markup_escaped(text: Seq<char>) -> Seq<char>
    decreases text.len(),
{
    if text.len() == 0 {
        Seq::empty()
    } else {
        markup_escaped(text.drop_last()) + markup_escape_of(text.last())
    }
}

/// What a reader makes of escaped text: each of the five entities is the character
/// that it stands for, and any other character is itself.
pub open spec fn unescaped(text: Seq<char>) -> Seq<char>
    decreases text.len(),
{
    if text.len() == 0 {
        Seq::empty()
    } else if text.len() >= 4 && text.take(4) == "&lt;"@ {
        seq!['<'] + unescaped(text.skip(4))
    } else if text.len() >= 4 && text.take(4) == "&gt;"@ {
        seq!['>'] + unescaped(text.skip(4))
    } else if text.len() >= 5 && text.take(5) == "&amp;"@ {
        seq!['&'] + unescaped(text.skip(5))
    } else if text.len() >= 6 && text.take(6) == "&apos;"@ {
        seq!['\''] + unescaped(text.skip(6))
    } else if text.len() >= 6 && text.take(6) == "&quot;"@ {
        seq!['"'] + unescaped(text.skip(6))
    } else {
        seq![text[0]] + unescaped(text.skip(1))
    }
}

/// Calls `strong_xml::utils::xml_escape`, which copies its argument but for the bytes of
/// `<`, `>`, `&`, `'` and `"`, in whose place it writes `&lt;`, `&gt;`, `&amp;`, `&apos;`
/// and `&quot;`. None of these bytes occurs inside the encoding of another character.
#[verifier::external_body]
fn xml_escape(raw: &str) -> (escaped: String)
    ensures
        escaped@ == xml_escaped(raw@),
{
    strong_xml::utils::xml_escape(raw).into_owned()
}

/// Escapes the markup characters of `text`.
pub fn escape_markup(text: &str) -> (escaped: String)
    ensures
        escaped@ == markup_escaped(text@),
{
    let chars = chars_of(text);
    let mut escaped = String::new();
    let mut i: usize = 0;
    while i < chars.len()
        invariant
            i <= chars.len(),
            chars@ == text@,
            escaped@ == markup_escaped(chars@.take(i as int)),
        decreases chars.len() - i,
    {
        let c = chars[i];
        proof {
            assert(chars@.take(i + 1).drop_last() =~= chars@.take(i as int));
        }
        if c == '<' {
            escaped.append("&lt;");
        } else if c == '>' {
            escaped.append("&gt;");
        } else if c == '&' {
            escaped.append("&amp;");
        } else if c == '"' {
            escaped.append("&quot;");
        } else {
            escaped.push(c);
        }
        i += 1;
    }
    proof {
        assert(chars@.take(chars.len() as int) =~= chars@);
    }
    escaped
}

/// What stands for a character holds no delimiter; a character that need not be
/// escaped stands for itself.
proof fn lemma_escape_of(c: char)
    ensures
        forall|i: int| 0 <= i < escape_of(c).len() ==> !is_delimiter(#[trigger] escape_of(c)[i]),
        forall|i: int|
            0 <= i < markup_escape_of(c).len() ==> !is_delimiter(
                #[trigger] markup_escape_of(c)[i],
            ),
        !is_special(c) ==> escape_of(c) == seq![c],
        !is_markup(c) ==> markup_escape_of(c) == seq![c],
{
    reveal_strlit("&lt;");
    reveal_strlit("&gt;");
    reveal_strlit("&amp;");
    reveal_strlit("&apos;");
    reveal_strlit("&quot;");
}

/// Escaped text holds none of `<`, `>` and `"`, whatever the text was; and text without
/// characters to escape is not changed by escaping.
pub proof fn lemma_escaped_text(text: Seq<char>)
    ensures
        forall|i: int|
            0 <= i < xml_escaped(text).len() ==> !is_delimiter(#[trigger] xml_escaped(text)[i]),
        forall|i: int|
            0 <= i < markup_escaped(text).len() ==> !is_delimiter(
                #[trigger] markup_escaped(text)[i],
            ),
        (forall|i: int| 0 <= i < text.len() ==> !is_special(#[trigger] text[i])) ==> xml_escaped(
            text,
        ) == text,
        (forall|i: int| 0 <= i < text.len() ==> !is_markup(#[trigger] text[i])) ==> markup_escaped(
            text,
        ) == text,
    decreases text.len(),
{
    if text.len() > 0 {
        lemma_escaped_text(text.drop_last());
        lemma_escape_of(text.last());
        let front = text.drop_last();
        assert forall|i: int| 0 <= i < xml_escaped(text).len() implies !is_delimiter(
            #[trigger] xml_escaped(text)[i],
        ) by {
            if i < xml_escaped(front).len() {
                assert(xml_escaped(text)[i] == xml_escaped(front)[i]);
            } else {
                assert(xml_escaped(text)[i] == escape_of(text.last())[i - xml_escaped(front).len()]);
            }
        }
        assert forall|i: int| 0 <= i < markup_escaped(text).len() implies !is_delimiter(
            #[trigger] markup_escaped(text)[i],
        ) by {
            if i < markup_escaped(front).len() {
                assert(markup_escaped(text)[i] == markup_escaped(front)[i]);
            } else {
                assert(markup_escaped(text)[i] == markup_escape_of(text.last())[i - markup_escaped(
                    front,
                ).len()]);
            }
        }
        if forall|i: int| 0 <= i < text.len() ==> !is_special(#[trigger] text[i]) {
            assert forall|i: int| 0 <= i < front.len() implies !is_special(#[trigger] front[i]) by {
                assert(front[i] == text[i]);
            }
            assert(xml_escaped(text) =~= text);
        }
        if forall|i: int| 0 <= i < text.len() ==> !is_markup(#[trigger] text[i]) {
            assert forall|i: int| 0 <= i < front.len() implies !is_markup(#[trigger] front[i]) by {
                assert(front[i] == text[i]);
            }
            assert(markup_escaped(text) =~= text);
        }
    } else {
        assert(xml_escaped(text) =~= text);
        assert(markup_escaped(text) =~= text);
    }
}

/// What stands for a character is read back as that character, whatever follows it.
proof fn lemma_escape_decodes(c: char, rest: Seq<char>)
    ensures
        unescaped(escape_of(c) + rest) == seq![c] + unescaped(rest),
        unescaped(markup_escape_of(c) + rest) == seq![c] + unescaped(rest),
{
    reveal_strlit("&lt;");
    reveal_strlit("&gt;");
    reveal_strlit("&amp;");
    reveal_strlit("&apos;");
    reveal_strlit("&quot;");
    lemma_entity_decodes(escape_of(c), c, rest);
    lemma_entity_decodes(markup_escape_of(c), c, rest);
}

/// One entity, or one character that is no `&`, is read back as what it stands for.
proof fn lemma_entity_decodes(written: Seq<char>, c: char, rest: Seq<char>)
    requires
        written == escape_of(c) || (written == seq![c] && c != '&'),
    ensures
        unescaped(written + rest) == seq![c] + unescaped(rest),
{
    reveal_strlit("&lt;");
    reveal_strlit("&gt;");
    reveal_strlit("&amp;");
    reveal_strlit("&apos;");
    reveal_strlit("&quot;");
    let text = written + rest;
    let n = written.len() as int;
    assert(text.take(n) =~= written);
    assert(text.skip(n) =~= rest);
    assert(text[0] == written[0]);
    if text.len() >= 4 {
        assert(text.take(4)[0] == text[0] && text.take(4)[1] == text[1] && text.take(4)[2]
            == text[2]);
    }
    if text.len() >= 5 {
        assert(text.take(5)[0] == text[0] && text.take(5)[1] == text[1] && text.take(5)[2]
            == text[2]);
    }
    if text.len() >= 6 {
        assert(text.take(6)[0] == text[0] && text.take(6)[1] == text[1] && text.take(6)[2]
            == text[2]);
    }
    if n >= 3 {
        assert(text[1] == written[1] && text[2] == written[2]);
    }
}

/// Escaping for text goes through a text piece by piece.
pub proof fn lemma_xml_escaped_concat(a: Seq<char>, b: Seq<char>)
    ensures
        xml_escaped(a + b) == xml_escaped(a) + xml_escaped(b),
    decreases b.len(),
{
    if b.len() > 0 {
        assert((a + b).drop_last() =~= a + b.drop_last());
        lemma_xml_escaped_concat(a, b.drop_last());
        assert(xml_escaped(a + b) =~= xml_escaped(a) + xml_escaped(b));
    } else {
        assert(a + b =~= a);
        assert(xml_escaped(a) + xml_escaped(b) =~= xml_escaped(a));
    }
}

/// Escaping for markup goes through a text piece by piece.
pub proof fn lemma_markup_escaped_concat(a: Seq<char>, b: Seq<char>)
    ensures
        markup_escaped(a + b) == markup_escaped(a) + markup_escaped(b),
    decreases b.len(),
{
    if b.len() > 0 {
        assert((a + b).drop_last() =~= a + b.drop_last());
        lemma_markup_escaped_concat(a, b.drop_last());
        assert(markup_escaped(a + b) =~= markup_escaped(a) + markup_escaped(b));
    } else {
        assert(a + b =~= a);
        assert(markup_escaped(a) + markup_escaped(b) =~= markup_escaped(a));
    }
}

/// Escaped text is read back as the text, character for character, whatever the text
/// holds: so is a title in a listing document, and so is a listing document in a
/// response.
pub proof fn lemma_escaping_decodes(text: Seq<char>)
    ensures
        unescaped(xml_escaped(text)) == text,
        unescaped(markup_escaped(text)) == text,
    decreases text.len(),
{
    let nothing = Seq::<char>::empty();
    if text.len() > 0 {
        let first = seq![text[0]];
        let rest = text.drop_first();
        assert(text =~= first + rest);
        assert(first.drop_last() =~= nothing);
        assert(xml_escaped(nothing) =~= nothing && markup_escaped(nothing) =~= nothing);
        assert(first.last() == text[0]);
        assert(xml_escaped(first) =~= escape_of(text[0]));
        assert(markup_escaped(first) =~= markup_escape_of(text[0]));
        lemma_xml_escaped_concat(first, rest);
        lemma_markup_escaped_concat(first, rest);
        lemma_escape_decodes(text[0], xml_escaped(rest));
        lemma_escape_decodes(text[0], markup_escaped(rest));
        lemma_escaping_decodes(rest);
        assert(unescaped(xml_escaped(text)) =~= text);
        assert(unescaped(markup_escaped(text)) =~= text);
    }
}

// ---------------------------------------------------------------------------
// Numbers
// ---------------------------------------------------------------------------

/// The character of a digit below ten.
pub open spec fn digit_char(d: nat) -> char {
    ('0' as u8 + d) as char
}

/// `n` in decimal, without leading zeros.
pub open spec fn decimal(n: nat) -> Seq<char>
    decreases n,
{
    if n < 10 {
        seq![digit_char(n)]
    } else {
        decimal(n / 10).push(digit_char(n % 10))
    }
}

/// The character of a digit below ten.
fn digit_to_char(d: u64) -> (c: char)
    requires
        d < 10,
    ensures
        c == digit_char(d as nat),
{
    ('0' as u8 + d as u8) as char
}

/// Appends `n` in decimal to `out`.
pub fn write_decimal(out: &mut String, n: u64)
    ensures
        final(out)@ == old(out)@ + decimal(n as nat),
    decreases n,
{
    if n >= 10 {
        write_decimal(out, n / 10);
    }
    out.push(digit_to_char(n % 10));
}

/// `n` in decimal.
pub fn decimal_text(n: u64) -> (text: String)
    ensures
        text@ == decimal(n as nat),
{
    let mut text = String::new();
    write_decimal(&mut text, n);
    text
}

// ---------------------------------------------------------------------------
// Elements
// ---------------------------------------------------------------------------

/// An attribute: a space, the key, and the escaped value in double quotes.
pub open spec fn attribute_xml(key: Seq<char>, value: Seq<char>) -> Seq<char> {
    " "@ + key + "=\""@ + xml_escaped(value) + "\""@
}

/// An element that holds text alone.
pub open spec fn text_element_xml(tag: Seq<char>, text: Seq<char>) -> Seq<char> {
    "<"@ + tag + ">"@ + xml_escaped(text) + "</"@ + tag + ">"@
}

/// The element of a resource: how the file is offered, as an attribute, and where, as
/// text.
pub open spec fn res_xml(res: ResView) -> Seq<char> {
    "<res"@ + attribute_xml("protocolInfo"@, res.protocol_info) + ">"@ + xml_escaped(res.content)
        + "</res>"@
}

/// The element of a folder: its ids as attributes, then its title and its class.
pub open spec fn container_xml(container: ContainerView) -> Seq<char> {
    "<container"@ + attribute_xml("id"@, decimal(container.id as nat)) + attribute_xml(
        "parentId"@,
        decimal(container.parent_id as nat),
    ) + ">"@ + text_element_xml("dc:title"@, container.title) + text_element_xml(
        "upnp:class"@,
        container.class,
    ) + "</container>"@
}

/// An item holds its resource first, then its title and its class.
pub open spec fn item_xml(item: ItemView) -> Seq<char> {
    "<item"@ + attribute_xml("id"@, decimal(item.id as nat)) + attribute_xml(
        "parentId"@,
        decimal(item.parent_id as nat),
    ) + ">"@ + res_xml(item.res) + text_element_xml("dc:title"@, item.title) + text_element_xml(
        "upnp:class"@,
        item.class,
    ) + "</item>"@
}

/// The element of an object.
pub open spec fn list_item_xml(item: ListItemView) -> Seq<char> {
    match item {
        ListItemView::Container(container) => container_xml(container),
        ListItemView::Item(item) => item_xml(item),
    }
}

/// The elements of `items`, one after the other.
pub open spec fn list_items_xml(items: Seq<ListItemView>) -> Seq<char>
    decreases items.len(),
{
    if items.len() == 0 {
        Seq::empty()
    } else {
        list_items_xml(items.drop_last()) + list_item_xml(items.last())
    }
}

/// A listing document. Without objects it is a single empty element.
pub open spec fn didl_xml(
    xmlns_dc: Seq<char>,
    xmlns_upnp: Seq<char>,
    xmlns: Seq<char>,
    items: Seq<ListItemView>,
) -> Seq<char> {
    let start = "<DIDL-Lite"@ + attribute_xml("xmlns:dc"@, xmlns_dc) + attribute_xml(
        "xmlns:upnp"@,
        xmlns_upnp,
    ) + attribute_xml("xmlns"@, xmlns);
    if items.len() == 0 {
        start + "/>"@
    } else {
        start + ">"@ + list_items_xml(items) + "</DIDL-Lite>"@
    }
}

/// An envelope up to the point where the text of `Result` begins. The envelope declares
/// the prefix `s` of its own elements, and the body the prefix `u` of the response.
pub open spec fn envelope_head_xml(
    xmlns: Seq<char>,
    encoding_style: Seq<char>,
    body_xmlns: Seq<char>,
) -> Seq<char> {
    "<s:Envelope"@ + attribute_xml("xmlns:s"@, xmlns) + attribute_xml(
        "s:encodingStyle"@,
        encoding_style,
    ) + ">"@ + "<s:Body"@ + attribute_xml("xmlns:u"@, body_xmlns) + ">"@ + "<u:BrowseResponse>"@
        + "<Result>"@
}

/// An envelope from the point where the text of `Result` has ended.
pub open spec fn envelope_tail_xml(number_returned: u64, total_matches: u64, update_id: u64) -> Seq<
    char,
> {
    "</Result>"@ + text_element_xml("NumberReturned"@, decimal(number_returned as nat))
        + text_element_xml("TotalMatches"@, decimal(total_matches as nat)) + text_element_xml(
        "UpdateID"@,
        decimal(update_id as nat),
    ) + "</u:BrowseResponse>"@ + "</s:Body>"@ + "</s:Envelope>"@
}

/// Appends an attribute to `out`.
fn write_attribute(out: &mut String, key: &str, value: &str)
    ensures
        final(out)@ == old(out)@ + attribute_xml(key@, value@),
{
    let escaped = xml_escape(value);
    out.append(" ");
    out.append(key);
    out.append("=\"");
    out.append(escaped.as_str());
    out.append("\"");
}

/// Appends an element that holds text alone to `out`.
fn write_text_element(out: &mut String, tag: &str, text: &str)
    ensures
        final(out)@ == old(out)@ + text_element_xml(tag@, text@),
{
    let escaped = xml_escape(text);
    out.append("<");
    out.append(tag);
    out.append(">");
    out.append(escaped.as_str());
    out.append("</");
    out.append(tag);
    out.append(">");
    proof {
        assert(final(out)@ =~= old(out)@ + text_element_xml(tag@, text@));
    }
}

impl Res {
    /// Appends the element of this resource to `out`.
    pub fn write_xml(&self, out: &mut String)
        ensures
            final(out)@ == old(out)@ + res_xml(self@),
    {
        let escaped = xml_escape(self.content.as_str());
        out.append("<res");
        write_attribute(out, "protocolInfo", self.protocol_info.as_str());
        out.append(">");
        out.append(escaped.as_str());
        out.append("</res>");
    }
}

impl Container {
    /// Appends the element of this folder to `out`.
    pub fn write_xml(&self, out: &mut String)
        ensures
            final(out)@ == old(out)@ + container_xml(self@),
    {
        let id = decimal_text(self.id);
        let parent_id = decimal_text(self.parent_id);
        out.append("<container");
        write_attribute(out, "id", id.as_str());
        write_attribute(out, "parentId", parent_id.as_str());
        out.append(">");
        write_text_element(out, "dc:title", self.title.as_str());
        write_text_element(out, "upnp:class", self.class.as_str());
        out.append("</container>");
    }
}

impl Item {
    /// Appends the element of this media file to `out`.
    pub fn write_xml(&self, out: &mut String)
        ensures
            final(out)@ == old(out)@ + item_xml(self@),
    {
        let id = decimal_text(self.id);
        let parent_id = decimal_text(self.parent_id);
        out.append("<item");
        write_attribute(out, "id", id.as_str());
        write_attribute(out, "parentId", parent_id.as_str());
        out.append(">");
        self.res.write_xml(out);
        write_text_element(out, "dc:title", self.title.as_str());
        write_text_element(out, "upnp:class", self.class.as_str());
        out.append("</item>");
    }
}

impl ListItem {
    /// Appends the element of this object to `out`.
    pub fn write_xml(&self, out: &mut String)
        ensures
            final(out)@ == old(out)@ + list_item_xml(self@),
    {
        match self {
            ListItem::Container(container) => container.write_xml(out),
            ListItem::Item(item) => item.write_xml(out),
        }
    }
}

impl DidlLite {
    /// The document as text.
    pub open spec fn xml(&self) -> Seq<char> {
        didl_xml(self.xmlns_dc@, self.xmlns_upnp@, self.xmlns@, item_views(self.list_items@))
    }

    /// The document as text.
    pub fn to_xml(&self) -> (text: String)
        ensures
            text@ == self.xml(),
    {
        let mut out = String::new();
        out.append("<DIDL-Lite");
        write_attribute(&mut out, "xmlns:dc", self.xmlns_dc.as_str());
        write_attribute(&mut out, "xmlns:upnp", self.xmlns_upnp.as_str());
        write_attribute(&mut out, "xmlns", self.xmlns.as_str());
        let ghost start = out@;
        let ghost views = item_views(self.list_items@);
        if self.list_items.len() == 0 {
            out.append("/>");
            return out;
        }
        out.append(">");
        let mut i: usize = 0;
        while i < self.list_items.len()
            invariant
                i <= self.list_items.len(),
                views == item_views(self.list_items@),
                out@ == start + ">"@ + list_items_xml(views.take(i as int)),
            decreases self.list_items.len() - i,
        {
            proof {
                assert(views.take(i + 1).drop_last() =~= views.take(i as int));
            }
            self.list_items[i].write_xml(&mut out);
            i += 1;
        }
        out.append("</DIDL-Lite>");
        proof {
            assert(views.take(views.len() as int) =~= views);
        }
        out
    }
}

impl Envelope {
    /// The envelope as text. The text of `Result` is the field `result` with its markup
    /// characters escaped.
    pub open spec fn xml(&self) -> Seq<char> {
        envelope_head_xml(self.xmlns@, self.encoding_style@, self.body.xmlns@) + markup_escaped(
            self.body.browse_response.result@,
        ) + envelope_tail_xml(
            self.body.browse_response.number_returned,
            self.body.browse_response.total_matches,
            self.body.browse_response.update_id,
        )
    }

    /// The envelope as text.
    pub fn to_xml(&self) -> (text: String)
        ensures
            text@ == self.xml(),
    {
        let response = &self.body.browse_response;
        let result = escape_markup(response.result.as_str());
        let number_returned = decimal_text(response.number_returned);
        let total_matches = decimal_text(response.total_matches);
        let update_id = decimal_text(response.update_id);
        let mut out = String::new();
        out.append("<s:Envelope");
        write_attribute(&mut out, "xmlns:s", self.xmlns.as_str());
        write_attribute(&mut out, "s:encodingStyle", self.encoding_style.as_str());
        out.append(">");
        out.append("<s:Body");
        write_attribute(&mut out, "xmlns:u", self.body.xmlns.as_str());
        out.append(">");
        out.append("<u:BrowseResponse>");
        out.append("<Result>");
        out.append(result.as_str());
        out.append("</Result>");
        write_text_element(&mut out, "NumberReturned", number_returned.as_str());
        write_text_element(&mut out, "TotalMatches", total_matches.as_str());
        write_text_element(&mut out, "UpdateID", update_id.as_str());
        out.append("</u:BrowseResponse>");
        out.append("</s:Body>");
        out.append("</s:Envelope>");
        out
    }
}

/// The objects of a sequence of catalog entries.
pub open spec fn listed_items(entries: Seq<ListItemWrapper>) -> Seq<ListItemView> {
    entries.map_values(|entry: ListItemWrapper| entry.list_item@)
}

/// The response to a browse request that lists `items`: the listing document, escaped,
/// inside the envelope. The three counters are 1 whatever is listed.
pub open spec fn browse_response_xml(items: Seq<ListItemView>) -> Seq<char> {
    envelope_head_xml(XMLNS_ENVELOPE@, ENVELOPE_ENCODING_STYLE@, XMLNS_CONTENT_DIRECTORY@)
        + markup_escaped(didl_xml(XMLNS_DC@, XMLNS_UPNP@, XMLNS_DIDL@, items)) + envelope_tail_xml(
        1,
        1,
        1,
    )
}

/// Renders the response to a browse request that lists `list_items`, in their order.
pub fn get_browse_response(list_items: &Vec<ListItemWrapper>) -> (text: String)
    ensures
        text@ == browse_response_xml(listed_items(list_items@)),
{
    let mut items: Vec<ListItem> = Vec::new();
    let mut i: usize = 0;
    while i < list_items.len()
        invariant
            i <= list_items.len(),
            items.len() == i,
            forall|k: int| 0 <= k < i ==> (#[trigger] items[k])@ == list_items[k].list_item@,
        decreases list_items.len() - i,
    {
        items.push(list_items[i].list_item.duplicate());
        i += 1;
    }
    proof {
        assert(item_views(items@) =~= listed_items(list_items@));
    }
    let didl_result = DidlLite {
        xmlns_dc: XMLNS_DC.to_owned(),
        xmlns_upnp: XMLNS_UPNP.to_owned(),
        xmlns: XMLNS_DIDL.to_owned(),
        list_items: items,
    };
    let response = Envelope {
        encoding_style: ENVELOPE_ENCODING_STYLE.to_owned(),
        xmlns: XMLNS_ENVELOPE.to_owned(),
        body: Body {
            xmlns: XMLNS_CONTENT_DIRECTORY.to_owned(),
            browse_response: BrowseResponse {
                number_returned: 1,
                total_matches: 1,
                update_id: 1,
                result: didl_result.to_xml(),
            },
        },
    };
    response.to_xml()
}

/// What a response holds of an element with a plain text, such as the title of an
/// object whose title holds no special character: the text as it is, between the
/// escaped tags.
pub proof fn lemma_plain_text_in_response(tag: Seq<char>, text: Seq<char>)
    requires
        forall|i: int| 0 <= i < tag.len() ==> !is_special(#[trigger] tag[i]),
        forall|i: int| 0 <= i < text.len() ==> !is_special(#[trigger] text[i]),
    ensures
        markup_escaped(text_element_xml(tag, text)) == "&lt;"@ + tag + "&gt;"@ + text + "&lt;/"@
            + tag + "&gt;"@,
{
    lemma_escaped_text(text);
    lemma_escaped_text(tag);
    let open = "<"@;
    let close = ">"@;
    let end = "</"@;
    reveal_strlit("<");
    reveal_strlit(">");
    reveal_strlit("</");
    reveal_strlit("&lt;");
    reveal_strlit("&lt;/");
    let nothing = Seq::<char>::empty();
    assert(markup_escaped(nothing) =~= nothing);
    assert(open.drop_last() =~= nothing && close.drop_last() =~= nothing);
    assert(end.drop_last() =~= open);
    lemma_markup_escaped_concat(open, tag);
    lemma_markup_escaped_concat(open + tag, close);
    lemma_markup_escaped_concat(open + tag + close, text);
    lemma_markup_escaped_concat(open + tag + close + text, end);
    lemma_markup_escaped_concat(open + tag + close + text + end, tag);
    lemma_markup_escaped_concat(open + tag + close + text + end + tag, close);
}

/// What a response holds of a text such as a title: the text escaped twice over. That
/// holds none of `<`, `>` and `"`; a reader who decodes the text of `Result` and then
/// the text of the element has the title again, character for character; and it is
/// the text itself where the text holds no special character.
pub proof fn lemma_text_in_response(text: Seq<char>)
    ensures
        forall|i: int|
            0 <= i < markup_escaped(xml_escaped(text)).len() ==> !is_delimiter(
                #[trigger] markup_escaped(xml_escaped(text))[i],
            ),
        unescaped(unescaped(markup_escaped(xml_escaped(text)))) == text,
        (forall|i: int| 0 <= i < text.len() ==> !is_special(#[trigger] text[i]))
            ==> markup_escaped(xml_escaped(text)) == text,
{
    lemma_escaped_text(text);
    lemma_escaped_text(xml_escaped(text));
    lemma_escaping_decodes(text);
    lemma_escaping_decodes(xml_escaped(text));
    if forall|i: int| 0 <= i < text.len() ==> !is_special(#[trigger] text[i]) {
        assert forall|i: int| 0 <= i < text.len() implies !is_markup(#[trigger] text[i]) by {
            assert(!is_special(text[i]));
        }
    }
}

/// A response is the envelope around the escaped listing document, and a reader who
/// decodes the text of `Result` has the document again.
pub proof fn lemma_result_decodes(items: Seq<ListItemView>)
    ensures
        browse_response_xml(items) == envelope_head_xml(
            XMLNS_ENVELOPE@,
            ENVELOPE_ENCODING_STYLE@,
            XMLNS_CONTENT_DIRECTORY@,
        ) + markup_escaped(didl_xml(XMLNS_DC@, XMLNS_UPNP@, XMLNS_DIDL@, items))
            + envelope_tail_xml(1, 1, 1),
        unescaped(markup_escaped(didl_xml(XMLNS_DC@, XMLNS_UPNP@, XMLNS_DIDL@, items)))
            == didl_xml(XMLNS_DC@, XMLNS_UPNP@, XMLNS_DIDL@, items),
{
    lemma_escaping_decodes(didl_xml(XMLNS_DC@, XMLNS_UPNP@, XMLNS_DIDL@, items));
}

} // verus!
