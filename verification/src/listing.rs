//! The listing of one directory: which of its children are shown, as what, under which
//! ids and in which order.

use vstd::prelude::*;
use vstd::string::StringExecFns;
use vstd::utf8::decode_utf8;
use vstd::utf8::encode_utf8;
use vstd::utf8::encode_utf8_decode_utf8;
use vstd::utf8::is_ascii_chars;
use vstd::utf8::is_ascii_chars_encode_utf8;
use crate::natural_order::lemma_natural_order_is_strict_weak;
use crate::catalog::BrowseError;
use crate::natural_order::all_well_formed;
use crate::natural_order::name_keys;
use crate::natural_order::natural_order;
use crate::natural_order::natural_sign;
use crate::natural_order::order_tokens;
use crate::natural_order::token_keys;
use crate::natural_order::tokens_of;
use crate::natural_order::Token;
use crate::text::chars_of;
use crate::types::entry_views;
use crate::types::Container;
use crate::types::ContainerView;
use crate::types::EntryView;
use crate::types::Item;
use crate::types::ItemView;
use crate::types::ListItem;
use crate::types::ListItemView;
use crate::types::ListItemWrapper;
use crate::types::Res;
use crate::types::ResView;
use crate::types::CLASS_FOLDER;
use crate::types::CLASS_VIDEO;

verus! {

broadcast use vstd::seq_lib::group_to_multiset_ensures;

/// How every media file is offered.
pub const MEDIA_PROTOCOL_INFO: &'static str = "http-get:*:video/x-matroska:*";

// ---------------------------------------------------------------------------
// Percent-encoding of paths
// ---------------------------------------------------------------------------

/// The bytes that are written as `%` and two hexadecimal digits: those that are not
/// ASCII, the control characters, the space, and `"`, `<`, `>`, `` ` ``, `[` and `]`;
/// and `%`, `#` and `?`, which would not come back as they are from an address.
pub open spec fn must_encode(byte: u8) -> bool {
    byte >= 0x80 || byte < 0x20 || byte == 0x7f || byte == 0x20 || byte == 0x22 || byte == 0x3c
        || byte == 0x3e || byte == 0x60 || byte == 0x5b || byte == 0x5d || byte == 0x25 || byte
        == 0x23 || byte == 0x3f
}

/// The character of a hexadecimal digit, in upper case.
pub open spec fn hex_digit(d: int) -> char {
    if d < 10 {
        ('0' as u8 + d) as char
    } else {
        ('A' as u8 + d - 10) as char
    }
}

/// A byte written as `%` and its two hexadecimal digits.
pub open spec fn percent_byte(byte: u8) -> Seq<char> {
    seq!['%', hex_digit(byte as int / 16), hex_digit(byte as int % 16)]
}

/// What is written for a byte.
pub open spec fn encoded_byte(byte: u8) -> Seq<char> {
    if must_encode(byte) {
        percent_byte(byte)
    } else {
        seq![byte as char]
    }
}

/// `bytes` with each byte that must be encoded written as `%` and two digits, and the
/// others as the ASCII characters they are.
pub open spec fn percent_encoded(bytes: Seq<u8>) -> Seq<char>
    decreases bytes.len(),
{
    if bytes.len() == 0 {
        Seq::empty()
    } else {
        percent_encoded(bytes.drop_last()) + encoded_byte(bytes.last())
    }
}

/// `percent_encoding::percent_encode_byte` returns the three characters of its table
/// for the byte: `%` and the two hexadecimal digits of the byte, in upper case.
pub assume_specification[ percent_encoding::percent_encode_byte ](byte: u8) -> (text: &'static str)
    ensures
        text@ == percent_byte(byte),
;

/// Tells whether a byte is written as `%` and two digits.
fn needs_encoding(byte: u8) -> (encode: bool)
    ensures
        encode == must_encode(byte),
{
    byte >= 0x80 || byte < 0x20 || byte == 0x7f || byte == 0x20 || byte == 0x22 || byte == 0x3c
        || byte == 0x3e || byte == 0x60 || byte == 0x5b || byte == 0x5d || byte == 0x25 || byte
        == 0x23 || byte == 0x3f
}

/// The value of the byte of a hexadecimal digit, in either case.
pub open spec fn hex_value(byte: u8) -> Option<int> {
    if 0x30 <= byte <= 0x39 {
        Some(byte - 0x30)
    } else if 0x41 <= byte <= 0x46 {
        Some(byte - 0x41 + 10)
    } else if 0x61 <= byte <= 0x66 {
        Some(byte - 0x61 + 10)
    } else {
        None
    }
}

/// The bytes that the bytes of a percent-encoded text stand for: a `%` with two
/// hexadecimal digits behind it stands for the byte that the digits write, and any
/// other byte for itself.
pub open spec fn percent_decoded(bytes: Seq<u8>) -> Seq<u8>
    decreases bytes.len(),
{
    if bytes.len() == 0 {
        Seq::empty()
    } else if bytes[0] == 0x25 && bytes.len() >= 3 && hex_value(bytes[1]) is Some && hex_value(
        bytes[2],
    ) is Some {
        seq![(hex_value(bytes[1])->0 * 16 + hex_value(bytes[2])->0) as u8] + percent_decoded(
            bytes.skip(3),
        )
    } else {
        seq![bytes[0]] + percent_decoded(bytes.skip(1))
    }
}

/// The bytes of a text of ASCII characters.
pub open spec fn ascii_bytes(text: Seq<char>) -> Seq<u8> {
    text.map_values(|c: char| c as u8)
}

/// Encoding goes through the bytes piece by piece.
pub proof fn lemma_percent_encoded_concat(a: Seq<u8>, b: Seq<u8>)
    ensures
        percent_encoded(a + b) == percent_encoded(a) + percent_encoded(b),
    decreases b.len(),
{
    if b.len() > 0 {
        assert((a + b).drop_last() =~= a + b.drop_last());
        lemma_percent_encoded_concat(a, b.drop_last());
        assert(percent_encoded(a + b) =~= percent_encoded(a) + percent_encoded(b));
    } else {
        assert(a + b =~= a);
        assert(percent_encoded(a) + percent_encoded(b) =~= percent_encoded(a));
    }
}

/// What is written for a byte is ASCII, and is read back as that byte, whatever
/// follows it.
pub proof fn lemma_encoded_byte_decodes(byte: u8, rest: Seq<u8>)
    ensures
        is_ascii_chars(encoded_byte(byte)),
        percent_decoded(ascii_bytes(encoded_byte(byte)) + rest) == seq![byte] + percent_decoded(
            rest,
        ),
{
    let written = ascii_bytes(encoded_byte(byte));
    let bytes = written + rest;
    if must_encode(byte) {
        let high = byte as int / 16;
        let low = byte as int % 16;
        assert(bytes[0] == written[0] && bytes[1] == written[1] && bytes[2] == written[2]);
        assert(written[0] == 0x25);
        assert(hex_value(written[1]) == Some(high));
        assert(hex_value(written[2]) == Some(low));
        assert(bytes.skip(3) =~= rest);
    } else {
        assert(bytes[0] == written[0]);
        assert(written[0] == byte);
        assert(bytes.skip(1) =~= rest);
    }
}

/// An encoded path is ASCII, and its bytes are read back as the bytes of the path; it
/// holds no space and none of `"`, `<`, `>`, `#` and `?`.
pub proof fn lemma_encoded_path_decodes(bytes: Seq<u8>)
    ensures
        is_ascii_chars(percent_encoded(bytes)),
        encode_utf8(percent_encoded(bytes)) == ascii_bytes(percent_encoded(bytes)),
        percent_decoded(encode_utf8(percent_encoded(bytes))) == bytes,
        forall|i: int|
            0 <= i < percent_encoded(bytes).len() ==> {
                let c = #[trigger] percent_encoded(bytes)[i];
                c != ' ' && c != '"' && c != '<' && c != '>' && c != '#' && c != '?'
            },
    decreases bytes.len(),
{
    let encoded = percent_encoded(bytes);
    if bytes.len() > 0 {
        let first = seq![bytes[0]];
        let rest = bytes.drop_first();
        let front = percent_encoded(bytes.drop_last());
        let last = encoded_byte(bytes.last());
        lemma_encoded_path_decodes(rest);
        lemma_encoded_path_decodes(bytes.drop_last());
        lemma_encoded_byte_decodes(bytes.last(), Seq::<u8>::empty());
        assert forall|i: int| 0 <= i < encoded.len() implies {
            let c = #[trigger] encoded[i];
            '\0' <= c <= '\u{7f}' && c != ' ' && c != '"' && c != '<' && c != '>' && c != '#' && c
                != '?'
        } by {
            if i < front.len() {
                assert(encoded[i] == front[i]);
            } else {
                assert(encoded[i] == last[i - front.len()]);
            }
        }
        is_ascii_chars_encode_utf8(encoded);
        assert(encode_utf8(encoded) =~= ascii_bytes(encoded));
        assert(bytes =~= first + rest);
        lemma_percent_encoded_concat(first, rest);
        assert(first.drop_last() =~= Seq::<u8>::empty());
        assert(percent_encoded(Seq::<u8>::empty()) =~= Seq::<char>::empty());
        assert(first.last() == bytes[0]);
        assert(percent_encoded(first) =~= encoded_byte(bytes[0]));
        assert(ascii_bytes(encoded) =~= ascii_bytes(encoded_byte(bytes[0])) + ascii_bytes(
            percent_encoded(rest),
        ));
        lemma_encoded_byte_decodes(bytes[0], ascii_bytes(percent_encoded(rest)));
        assert(percent_decoded(ascii_bytes(encoded)) =~= bytes);
    } else {
        is_ascii_chars_encode_utf8(encoded);
        assert(encode_utf8(encoded) =~= ascii_bytes(encoded));
    }
}

/// The value of the byte of a hexadecimal digit, if it is one.
fn hex_value_of(byte: u8) -> (value: Option<u8>)
    ensures
        match value {
            Some(value) => hex_value(byte) == Some(value as int),
            None => hex_value(byte) is None,
        },
{
    if 0x30 <= byte && byte <= 0x39 {
        Some(byte - 0x30)
    } else if 0x41 <= byte && byte <= 0x46 {
        Some(byte - 0x41 + 10)
    } else if 0x61 <= byte && byte <= 0x66 {
        Some(byte - 0x61 + 10)
    } else {
        None
    }
}

/// Reads the bytes that a percent-encoded text stands for. For what follows
/// `/agni-files/` in the address of a media file these are the bytes of its path.
pub fn decode_path(text: &str) -> (decoded: Vec<u8>)
    ensures
        decoded@ == percent_decoded(encode_utf8(text@)),
{
    let bytes = text.as_bytes();
    let mut decoded: Vec<u8> = Vec::new();
    let mut i: usize = 0;
    proof {
        assert(bytes@.skip(0) =~= bytes@);
    }
    while i < bytes.len()
        invariant
            i <= bytes.len(),
            bytes@ == encode_utf8(text@),
            decoded@ + percent_decoded(bytes@.skip(i as int)) == percent_decoded(bytes@),
        decreases bytes.len() - i,
    {
        let ghost left = bytes@.skip(i as int);
        let ghost before = decoded@;
        proof {
            assert(left[0] == bytes[i as int]);
        }
        let mut step: usize = 1;
        let mut byte = bytes[i];
        if byte == 0x25 && bytes.len() - i >= 3 {
            proof {
                assert(left[1] == bytes[i + 1] && left[2] == bytes[i + 2]);
            }
            match (hex_value_of(bytes[i + 1]), hex_value_of(bytes[i + 2])) {
                (Some(high), Some(low)) => {
                    byte = high * 16 + low;
                    step = 3;
                },
                _ => {},
            }
        }
        decoded.push(byte);
        proof {
            assert(left.skip(step as int) =~= bytes@.skip(i + step));
            assert(percent_decoded(left) == seq![byte] + percent_decoded(left.skip(step as int)));
            assert(decoded@ + percent_decoded(bytes@.skip(i + step)) =~= before + percent_decoded(
                left,
            ));
        }
        i += step;
    }
    proof {
        assert(percent_decoded(bytes@.skip(bytes.len() as int)) =~= Seq::<u8>::empty());
        assert(decoded@ + Seq::<u8>::empty() =~= decoded@);
    }
    decoded
}

/// Percent-encodes the UTF-8 bytes of `path`.
pub fn encode_path(path: &str) -> (encoded: String)
    ensures
        encoded@ == percent_encoded(encode_utf8(path@)),
{
    let bytes = path.as_bytes();
    let mut encoded = String::new();
    let mut i: usize = 0;
    while i < bytes.len()
        invariant
            i <= bytes.len(),
            bytes@ == encode_utf8(path@),
            encoded@ == percent_encoded(bytes@.take(i as int)),
        decreases bytes.len() - i,
    {
        let byte = bytes[i];
        proof {
            assert(bytes@.take(i + 1).drop_last() =~= bytes@.take(i as int));
        }
        if needs_encoding(byte) {
            encoded.append(percent_encoding::percent_encode_byte(byte));
        } else {
            encoded.push(byte as char);
        }
        i += 1;
    }
    proof {
        assert(bytes@.take(bytes.len() as int) =~= bytes@);
    }
    encoded
}

/// The address under which the file at `path` is served by `host`.
pub open spec fn media_url(host: Seq<char>, path: Seq<char>) -> Seq<char> {
    "http://"@ + host + ":3030/agni-files/"@ + percent_encoded(encode_utf8(path))
}

/// What follows `/agni-files/` in the address of a media file is read back as the
/// path of the file, character for character, whatever the path holds.
pub proof fn lemma_media_url_names_the_path(path: Seq<char>)
    ensures
        decode_utf8(percent_decoded(encode_utf8(percent_encoded(encode_utf8(path))))) == path,
{
    lemma_encoded_path_decodes(encode_utf8(path));
    encode_utf8_decode_utf8(path);
}

// ---------------------------------------------------------------------------
// Children
// ---------------------------------------------------------------------------

/// What a child of a directory is.
#[derive(PartialEq, Eq, Debug, Clone, Copy)]
pub enum ChildKind {
    Directory,
    File,
    /// Neither a directory nor a regular file, or of a kind that could not be told.
    Other,
}

/// A child of a directory, as the scan of the directory found it.
#[derive(PartialEq, Debug, Clone)]
pub struct Child {
    /// The name of the child inside the directory.
    pub name: String,
    /// The absolute path of the child.
    pub path: String,
    pub kind: ChildKind,
}

/// A child of a directory, with its name and its path as texts.
pub struct ChildView {
    pub name: Seq<char>,
    pub path: Seq<char>,
    pub kind: ChildKind,
}

impl View for Child {
    type V = ChildView;

    open spec fn view(&self) -> ChildView {
        ChildView { name: self.name@, path: self.path@, kind: self.kind }
    }
}

/// The views of a sequence of children.
pub open spec fn child_views(children: Seq<Child>) -> Seq<ChildView> {
    children.map_values(|child: Child| child@)
}

/// `text` ends in `suffix`.
pub open spec fn has_suffix(text: Seq<char>, suffix: Seq<char>) -> bool {
    text.len() >= suffix.len() && text.skip(text.len() - suffix.len()) == suffix
}

/// The name of a media file: one that ends in `.mp4` or in `.mkv`, in lower case.
pub open spec fn is_media_name(name: Seq<char>) -> bool {
    has_suffix(name, ".mp4"@) || has_suffix(name, ".mkv"@)
}

/// Tells whether `text` ends in `suffix`.
pub fn ends_with(text: &Vec<char>, suffix: &Vec<char>) -> (ends: bool)
    ensures
        ends == has_suffix(text@, suffix@),
{
    if text.len() < suffix.len() {
        return false;
    }
    let start = text.len() - suffix.len();
    let ghost tail = text@.skip(start as int);
    let mut i: usize = 0;
    while i < suffix.len()
        invariant
            i <= suffix.len(),
            start == text.len() - suffix.len(),
            tail == text@.skip(start as int),
            forall|k: int| 0 <= k < i ==> tail[k] == suffix[k],
        decreases suffix.len() - i,
    {
        if text[start + i] != suffix[i] {
            return false;
        }
        i += 1;
    }
    proof {
        assert(tail =~= suffix@);
    }
    true
}

/// Tells whether a file of this name is shown as a media file.
pub fn is_media_file(name: &str) -> (media: bool)
    ensures
        media == is_media_name(name@),
{
    let chars = chars_of(name);
    let mp4 = chars_of(".mp4");
    let mkv = chars_of(".mkv");
    ends_with(&chars, &mp4) || ends_with(&chars, &mkv)
}

/// The folder that stands for the directory `child`.
pub open spec fn folder_entry(child: ChildView, parent_id: u64, id: u64) -> EntryView {
    EntryView {
        list_item: ListItemView::Container(
            ContainerView { id, parent_id, title: child.name, class: CLASS_FOLDER@ },
        ),
        id,
        dir: Some(child.path),
    }
}

/// The media file that stands for the file `child`.
pub open spec fn media_entry(host: Seq<char>, child: ChildView, parent_id: u64, id: u64) -> EntryView {
    EntryView {
        list_item: ListItemView::Item(
            ItemView {
                id,
                parent_id,
                title: child.name,
                class: CLASS_VIDEO@,
                res: ResView {
                    protocol_info: MEDIA_PROTOCOL_INFO@,
                    content: media_url(host, child.path),
                },
            },
        ),
        id,
        dir: None,
    }
}

/// What is shown for `child`, if anything: a folder for a directory, a media file for a
/// regular file with the name of one, and nothing for anything else.
pub open spec fn child_entry(host: Seq<char>, child: ChildView, parent_id: u64, id: u64) -> Option<
    EntryView,
> {
    match child.kind {
        ChildKind::Directory => Some(folder_entry(child, parent_id, id)),
        ChildKind::File => if is_media_name(child.name) {
            Some(media_entry(host, child, parent_id, id))
        } else {
            None
        },
        ChildKind::Other => None,
    }
}

/// The id of the child at the position `at`, where the first child has the id
/// `first_id`.
pub open spec fn child_id(first_id: u64, at: int) -> u64 {
    (first_id + at) as u64
}

/// Whether anything is shown for `child`.
pub open spec fn is_shown(child: ChildView) -> bool {
    child.kind == ChildKind::Directory || (child.kind == ChildKind::File && is_media_name(
        child.name,
    ))
}

/// How many of `children` are shown.
pub open spec fn shown_count(children: Seq<ChildView>) -> nat
    decreases children.len(),
{
    if children.len() == 0 {
        0
    } else if is_shown(children.last()) {
        shown_count(children.drop_last()) + 1
    } else {
        shown_count(children.drop_last())
    }
}

/// What is shown for `children`, in their order. The child at position `i` has the id
/// `first_id + i` to itself, whether it is shown or not.
pub open spec fn scanned_entries(
    host: Seq<char>,
    children: Seq<ChildView>,
    parent_id: u64,
    first_id: u64,
) -> Seq<EntryView>
    decreases children.len(),
{
    if children.len() == 0 {
        Seq::empty()
    } else {
        let front = scanned_entries(host, children.drop_last(), parent_id, first_id);
        let id = child_id(first_id, children.len() - 1);
        match child_entry(host, children.last(), parent_id, id) {
            Some(entry) => front.push(entry),
            None => front,
        }
    }
}

/// The ids of what is shown are those of the children shown: they grow along the
/// sequence and lie from `first_id` on, below `first_id` plus the number of children.
/// Every entry carries its own id and that of the directory listed, and has a directory
/// behind it exactly where it is a folder.
pub proof fn lemma_scanned_entries(
    host: Seq<char>,
    children: Seq<ChildView>,
    parent_id: u64,
    first_id: u64,
)
    requires
        first_id + children.len() <= u64::MAX,
    ensures
        scanned_entries(host, children, parent_id, first_id).len() <= children.len(),
        forall|k: int|
            0 <= k < scanned_entries(host, children, parent_id, first_id).len() ==> {
                let entry = #[trigger] scanned_entries(host, children, parent_id, first_id)[k];
                &&& first_id <= entry.id < first_id + children.len()
                &&& entry.list_item.id() == entry.id
                &&& entry.list_item.parent_id() == parent_id
                &&& entry.list_item is Container <==> entry.dir is Some
            },
        forall|j: int, k: int|
            0 <= j < k < scanned_entries(host, children, parent_id, first_id).len()
                ==> scanned_entries(host, children, parent_id, first_id)[j].id < scanned_entries(
                host,
                children,
                parent_id,
                first_id,
            )[k].id,
    decreases children.len(),
{
    if children.len() > 0 {
        lemma_scanned_entries(host, children.drop_last(), parent_id, first_id);
    }
}

/// Something is shown for `child` under the id `id`, and `entries` hold it.
pub open spec fn has_its_entry(
    entries: Seq<EntryView>,
    host: Seq<char>,
    child: ChildView,
    parent_id: u64,
    id: u64,
) -> bool {
    let shown = child_entry(host, child, parent_id, id);
    shown is Some && entries.contains(shown->0)
}

/// `entry` is what is shown for one of `children`: a folder for a directory, or a media
/// file for a regular file with the name of one, with the name of the child as its
/// title.
pub open spec fn stands_for_a_child(
    entry: EntryView,
    host: Seq<char>,
    children: Seq<ChildView>,
    parent_id: u64,
    first_id: u64,
) -> bool {
    exists|i: int|
        0 <= i < children.len() && is_shown(#[trigger] children[i]) && child_entry(
            host,
            children[i],
            parent_id,
            child_id(first_id, i),
        ) == Some(entry)
}

/// What is shown is what the children give, no more and no less: there are as many
/// entries as children that are shown; every entry stands for a child that is shown,
/// under the name and the id of that child; and every child that is shown has its entry.
pub proof fn lemma_scanned_entries_show_the_children(
    host: Seq<char>,
    children: Seq<ChildView>,
    parent_id: u64,
    first_id: u64,
)
    ensures
        scanned_entries(host, children, parent_id, first_id).len() == shown_count(children),
        forall|k: int|
            0 <= k < scanned_entries(host, children, parent_id, first_id).len() ==> stands_for_a_child(
                #[trigger] scanned_entries(host, children, parent_id, first_id)[k],
                host,
                children,
                parent_id,
                first_id,
            ),
        forall|i: int|
            0 <= i < children.len() && is_shown(#[trigger] children[i]) ==> has_its_entry(
                scanned_entries(host, children, parent_id, first_id),
                host,
                children[i],
                parent_id,
                child_id(first_id, i),
            ),
    decreases children.len(),
{
    let scanned = scanned_entries(host, children, parent_id, first_id);
    if children.len() > 0 {
        let front_children = children.drop_last();
        let front = scanned_entries(host, front_children, parent_id, first_id);
        let last = children.len() - 1;
        lemma_scanned_entries_show_the_children(host, front_children, parent_id, first_id);
        assert forall|k: int| 0 <= k < scanned.len() implies stands_for_a_child(
            #[trigger] scanned[k],
            host,
            children,
            parent_id,
            first_id,
        ) by {
            if k < front.len() {
                assert(scanned[k] == front[k]);
                assert(stands_for_a_child(front[k], host, front_children, parent_id, first_id));
                let i = choose|i: int|
                    0 <= i < front_children.len() && is_shown(#[trigger] front_children[i])
                        && child_entry(host, front_children[i], parent_id, child_id(first_id, i))
                        == Some(front[k]);
                assert(children[i] == front_children[i]);
            } else {
                assert(is_shown(children[last]));
            }
        }
        assert forall|i: int|
            0 <= i < children.len() && is_shown(#[trigger] children[i]) implies has_its_entry(
            scanned,
            host,
            children[i],
            parent_id,
            child_id(first_id, i),
        ) by {
            if i < last {
                assert(children[i] == front_children[i]);
                let entry = child_entry(host, children[i], parent_id, child_id(first_id, i))->0;
                assert(front.contains(entry));
                let k = choose|k: int| 0 <= k < front.len() && front[k] == entry;
                assert(scanned[k] == entry);
            } else {
                assert(scanned[scanned.len() - 1] == child_entry(
                    host,
                    children[i],
                    parent_id,
                    child_id(first_id, i),
                )->0);
            }
        }
    }
}

/// A listing of a directory shows its children, no more and no less: every
/// sub-directory and every regular file with the name of a media file, once each, and
/// nothing else.
pub proof fn lemma_listing_shows_the_children(
    entries: Seq<EntryView>,
    host: Seq<char>,
    children: Seq<ChildView>,
    parent_id: u64,
    first_id: u64,
)
    requires
        entries.to_multiset() == scanned_entries(host, children, parent_id, first_id).to_multiset(),
    ensures
        entries.len() == shown_count(children),
        forall|k: int|
            0 <= k < entries.len() ==> stands_for_a_child(
                #[trigger] entries[k],
                host,
                children,
                parent_id,
                first_id,
            ),
        forall|k: int|
            0 <= k < entries.len() ==> exists|i: int|
                0 <= i < children.len() && is_shown(#[trigger] children[i]) && (
                #[trigger] entries[k]).list_item.title() == children[i].name,
        forall|i: int|
            0 <= i < children.len() && is_shown(#[trigger] children[i]) ==> has_its_entry(
                entries,
                host,
                children[i],
                parent_id,
                child_id(first_id, i),
            ),
{
    let scanned = scanned_entries(host, children, parent_id, first_id);
    lemma_scanned_entries_show_the_children(host, children, parent_id, first_id);
    assert(entries.len() == entries.to_multiset().len());
    assert(scanned.len() == scanned.to_multiset().len());
    assert forall|k: int| 0 <= k < entries.len() implies stands_for_a_child(
        #[trigger] entries[k],
        host,
        children,
        parent_id,
        first_id,
    ) by {
        assert(entries.contains(entries[k]));
        assert(entries.to_multiset().count(entries[k]) > 0);
        assert(scanned.contains(entries[k]));
    }
    assert forall|k: int| 0 <= k < entries.len() implies exists|i: int|
        0 <= i < children.len() && is_shown(#[trigger] children[i]) && (
        #[trigger] entries[k]).list_item.title() == children[i].name by {
        assert(stands_for_a_child(entries[k], host, children, parent_id, first_id));
        let i = choose|i: int|
            0 <= i < children.len() && is_shown(#[trigger] children[i]) && child_entry(
                host,
                children[i],
                parent_id,
                child_id(first_id, i),
            ) == Some(entries[k]);
        assert(entries[k].list_item.title() == children[i].name);
    }
    assert forall|i: int|
        0 <= i < children.len() && is_shown(#[trigger] children[i]) implies has_its_entry(
        entries,
        host,
        children[i],
        parent_id,
        child_id(first_id, i),
    ) by {
        assert(has_its_entry(scanned, host, children[i], parent_id, child_id(first_id, i)));
        let entry = child_entry(host, children[i], parent_id, child_id(first_id, i))->0;
        assert(scanned.contains(entry));
        assert(scanned.to_multiset().count(entry) > 0);
    }
}

/// A listing that is made from the counter that another listing has returned has its
/// ids above all the ids of the other: no id is given twice, whichever directories the
/// two listings are of.
pub proof fn lemma_later_listing_has_larger_ids(
    first: Seq<EntryView>,
    first_host: Seq<char>,
    first_children: Seq<ChildView>,
    first_parent: u64,
    first_counter: u64,
    second: Seq<EntryView>,
    second_host: Seq<char>,
    second_children: Seq<ChildView>,
    second_parent: u64,
    second_counter: u64,
)
    requires
        second_counter == first_counter + first_children.len(),
        second_counter + second_children.len() <= u64::MAX,
        first.to_multiset() == scanned_entries(
            first_host,
            first_children,
            first_parent,
            first_counter,
        ).to_multiset(),
        second.to_multiset() == scanned_entries(
            second_host,
            second_children,
            second_parent,
            second_counter,
        ).to_multiset(),
    ensures
        forall|j: int, k: int|
            0 <= j < first.len() && 0 <= k < second.len() ==> (#[trigger] first[j]).id < (
            #[trigger] second[k]).id,
{
    let one = scanned_entries(first_host, first_children, first_parent, first_counter);
    let two = scanned_entries(second_host, second_children, second_parent, second_counter);
    lemma_scanned_entries(first_host, first_children, first_parent, first_counter);
    lemma_scanned_entries(second_host, second_children, second_parent, second_counter);
    assert forall|j: int, k: int| 0 <= j < first.len() && 0 <= k < second.len() implies (
    #[trigger] first[j]).id < (#[trigger] second[k]).id by {
        assert(first.contains(first[j]));
        assert(first.to_multiset().count(first[j]) > 0);
        assert(one.contains(first[j]));
        assert(second.contains(second[k]));
        assert(second.to_multiset().count(second[k]) > 0);
        assert(two.contains(second[k]));
    }
}

// ---------------------------------------------------------------------------
// Order
// ---------------------------------------------------------------------------

/// What an entry is sorted by among the entries of its kind: its title behind a letter
/// for the kind, `D` for a folder and `F` for a media file.
pub open spec fn sort_key(entry: EntryView) -> Seq<char> {
    match entry.list_item {
        ListItemView::Container(container) => "D"@ + container.title,
        ListItemView::Item(item) => "F"@ + item.title,
    }
}

/// `a` is listed before `b`. A folder is listed before a media file. Of two folders,
/// and of two media files, the one is listed first whose sort key comes first in the
/// natural order, and where the keys tie, the one that has the smaller id.
pub open spec fn listed_before(a: EntryView, b: EntryView) -> bool {
    if a.list_item is Container != b.list_item is Container {
        a.list_item is Container
    } else {
        let order = natural_order(sort_key(a), sort_key(b));
        order < 0 || (order == 0 && a.id < b.id)
    }
}

/// Each entry is listed before all that follow it.
pub open spec fn is_sorted_listing(entries: Seq<EntryView>) -> bool {
    forall|i: int, j: int|
        0 <= i < j < entries.len() ==> listed_before(#[trigger] entries[i], #[trigger] entries[j])
}

/// No two entries have one id.
pub open spec fn distinct_ids(entries: Seq<EntryView>) -> bool {
    forall|i: int, j: int|
        0 <= i < j < entries.len() ==> (#[trigger] entries[i]).id != (#[trigger] entries[j]).id
}

/// Among entries of different ids, being listed before is a strict total order.
pub proof fn lemma_listed_before_is_total(a: EntryView, b: EntryView, c: EntryView)
    ensures
        !listed_before(a, a),
        a.id != b.id ==> (listed_before(a, b) <==> !listed_before(b, a)),
        listed_before(a, b) && listed_before(b, c) ==> listed_before(a, c),
{
    lemma_natural_order_is_strict_weak(sort_key(a), sort_key(b), sort_key(c));
}

/// The sort key of `entry`.
pub fn sort_key_of(entry: &ListItemWrapper) -> (key: String)
    ensures
        key@ == sort_key(entry@),
{
    match &entry.list_item {
        ListItem::Container(container) => {
            let mut key = "D".to_owned();
            key.append(container.title.as_str());
            key
        },
        ListItem::Item(item) => {
            let mut key = "F".to_owned();
            key.append(item.title.as_str());
            key
        },
    }
}

/// In a sorted listing no media file stands before a folder.
pub proof fn lemma_folders_come_first(entries: Seq<EntryView>)
    requires
        is_sorted_listing(entries),
    ensures
        forall|i: int, j: int|
            0 <= i < j < entries.len() && (#[trigger] entries[j]).list_item is Container ==> (
            #[trigger] entries[i]).list_item is Container,
{
    assert forall|i: int, j: int|
        0 <= i < j < entries.len() && (#[trigger] entries[j]).list_item is Container implies (
    #[trigger] entries[i]).list_item is Container by {
        assert(listed_before(entries[i], entries[j]));
    }
}

/// Tells whether `entry` is a folder.
pub fn is_folder(entry: &ListItemWrapper) -> (folder: bool)
    ensures
        folder == (entry@.list_item is Container),
{
    match &entry.list_item {
        ListItem::Container(_) => true,
        ListItem::Item(_) => false,
    }
}

/// Tells whether `a` is listed before `b`.
pub fn is_listed_before(a: &ListItemWrapper, b: &ListItemWrapper) -> (before: bool)
    ensures
        before == listed_before(a@, b@),
{
    if is_folder(a) != is_folder(b) {
        return is_folder(a);
    }
    let key_a = sort_key_of(a);
    let key_b = sort_key_of(b);
    let sign = natural_sign(key_a.as_str(), key_b.as_str());
    sign < 0 || (sign == 0 && a.id < b.id)
}

/// The runs of the sort key of `entry`, ready to be compared.
fn key_tokens(entry: &ListItemWrapper) -> (tokens: Vec<Token>)
    ensures
        all_well_formed(tokens@),
        token_keys(tokens@) == name_keys(sort_key(entry@)),
{
    let key = sort_key_of(entry);
    tokens_of(key.as_str())
}

/// Where `item` belongs among `sorted`: behind all that are listed before it.
fn place_of(
    sorted: &Vec<ListItemWrapper>,
    keys: &Vec<Vec<Token>>,
    item: &ListItemWrapper,
    key: &Vec<Token>,
) -> (at: usize)
    requires
        keys.len() == sorted.len(),
        is_sorted_listing(entry_views(sorted@)),
        forall|k: int| 0 <= k < sorted.len() ==> (#[trigger] sorted[k]).id != item.id,
        forall|k: int|
            0 <= k < sorted.len() ==> all_well_formed((#[trigger] keys[k])@) && token_keys(keys[k]@)
                == name_keys(sort_key(sorted[k]@)),
        all_well_formed(key@),
        token_keys(key@) == name_keys(sort_key(item@)),
    ensures
        at <= sorted.len(),
        forall|k: int| 0 <= k < at ==> listed_before((#[trigger] sorted[k])@, item@),
        forall|k: int| at <= k < sorted.len() ==> listed_before(item@, (#[trigger] sorted[k])@),
{
    let mut low: usize = 0;
    let mut high: usize = sorted.len();
    while low < high
        invariant
            low <= high <= sorted.len(),
            keys.len() == sorted.len(),
            is_sorted_listing(entry_views(sorted@)),
            forall|k: int| 0 <= k < sorted.len() ==> (#[trigger] sorted[k]).id != item.id,
            forall|k: int|
                0 <= k < sorted.len() ==> all_well_formed((#[trigger] keys[k])@) && token_keys(
                    keys[k]@,
                ) == name_keys(sort_key(sorted[k]@)),
            all_well_formed(key@),
            token_keys(key@) == name_keys(sort_key(item@)),
            forall|k: int| 0 <= k < low ==> listed_before((#[trigger] sorted[k])@, item@),
            forall|k: int|
                high <= k < sorted.len() ==> listed_before(item@, (#[trigger] sorted[k])@),
        decreases high - low,
    {
        let middle = low + (high - low) / 2;
        let before = if is_folder(&sorted[middle]) != is_folder(item) {
            is_folder(&sorted[middle])
        } else {
            let sign = order_tokens(&keys[middle], key);
            sign < 0 || (sign == 0 && sorted[middle].id < item.id)
        };
        let ghost pivot = sorted[middle as int]@;
        proof {
            lemma_listed_before_is_total(pivot, item@, item@);
            let views = entry_views(sorted@);
            if before {
                assert forall|k: int| 0 <= k < middle + 1 implies listed_before(
                    (#[trigger] sorted[k])@,
                    item@,
                ) by {
                    if k < middle {
                        assert(listed_before(views[k], views[middle as int]));
                        lemma_listed_before_is_total(sorted[k]@, pivot, item@);
                    }
                }
            } else {
                assert forall|k: int| middle <= k < sorted.len() implies listed_before(
                    item@,
                    (#[trigger] sorted[k])@,
                ) by {
                    if k > middle {
                        assert(listed_before(views[middle as int], views[k]));
                        lemma_listed_before_is_total(item@, pivot, sorted[k]@);
                    }
                }
            }
        }
        if before {
            low = middle + 1;
        } else {
            high = middle;
        }
    }
    low
}

/// Sorts entries of different ids into the order in which they are listed.
pub fn sort_listing(list_items: Vec<ListItemWrapper>) -> (sorted: Vec<ListItemWrapper>)
    requires
        distinct_ids(entry_views(list_items@)),
    ensures
        entry_views(sorted@).to_multiset() == entry_views(list_items@).to_multiset(),
        is_sorted_listing(entry_views(sorted@)),
        distinct_ids(entry_views(sorted@)),
{
    let ghost given = entry_views(list_items@);
    let mut rest = list_items;
    let mut sorted: Vec<ListItemWrapper> = Vec::new();
    let mut keys: Vec<Vec<Token>> = Vec::new();
    loop
        invariant
            entry_views(sorted@).to_multiset().add(entry_views(rest@).to_multiset())
                == given.to_multiset(),
            is_sorted_listing(entry_views(sorted@)),
            distinct_ids(entry_views(sorted@)),
            distinct_ids(entry_views(rest@)),
            forall|i: int, j: int|
                0 <= i < sorted.len() && 0 <= j < rest.len() ==> (#[trigger] sorted[i]).id != (
                #[trigger] rest[j]).id,
            keys.len() == sorted.len(),
            forall|k: int|
                0 <= k < sorted.len() ==> all_well_formed((#[trigger] keys[k])@) && token_keys(
                    keys[k]@,
                ) == name_keys(sort_key(sorted[k]@)),
        ensures
            rest.len() == 0,
            entry_views(sorted@).to_multiset().add(entry_views(rest@).to_multiset())
                == given.to_multiset(),
            is_sorted_listing(entry_views(sorted@)),
            distinct_ids(entry_views(sorted@)),
        decreases rest.len(),
    {
        let ghost rest_before = rest@;
        let ghost sorted_before = sorted@;
        let item = match rest.pop() {
            Some(item) => item,
            None => {
                break ;
            },
        };
        let key = key_tokens(&item);
        let at = place_of(&sorted, &keys, &item, &key);
        let ghost x = item@;
        sorted.insert(at, item);
        keys.insert(at, key);
        proof {
            let before = entry_views(sorted_before);
            let after = entry_views(sorted@);
            assert(entry_views(rest_before) =~= entry_views(rest@).push(x));
            assert(after =~= before.insert(at as int, x));
            assert forall|i: int, j: int| 0 <= i < sorted.len() && 0 <= j < rest.len() implies (
            #[trigger] sorted[i]).id != (#[trigger] rest[j]).id by {
                assert(entry_views(rest_before)[j] == rest_before[j]@);
                assert(entry_views(rest_before)[rest_before.len() - 1] == x);
            }
            assert forall|i: int, j: int| 0 <= i < j < entry_views(rest@).len() implies (
            #[trigger] entry_views(rest@)[i]).id != (#[trigger] entry_views(rest@)[j]).id by {
                assert(entry_views(rest@)[i] == entry_views(rest_before)[i]);
                assert(entry_views(rest@)[j] == entry_views(rest_before)[j]);
            }
        }
    }
    sorted
}

// ---------------------------------------------------------------------------
// The listing of a directory
// ---------------------------------------------------------------------------

/// A listing, and the first id that it has left unused.
pub struct ReadDirectoryReturnType {
    pub list_items: Vec<ListItemWrapper>,
    pub id_counter: u64,
}

/// What is shown for `child` under the id `id`, if anything.
pub fn entry_of_child(host: &str, child: &Child, parent_id: u64, id: u64) -> (entry: Option<
    ListItemWrapper,
>)
    ensures
        match entry {
            Some(entry) => child_entry(host@, child@, parent_id, id) == Some(entry@),
            None => child_entry(host@, child@, parent_id, id) is None,
        },
{
    match child.kind {
        ChildKind::Directory => Some(
            ListItemWrapper {
                list_item: ListItem::Container(
                    Container {
                        id,
                        parent_id,
                        title: child.name.clone(),
                        class: CLASS_FOLDER.to_owned(),
                    },
                ),
                id,
                dir: Some(child.path.clone()),
            },
        ),
        ChildKind::File => {
            if is_media_file(child.name.as_str()) {
                let encoded = encode_path(child.path.as_str());
                let mut content = "http://".to_owned();
                content.append(host);
                content.append(":3030/agni-files/");
                content.append(encoded.as_str());
                Some(
                    ListItemWrapper {
                        list_item: ListItem::Item(
                            Item {
                                id,
                                parent_id,
                                title: child.name.clone(),
                                class: CLASS_VIDEO.to_owned(),
                                res: Res {
                                    protocol_info: MEDIA_PROTOCOL_INFO.to_owned(),
                                    content,
                                },
                            },
                        ),
                        id,
                        dir: None,
                    },
                )
            } else {
                None
            }
        },
        ChildKind::Other => None,
    }
}

/// What `read_directory` returns for the children of a directory that have their ids
/// from `id_counter` on: a listing that shows the children, in the order in which
/// entries are listed, under ids of their own, and the first id behind those of the
/// children.
pub open spec fn is_listing_of(
    listing: ReadDirectoryReturnType,
    host: Seq<char>,
    children: Seq<ChildView>,
    parent_id: u64,
    id_counter: u64,
) -> bool {
    let entries = entry_views(listing.list_items@);
    &&& listing.id_counter == id_counter + children.len()
    &&& entries.to_multiset() == scanned_entries(host, children, parent_id, id_counter).to_multiset()
    &&& is_sorted_listing(entries)
    &&& distinct_ids(entries)
    &&& forall|k: int|
        0 <= k < entries.len() ==> {
            let entry = #[trigger] entries[k];
            &&& id_counter <= entry.id < listing.id_counter
            &&& entry.list_item.id() == entry.id
            &&& entry.list_item.parent_id() == parent_id
            &&& entry.list_item is Container <==> entry.dir is Some
        }
}

/// Makes the listing of a directory from its children as a scan found them.
///
/// The child at position `i` has the id `id_counter + i` to itself. A directory is
/// shown as a folder and a regular file with the name of a media file as a media file
/// that `host` serves; nothing else is shown. The listing holds what is shown, each
/// entry before all that it is listed before: the folders first, and the entries of
/// one kind in the natural order of their titles. With it comes the first id after
/// those of the children. Where the ids from `id_counter` on are fewer than the
/// children, there is no listing, and the failure is `Exhausted`.
pub fn read_directory(host: &str, children: &Vec<Child>, parent_id: u64, id_counter: u64) -> (made:
    Result<ReadDirectoryReturnType, BrowseError>)
    ensures
        match made {
            Ok(listing) => id_counter + children.len() <= u64::MAX && is_listing_of(
                listing,
                host@,
                child_views(children@),
                parent_id,
                id_counter,
            ),
            Err(error) => error == BrowseError::Exhausted && id_counter + children.len()
                > u64::MAX,
        },
{
    if children.len() as u64 > u64::MAX - id_counter {
        return Err(BrowseError::Exhausted);
    }
    let ghost views = child_views(children@);
    let mut list_items: Vec<ListItemWrapper> = Vec::new();
    let mut i: usize = 0;
    while i < children.len()
        invariant
            i <= children.len(),
            id_counter + children.len() <= u64::MAX,
            views == child_views(children@),
            entry_views(list_items@) == scanned_entries(
                host@,
                views.take(i as int),
                parent_id,
                id_counter,
            ),
        decreases children.len() - i,
    {
        let id = id_counter + i as u64;
        proof {
            assert(views.take(i + 1).drop_last() =~= views.take(i as int));
        }
        match entry_of_child(host, &children[i], parent_id, id) {
            Some(entry) => {
                list_items.push(entry);
            },
            None => {},
        }
        i += 1;
    }
    proof {
        assert(views.take(children.len() as int) =~= views);
        lemma_scanned_entries(host@, views, parent_id, id_counter);
    }
    let sorted = sort_listing(list_items);
    proof {
        let shown = entry_views(sorted@);
        assert forall|k: int| 0 <= k < shown.len() implies {
            let entry = #[trigger] shown[k];
            &&& id_counter <= entry.id < id_counter + children.len()
            &&& entry.list_item.id() == entry.id
            &&& entry.list_item.parent_id() == parent_id
            &&& entry.list_item is Container <==> entry.dir is Some
        } by {
            assert(shown.to_multiset().count(shown[k]) > 0);
        }
    }
    Ok(ReadDirectoryReturnType { list_items: sorted, id_counter: id_counter + children.len() as u64 })
}

} // verus!
