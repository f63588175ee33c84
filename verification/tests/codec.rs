use agni::codec::decimal_text;
use agni::codec::escape_markup;
use agni::codec::get_browse_response;
use agni::types::Body;
use agni::types::BrowseResponse;
use agni::types::Container;
use agni::types::DidlLite;
use agni::types::Envelope;
use agni::types::Item;
use agni::types::ListItem;
use agni::types::ListItemWrapper;
use agni::types::Res;

const HEAD: &str = "<s:Envelope xmlns:s=\"http://schemas.xmlsoap.org/soap/envelope/\" \
s:encodingStyle=\"http://schemas.xmlsoap.org/soap/encoding/\">\
<s:Body xmlns:u=\"urn:schemas-upnp-org:service:ContentDirectory:1\">\
<u:BrowseResponse><Result>";

const TAIL: &str = "</Result><NumberReturned>1</NumberReturned><TotalMatches>1</TotalMatches>\
<UpdateID>1</UpdateID></u:BrowseResponse></s:Body></s:Envelope>";

fn folder(id: u64, parent_id: u64, title: &str) -> ListItem {
    ListItem::Container(Container {
        id,
        parent_id,
        title: title.to_string(),
        class: "object.container.storageFolder".to_string(),
    })
}

fn video(id: u64, parent_id: u64, title: &str, url: &str) -> ListItem {
    ListItem::Item(Item {
        id,
        parent_id,
        title: title.to_string(),
        class: "object.item.videoItem".to_string(),
        res: Res {
            protocol_info: "http-get:*:video/x-matroska:*".to_string(),
            content: url.to_string(),
        },
    })
}

fn didl(list_items: Vec<ListItem>) -> DidlLite {
    DidlLite {
        xmlns_dc: "http://purl.org/dc/elements/1.1/".to_string(),
        xmlns_upnp: "urn:schemas-upnp-org:metadata-1-0/upnp/".to_string(),
        xmlns: "urn:schemas-upnp-org:metadata-1-0/DIDL-Lite/".to_string(),
        list_items,
    }
}

const DIDL_START: &str = "<DIDL-Lite xmlns:dc=\"http://purl.org/dc/elements/1.1/\" \
xmlns:upnp=\"urn:schemas-upnp-org:metadata-1-0/upnp/\" \
xmlns=\"urn:schemas-upnp-org:metadata-1-0/DIDL-Lite/\"";

#[test]
fn decimal_text_of_numbers() {
    assert_eq!(decimal_text(0), "0");
    assert_eq!(decimal_text(7), "7");
    assert_eq!(decimal_text(10), "10");
    assert_eq!(decimal_text(1234567890), "1234567890");
    assert_eq!(decimal_text(u64::MAX), "18446744073709551615");
}

#[test]
fn markup_is_escaped() {
    assert_eq!(escape_markup("<a b=\"c\">"), "&lt;a b=&quot;c&quot;&gt;");
    assert_eq!(escape_markup("a & b's"), "a &amp; b's");
    assert_eq!(escape_markup("&lt;"), "&amp;lt;");
    assert_eq!(escape_markup(""), "");
}

#[test]
fn a_folder_is_an_element_with_title_and_class() {
    let mut out = String::new();
    folder(1, 0, "Documents").write_xml(&mut out);
    assert_eq!(
        out,
        "<container id=\"1\" parentId=\"0\"><dc:title>Documents</dc:title>\
<upnp:class>object.container.storageFolder</upnp:class></container>"
    );
}

#[test]
fn a_media_file_holds_its_resource_first() {
    let mut out = String::from("x");
    video(12, 3, "a.mkv", "http://h:3030/agni-files//m/a.mkv").write_xml(&mut out);
    assert_eq!(
        out,
        "x<item id=\"12\" parentId=\"3\">\
<res protocolInfo=\"http-get:*:video/x-matroska:*\">http://h:3030/agni-files//m/a.mkv</res>\
<dc:title>a.mkv</dc:title><upnp:class>object.item.videoItem</upnp:class></item>"
    );
}

#[test]
fn special_characters_of_a_title_are_escaped() {
    let mut out = String::new();
    folder(2, 1, "<a> & \"b\" 'c'").write_xml(&mut out);
    assert_eq!(
        out,
        "<container id=\"2\" parentId=\"1\">\
<dc:title>&lt;a&gt; &amp; &quot;b&quot; &apos;c&apos;</dc:title>\
<upnp:class>object.container.storageFolder</upnp:class></container>"
    );
}

#[test]
fn a_document_without_objects_is_one_empty_element() {
    assert_eq!(didl(vec![]).to_xml(), format!("{}/>", DIDL_START));
}

#[test]
fn a_document_holds_its_objects_in_order() {
    let text = didl(vec![folder(5, 1, "b"), folder(4, 1, "a")]).to_xml();
    let inner = "<container id=\"5\" parentId=\"1\"><dc:title>b</dc:title>\
<upnp:class>object.container.storageFolder</upnp:class></container>\
<container id=\"4\" parentId=\"1\"><dc:title>a</dc:title>\
<upnp:class>object.container.storageFolder</upnp:class></container>";
    assert_eq!(text, format!("{}>{}</DIDL-Lite>", DIDL_START, inner));
}

#[test]
fn an_envelope_escapes_the_markup_of_its_result() {
    let envelope = Envelope {
        xmlns: "http://schemas.xmlsoap.org/soap/envelope/".to_string(),
        encoding_style: "http://schemas.xmlsoap.org/soap/encoding/".to_string(),
        body: Body {
            xmlns: "urn:schemas-upnp-org:service:ContentDirectory:1".to_string(),
            browse_response: BrowseResponse {
                result: "<x a=\"1\"/>".to_string(),
                number_returned: 1,
                total_matches: 1,
                update_id: 1,
            },
        },
    };
    assert_eq!(envelope.to_xml(), format!("{}&lt;x a=&quot;1&quot;/&gt;{}", HEAD, TAIL));
}

#[test]
fn an_envelope_writes_its_counters() {
    let envelope = Envelope {
        xmlns: "e".to_string(),
        encoding_style: "s".to_string(),
        body: Body {
            xmlns: "b".to_string(),
            browse_response: BrowseResponse {
                result: String::new(),
                number_returned: 3,
                total_matches: 40,
                update_id: 500,
            },
        },
    };
    assert_eq!(
        envelope.to_xml(),
        "<s:Envelope xmlns:s=\"e\" s:encodingStyle=\"s\"><s:Body xmlns:u=\"b\">\
<u:BrowseResponse><Result></Result><NumberReturned>3</NumberReturned>\
<TotalMatches>40</TotalMatches><UpdateID>500</UpdateID></u:BrowseResponse></s:Body>\
</s:Envelope>"
    );
}

#[test]
fn a_response_embeds_the_escaped_listing() {
    let entries = vec![ListItemWrapper {
        list_item: folder(1, 0, "Documents"),
        id: 1,
        dir: Some("/srv/media".to_string()),
    }];
    let inner = "&lt;DIDL-Lite xmlns:dc=&quot;http://purl.org/dc/elements/1.1/&quot; \
xmlns:upnp=&quot;urn:schemas-upnp-org:metadata-1-0/upnp/&quot; \
xmlns=&quot;urn:schemas-upnp-org:metadata-1-0/DIDL-Lite/&quot;&gt;\
&lt;container id=&quot;1&quot; parentId=&quot;0&quot;&gt;\
&lt;dc:title&gt;Documents&lt;/dc:title&gt;\
&lt;upnp:class&gt;object.container.storageFolder&lt;/upnp:class&gt;\
&lt;/container&gt;&lt;/DIDL-Lite&gt;";
    assert_eq!(get_browse_response(&entries), format!("{}{}{}", HEAD, inner, TAIL));
}

#[test]
fn a_response_without_entries_embeds_the_empty_document() {
    let inner = "&lt;DIDL-Lite xmlns:dc=&quot;http://purl.org/dc/elements/1.1/&quot; \
xmlns:upnp=&quot;urn:schemas-upnp-org:metadata-1-0/upnp/&quot; \
xmlns=&quot;urn:schemas-upnp-org:metadata-1-0/DIDL-Lite/&quot;/&gt;";
    assert_eq!(get_browse_response(&vec![]), format!("{}{}{}", HEAD, inner, TAIL));
}

#[test]
fn a_title_with_markup_stays_escaped_in_the_response() {
    let entries = vec![ListItemWrapper {
        list_item: folder(7, 1, "a<b>\"c\""),
        id: 7,
        dir: Some("/srv/media/x".to_string()),
    }];
    let text = get_browse_response(&entries);
    let result = &text[HEAD.len()..text.len() - TAIL.len()];
    assert!(!result.contains('<'));
    assert!(!result.contains('>'));
    assert!(!result.contains('"'));
    assert!(result.contains(
        "&lt;dc:title&gt;a&amp;lt;b&amp;gt;&amp;quot;c&amp;quot;&lt;/dc:title&gt;"
    ));
    assert!(result.contains("id=&quot;7&quot; parentId=&quot;1&quot;"));
    assert!(result.contains("&lt;upnp:class&gt;object.container.storageFolder&lt;/upnp:class&gt;"));
}

#[test]
fn duplicates_are_equal() {
    let item = video(9, 2, "v.mp4", "http://h:3030/agni-files//v.mp4");
    assert_eq!(item.duplicate(), item);
    assert_eq!(item.id(), 9);
    let entry = ListItemWrapper { list_item: folder(3, 0, "f"), id: 3, dir: Some("/f".to_string()) };
    assert_eq!(entry.duplicate(), entry);
}

fn title_of<'a>(node: roxmltree::Node<'a, 'a>) -> &'a str {
    node.children().find(|child| child.tag_name().name() == "title").unwrap().text().unwrap()
}

#[test]
fn a_reader_gets_every_title_back() {
    let titles = ["<", "&", "a & b's \"c\" <d>", "&lt;", "&amp;amp;", "plain", "é < 日本", "'"];
    let entries: Vec<ListItemWrapper> = titles
        .iter()
        .enumerate()
        .map(|(i, title)| {
            let id = i as u64 + 2;
            let list_item = if i % 2 == 0 {
                folder(id, 1, title)
            } else {
                video(id, 1, title, "http://h:3030/agni-files//m/a%26b.mkv?x=<1>&y='2'")
            };
            ListItemWrapper { list_item, id, dir: None }
        })
        .collect();
    let response = get_browse_response(&entries);
    let envelope = roxmltree::Document::parse(&response).unwrap();
    let result = envelope
        .descendants()
        .find(|node| node.tag_name().name() == "Result")
        .unwrap()
        .text()
        .unwrap();
    let listing = roxmltree::Document::parse(result).unwrap();
    let objects: Vec<roxmltree::Node> =
        listing.root_element().children().filter(|node| node.is_element()).collect();
    assert_eq!(objects.len(), titles.len());
    for (object, title) in objects.iter().zip(titles.iter()) {
        assert_eq!(title_of(*object), *title);
    }
    let res = objects[1].children().find(|child| child.tag_name().name() == "res").unwrap();
    assert_eq!(res.text(), Some("http://h:3030/agni-files//m/a%26b.mkv?x=<1>&y='2'"));
}
