use agni::catalog::BrowseError;
use agni::soap::object_id_of;
use agni::soap::parse_number;
use agni::soap::parse_object_id;
use agni::soap::soap_action;
use agni::soap::XmlNode;

fn browse(object_id: &str) -> String {
    format!(
        "<?xml version=\"1.0\" encoding=\"utf-8\"?>\
<s:Envelope xmlns:s=\"http://schemas.xmlsoap.org/soap/envelope/\" \
s:encodingStyle=\"http://schemas.xmlsoap.org/soap/encoding/\"><s:Body>\
<u:Browse xmlns:u=\"urn:schemas-upnp-org:service:ContentDirectory:1\">\
<ObjectID>{}</ObjectID><BrowseFlag>BrowseDirectChildren</BrowseFlag>\
<Filter>*</Filter><StartingIndex>0</StartingIndex><RequestedCount>0</RequestedCount>\
<SortCriteria></SortCriteria></u:Browse></s:Body></s:Envelope>",
        object_id
    )
}

fn node(name: &str, text: Option<&str>) -> XmlNode {
    XmlNode { name: name.to_string(), text: text.map(|text| text.to_string()) }
}

#[test]
fn numbers_are_read_as_the_standard_library_reads_them() {
    for text in ["0", "7", "007", "+5", "18446744073709551615", "+18446744073709551615"] {
        assert_eq!(parse_number(text), text.parse::<u64>().ok());
        assert!(parse_number(text).is_some());
    }
    for text in ["", "+", "-5", "++5", "5+", " 5", "5 ", "1a", "a", "18446744073709551616",
        "99999999999999999999999", "٣"]
    {
        assert_eq!(parse_number(text), None);
        assert!(text.parse::<u64>().is_err());
    }
    assert_eq!(parse_number("42"), Some(42));
    assert_eq!(parse_number("18446744073709551615"), Some(u64::MAX));
}

#[test]
fn the_object_of_a_request_is_found() {
    assert_eq!(parse_object_id(&browse("0")), Ok(0));
    assert_eq!(parse_object_id(&browse("17")), Ok(17));
    assert_eq!(parse_object_id("<ObjectID>3</ObjectID>"), Ok(3));
    assert_eq!(
        parse_object_id("<a xmlns:u=\"urn:x\"><u:ObjectID>8</u:ObjectID></a>"),
        Ok(8)
    );
}

#[test]
fn the_first_object_id_counts() {
    assert_eq!(
        parse_object_id("<a><b><ObjectID>4</ObjectID></b><ObjectID>5</ObjectID></a>"),
        Ok(4)
    );
    assert_eq!(
        parse_object_id("<a><ObjectID>x</ObjectID><ObjectID>5</ObjectID></a>"),
        Err(BrowseError::Protocol)
    );
}

#[test]
fn a_request_without_an_object_fails() {
    assert_eq!(parse_object_id(""), Err(BrowseError::Protocol));
    assert_eq!(parse_object_id("no document"), Err(BrowseError::Protocol));
    assert_eq!(parse_object_id("<a><b>1</b></a>"), Err(BrowseError::Protocol));
    assert_eq!(parse_object_id("<a><ObjectID>1</b></a>"), Err(BrowseError::Protocol));
    assert_eq!(parse_object_id("<objectid>1</objectid>"), Err(BrowseError::Protocol));
}

#[test]
fn an_object_id_that_is_no_number_fails() {
    assert_eq!(parse_object_id(&browse("")), Err(BrowseError::Protocol));
    assert_eq!(parse_object_id(&browse("abc")), Err(BrowseError::Protocol));
    assert_eq!(parse_object_id(&browse(" 1 ")), Err(BrowseError::Protocol));
    assert_eq!(parse_object_id(&browse("-1")), Err(BrowseError::Protocol));
    assert_eq!(parse_object_id(&browse("18446744073709551616")), Err(BrowseError::Protocol));
    assert_eq!(parse_object_id("<ObjectID><b>1</b></ObjectID>"), Err(BrowseError::Protocol));
    assert_eq!(parse_object_id("<ObjectID/>"), Err(BrowseError::Protocol));
}

#[test]
fn nodes_are_searched_in_order() {
    let nodes = vec![
        node("", None),
        node("Envelope", None),
        node("ObjectID", Some("12")),
        node("", Some("12")),
        node("ObjectID", Some("13")),
    ];
    assert_eq!(object_id_of(&nodes), Ok(12));
    assert_eq!(object_id_of(&vec![node("ObjectID", None)]), Err(BrowseError::Protocol));
    assert_eq!(object_id_of(&vec![node("Other", Some("1"))]), Err(BrowseError::Protocol));
    assert_eq!(object_id_of(&vec![]), Err(BrowseError::Protocol));
}

#[test]
fn the_action_stands_behind_the_first_hash() {
    assert_eq!(
        soap_action("\"urn:schemas-upnp-org:service:ContentDirectory:1#Browse\""),
        "Browse"
    );
    assert_eq!(soap_action("urn:x#Browse"), "Browse");
    assert_eq!(soap_action("a#b#c"), "b");
    assert_eq!(soap_action("a##c"), "");
    assert_eq!(soap_action("a#"), "");
    assert_eq!(soap_action("#b"), "b");
    assert_eq!(soap_action("\"\"a#b\"\"\""), "b");
    assert_eq!(soap_action("a#b\"c"), "b\"c");
}

#[test]
fn a_header_without_a_hash_names_no_action() {
    assert_eq!(soap_action(""), "");
    assert_eq!(soap_action("Browse"), "");
    assert_eq!(soap_action("\"\"\""), "");
    assert_eq!(soap_action("\"Browse\""), "");
}
