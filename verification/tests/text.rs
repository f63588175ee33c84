use agni::codec::write_decimal;
use agni::text::chars_of;
use agni::text::text_of;
use agni::types::Res;

#[test]
fn a_text_is_its_characters() {
    assert_eq!(chars_of("aé日"), vec!['a', 'é', '日']);
    assert!(chars_of("").is_empty());
    assert_eq!(text_of(&vec!['a', 'é', '日']), "aé日");
    assert_eq!(text_of(&Vec::new()), "");
    assert_eq!(text_of(&chars_of("round trip")), "round trip");
}

#[test]
fn numbers_are_appended_in_decimal() {
    let mut out = String::from("id=");
    write_decimal(&mut out, 0);
    write_decimal(&mut out, 905);
    assert_eq!(out, "id=0905");
}

#[test]
fn a_resource_is_an_element_with_text() {
    let res = Res { protocol_info: "a\"b".to_string(), content: "x<y>&z".to_string() };
    let mut out = String::new();
    res.write_xml(&mut out);
    assert_eq!(out, "<res protocolInfo=\"a&quot;b\">x&lt;y&gt;&amp;z</res>");
    assert_eq!(res.duplicate(), res);
}
