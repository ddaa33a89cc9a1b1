use moodle_xml_edit::{Change, ContentRef, ContentType, QParser};

fn ref_with(content: &str) -> ContentRef {
    ContentRef {
        content: content.to_string(),
        start: 0,
        end: 0,
        version_num: 0,
    }
}

/// CDATA-wrapped text unwraps to its payload.
#[test]
fn unwrap_cdata_plain_wrap() {
    let r = ref_with("<![CDATA[X]]>");
    assert_eq!(r.unwrap_cdata(), "X".to_string());
}

/// Text with no CDATA markers is returned unchanged.
#[test]
fn unwrap_cdata_without_markers_is_identity() {
    let r = ref_with("a <b> ]] > ]]&gt; no markers here");
    assert_eq!(r.unwrap_cdata(), "a <b> ]] > ]]&gt; no markers here".to_string());
}

/// Unwrapping twice equals unwrapping once when one pass removes all
/// markers.
#[test]
fn unwrap_cdata_idempotent_after_one_pass() {
    let r = ref_with("pre <![CDATA[mid]]> post <![CDATA[end]]>");
    let once = r.unwrap_cdata();
    assert_eq!(once, "pre mid post end".to_string());
    let again = ref_with(&once).unwrap_cdata();
    assert_eq!(again, once);
}

/// A partial marker broken by another character is emitted literally, and
/// a partial marker at the end of input is flushed literally.
#[test]
fn unwrap_cdata_partial_markers_survive() {
    let r = ref_with("<![CDATA[a]]>");
    assert_eq!(r.unwrap_cdata(), "a".to_string());
    let broken = ref_with("<![CDAT oops <![CDATA[x]]> <![CD");
    assert_eq!(broken.unwrap_cdata(), "<![CDAT oops x <![CD".to_string());
    let stray = ref_with("<![CDATA[a]] b]]>");
    assert_eq!(stray.unwrap_cdata(), "a]] b".to_string());
}

/// The seven basic entities decode literally, the ampersand last, so a
/// decoded ampersand never forms a fresh entity.
#[test]
fn basic_entity_decode_all_seven() {
    let r = ref_with("&lt;&gt;&quot;&apos;&#xA;&#xD;&amp;");
    assert_eq!(r.basic_entity_decode(), "<>\"'\n\r&".to_string());
    let double = ref_with("&amp;lt;");
    assert_eq!(double.basic_entity_decode(), "&lt;".to_string());
}

/// The attribute escape encodes the ampersand first, so the escapes it
/// introduces are not escaped again.
#[test]
fn attribute_escape_all_seven() {
    let c = Change::attribute_escaped_version(ref_with(""), "<>\"'\n\r&".to_string());
    assert_eq!(c.new_content, "&lt;&gt;&quot;&apos;&#xA;&#xD;&amp;".to_string());
}

/// The CDATA wrap fires exactly on the five characters that need it.
#[test]
fn cdata_wrap_only_when_needed() {
    let plain = Change::cdata_wrapped_version(ref_with(""), "plain text 123".to_string());
    assert_eq!(plain.new_content, "plain text 123".to_string());
    let marked = Change::cdata_wrapped_version(ref_with(""), "a < b".to_string());
    assert_eq!(marked.new_content, "<![CDATA[a < b]]>".to_string());
    let amp = Change::cdata_wrapped_version(ref_with(""), "a&b".to_string());
    assert_eq!(amp.new_content, "<![CDATA[a&b]]>".to_string());
}

/// `get_attr` finds an attribute by name on the variants that carry one.
#[test]
fn get_attr_variants() {
    let data = "<quiz><question type=\"some\"><foo bar='1' baz='2'>x</foo></question></quiz>"
        .to_string();
    let mut parser = QParser::from_string(data).expect("Valid input should not fail");
    let elements = parser.get_elements(0, vec!["foo".to_string()]).unwrap();
    assert_eq!(elements.len(), 1);
    let e = &elements[0];
    match e {
        ContentType::Element(_, _, parts) => {
            assert_eq!(parts.len(), 3);
        }
        _ => panic!("Wrong type found!"),
    }
    let elements = parser.get_elements(0, vec!["foo".to_string()]).unwrap();
    let baz = elements.into_iter().next().unwrap().get_attr("baz".to_string());
    assert_eq!(baz.unwrap().content, "2".to_string());
    let elements = parser.get_elements(0, vec!["foo".to_string()]).unwrap();
    let nope = elements.into_iter().next().unwrap().get_attr("nope".to_string());
    assert!(nope.is_none());
}

/// `get_content` unwraps the primary content of each variant and is absent
/// for a self-closing empty element.
#[test]
fn get_content_variants() {
    let data =
        "<quiz><question type=\"some\"><foo bar='1'>inner</foo><empty/></question></quiz>"
            .to_string();
    let mut parser = QParser::from_string(data).expect("Valid input should not fail");
    let elements = parser.get_elements(0, vec!["foo".to_string()]).unwrap();
    let content = elements.into_iter().next().unwrap().get_content().unwrap();
    assert_eq!(content.content, "inner".to_string());
    let elements = parser.get_elements(0, vec!["empty".to_string()]).unwrap();
    let none = elements.into_iter().next().unwrap().get_content();
    assert!(none.is_none());
}
