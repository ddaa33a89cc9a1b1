use moodle_xml_edit::{Change, ContentRef, ContentType, EditError, QParser};

/// Questions are found and indexed correctly past multi-byte characters:
/// every reference still snapshots exactly its range.
#[test]
fn multibyte_text_before_elements() {
    let data = "<?xml version=\"1.0\" encoding=\"UTF-8\"?>
<quiz>
<!-- kysymys: päättö äöå -->
  <question type=\"some\"><name>Ää</name></question>
</quiz>
"
    .to_string();
    let mut parser = QParser::from_string(data).expect("Valid input should not fail");
    let questions = parser.find_questions().unwrap();
    assert_eq!(questions.len(), 1);
    assert_eq!(
        questions[0].whole_element.content,
        "<question type=\"some\"><name>Ää</name></question>".to_string()
    );
    assert_eq!(questions[0].name.content, "Ää".to_string());

    let elements = parser.get_elements(0, vec!["name".to_string()]).unwrap();
    match &elements[0] {
        ContentType::Element(_, whole, parts) => {
            assert_eq!(whole.content, "<name>Ää</name>".to_string());
            if let ContentType::ElementContent(c) = &parts[0] {
                assert_eq!(c.content, "Ää".to_string());
            } else {
                panic!("Wrong type found!");
            }
        }
        _ => panic!("Wrong type found!"),
    }
}

/// The question name unwraps one level through the text-child pattern.
#[test]
fn question_name_through_text_child() {
    let data = "<quiz><question type=\"some\"><name><text>Real name</text></name></question></quiz>"
        .to_string();
    let mut parser = QParser::from_string(data).expect("Valid input should not fail");
    let questions = parser.find_questions().unwrap();
    assert_eq!(questions.len(), 1);
    assert_eq!(questions[0].name.content, "Real name".to_string());
}

/// A question whose `type` is `category` is excluded from indexing
/// entirely; a question without a `type` attribute does not consume an
/// index either.
#[test]
fn category_and_typeless_questions_are_skipped() {
    let data = "<quiz>\
<question type=\"category\"><name>cat</name></question>\
<question><name>typeless</name></question>\
<question type=\"real\"><name>kept</name></question>\
</quiz>"
        .to_string();
    let mut parser = QParser::from_string(data).expect("Valid input should not fail");
    let questions = parser.find_questions().unwrap();
    assert_eq!(questions.len(), 1);
    assert_eq!(questions[0].index, 0);
    assert_eq!(questions[0].qtype, "real".to_string());
    assert_eq!(questions[0].name.content, "kept".to_string());
}

/// Replacing every returned range with its own snapshot reconstitutes the
/// document exactly.
#[test]
fn identity_edits_round_trip() {
    let data = "<quiz><question type=\"some\"><foo bar='v1'>body</foo></question></quiz>"
        .to_string();
    let mut parser = QParser::from_string(data.clone()).expect("Valid input should not fail");
    let elements = parser.get_elements(0, vec!["foo".to_string()]).unwrap();
    match elements.into_iter().next().unwrap() {
        ContentType::Element(_, _, parts) => {
            for part in parts {
                let r = match part {
                    ContentType::AttributeValue(_, r) => r,
                    ContentType::ElementContent(r) => r,
                    _ => panic!("Wrong type found!"),
                };
                let snapshot = r.content.clone();
                parser.register_change(Change::new(r, snapshot)).unwrap();
            }
        }
        _ => panic!("Wrong type found!"),
    }
    parser.execute_changes();
    assert_eq!(parser.get_current_content(), data);
}

/// Several non-overlapping changes commit atomically in one pass, whatever
/// order they were registered in.
#[test]
fn batched_changes_commit_together() {
    let data = "<quiz><question type=\"some\"><a>one</a><b>two</b><c>three</c></question></quiz>"
        .to_string();
    let expected = "<quiz><question type=\"some\"><a>ONE</a><b>TWO</b><c>THREE</c></question></quiz>"
        .to_string();
    let mut parser = QParser::from_string(data).expect("Valid input should not fail");
    let elements = parser
        .get_elements(0, vec!["a".to_string(), "b".to_string(), "c".to_string()])
        .unwrap();
    assert_eq!(elements.len(), 3);
    let mut replacements = vec!["ONE", "TWO", "THREE"];
    // Register in reverse document order; the committed result does not
    // depend on registration order.
    for e in elements.into_iter().rev() {
        let r = e.get_content().unwrap();
        let new = replacements.pop().unwrap().to_string();
        parser.register_change(Change::new(r, new)).unwrap();
    }
    parser.execute_changes();
    assert_eq!(parser.get_current_content(), expected);
}

/// An empty commit leaves the version alone, so references stay usable;
/// every query commits what is pending first; and any commit that applies
/// changes makes earlier references stale.
#[test]
fn version_advances_once_per_commit() {
    let data = "<quiz><question type=\"some\"><a>one</a><b>two</b></question></quiz>".to_string();
    let mut parser = QParser::from_string(data).expect("Valid input should not fail");

    // An empty commit: references stay usable afterwards.
    let elements = parser.get_elements(0, vec!["a".to_string()]).unwrap();
    parser.execute_changes();
    let r = elements.into_iter().next().unwrap().get_content().unwrap();
    parser.register_change(Change::new(r, "uno".to_string())).unwrap();

    // This query commits the pending change before searching, so the
    // references it returns belong to the new version.
    let elements = parser.get_elements(0, vec!["b".to_string()]).unwrap();
    assert!(parser.get_current_content().contains("<a>uno</a>"));
    let rb = elements.into_iter().next().unwrap().get_content().unwrap();
    let rb2 = rb.clone();
    parser.register_change(Change::new(rb, "dos".to_string())).unwrap();
    parser.execute_changes();
    assert!(parser.get_current_content().contains("<b>dos</b>"));

    // The commit made earlier references stale.
    assert_eq!(
        parser.register_change(Change::new(rb2, "x".to_string())).unwrap_err(),
        EditError::StaleReference
    );
}

/// A formatted-text element carries its attachment `file` elements after
/// the inner text content.
#[test]
fn moodle_element_with_attachments() {
    let data = "<quiz><question type=\"some\">\
<statement format=\"plain\"><text>hello</text><file name=\"a.png\">AAAA</file></statement>\
</question></quiz>"
        .to_string();
    let mut parser = QParser::from_string(data).expect("Valid input should not fail");
    let elements = parser.get_elements(0, vec!["statement".to_string()]).unwrap();
    assert_eq!(elements.len(), 1);
    match &elements[0] {
        ContentType::MoodleTextElement(tag, format_ref, parts) => {
            assert_eq!(tag, &"statement".to_string());
            assert_eq!(format_ref.content, "plain".to_string());
            assert_eq!(parts.len(), 2);
            if let ContentType::ElementContent(c) = &parts[0] {
                assert_eq!(c.content, "hello".to_string());
            } else {
                panic!("Wrong type found!");
            }
            match &parts[1] {
                ContentType::Element(ftag, _, fparts) => {
                    assert_eq!(ftag, &"file".to_string());
                    assert_eq!(fparts.len(), 2);
                    if let ContentType::AttributeValue(an, av) = &fparts[0] {
                        assert_eq!(an, &"name".to_string());
                        assert_eq!(av.content, "a.png".to_string());
                    } else {
                        panic!("Wrong type found!");
                    }
                    if let ContentType::ElementContent(fc) = &fparts[1] {
                        assert_eq!(fc.content, "AAAA".to_string());
                    } else {
                        panic!("Wrong type found!");
                    }
                }
                _ => panic!("Wrong type found!"),
            }
        }
        _ => panic!("Wrong type found!"),
    }
}

/// A document type declaration is tolerated at load.
#[test]
fn document_type_declaration_is_tolerated() {
    let data = "<?xml version=\"1.0\"?>\n<!DOCTYPE quiz>\n<quiz><question type=\"some\">x</question></quiz>"
        .to_string();
    let mut parser = QParser::from_string(data).expect("Valid input should not fail");
    let questions = parser.find_questions().unwrap();
    assert_eq!(questions.len(), 1);
}

/// A reference whose range lies outside the current text is rejected and
/// the session left as it was.
#[test]
fn out_of_bounds_reference_is_rejected() {
    let data = "<quiz><question type=\"some\">x</question></quiz>".to_string();
    let mut parser = QParser::from_string(data.clone()).expect("Valid input should not fail");
    let bogus = ContentRef {
        content: String::new(),
        start: 10,
        end: 100000,
        version_num: 0,
    };
    assert_eq!(
        parser.register_change(Change::new(bogus, "y".to_string())).unwrap_err(),
        EditError::OutOfBounds
    );
    parser.execute_changes();
    assert_eq!(parser.get_current_content(), data);
}

/// Adjacent ranges do not conflict: an edit may end exactly where another
/// begins.
#[test]
fn adjacent_ranges_do_not_conflict() {
    let data = "<quiz><question type=\"some\"><a>one</a><b>two</b></question></quiz>".to_string();
    let mut parser = QParser::from_string(data).expect("Valid input should not fail");
    let elements = parser
        .get_elements(0, vec!["a".to_string(), "b".to_string()])
        .unwrap();
    assert_eq!(elements.len(), 2);
    let mut whole_refs = Vec::new();
    for e in elements {
        match e {
            ContentType::Element(_, whole, _) => whole_refs.push(whole),
            _ => panic!("Wrong type found!"),
        }
    }
    // <a>...</a> ends exactly where <b>...</b> begins.
    for r in whole_refs {
        let snapshot = r.content.clone();
        parser.register_change(Change::new(r, snapshot)).unwrap();
    }
    parser.execute_changes();
    assert!(parser.get_current_content().contains("<a>one</a><b>two</b>"));
}
