use moodle_xml_edit::{Change, ContentType, EditError, QParser, Question};

/// Some actions are mistakes and the toolset detects them: the operation
/// reports a distinct error and mutates nothing.

#[test]
fn referencing_a_nonexistent_question() {
    let data = "<?xml version=\"1.0\" encoding=\"UTF-8\"?>
<quiz>
<!-- question: 1  -->
  <question type=\"some\">...</question>
<!-- question: 2  -->
  <question type=\"stack\">...</question>
</quiz>
"
    .to_string();
    let mut parser = QParser::from_string(data).expect("Valid input should not fail");
    let questions: Vec<Question> = parser.find_questions().unwrap();

    assert_eq!(questions.len(), 2);

    // Now try to get something from question at index 2.
    let r = parser.get_elements(2, vec!["something".to_string()]);
    assert_eq!(
        r.unwrap_err(),
        EditError::NoSuchQuestion { available: 2, requested: 2 }
    );
}

#[test]
fn overlapping_updates_1_same_target() {
    let data = "<?xml version=\"1.0\" encoding=\"UTF-8\"?>
<quiz>
  <question type=\"some\">
  \t<name>Test question</name>
  </question>
</quiz>
"
    .to_string();
    let mut parser = QParser::from_string(data).expect("Valid input should not fail");
    let elements: Vec<ContentType> = parser.get_elements(0, vec!["name".to_string()]).unwrap();
    assert_eq!(elements.len(), 1);

    match &elements[0] {
        ContentType::Element(tag_name, _whole_element_ref, contents_and_attributes) => {
            assert_eq!(tag_name, &"name".to_string());
            assert_eq!(contents_and_attributes.len(), 1);
            if let ContentType::ElementContent(content_ref) = &contents_and_attributes[0] {
                assert_eq!(content_ref.content, "Test question".to_string());

                // The first change is fine to register.
                let change = Change::new(content_ref.clone(), "Foo".to_string());
                parser.register_change(change).unwrap();

                // But changing the same bit again is not allowed, and the
                // buffered change must survive untouched.
                let before = parser.get_current_content();
                let change2 = Change::new(content_ref.clone(), "Bar".to_string());
                assert_eq!(parser.register_change(change2).unwrap_err(), EditError::Conflict);
                assert_eq!(parser.get_current_content(), before);

                parser.execute_changes();
                assert!(parser.get_current_content().contains("<name>Foo</name>"));
            } else {
                panic!("Wrong type found!");
            }
        }
        _ => {
            panic!("Wrong type found!");
        }
    }
}

#[test]
fn overlapping_updates_2_child_and_parent() {
    let data = "<?xml version=\"1.0\" encoding=\"UTF-8\"?>
<quiz>
  <question type=\"some\">
  \t<name>Test question</name>
  </question>
</quiz>
"
    .to_string();
    let mut parser = QParser::from_string(data).expect("Valid input should not fail");
    let elements: Vec<ContentType> = parser.get_elements(0, vec!["name".to_string()]).unwrap();
    assert_eq!(elements.len(), 1);

    match &elements[0] {
        ContentType::Element(tag_name, whole_element_ref, contents_and_attributes) => {
            assert_eq!(tag_name, &"name".to_string());
            assert_eq!(contents_and_attributes.len(), 1);
            if let ContentType::ElementContent(content_ref) = &contents_and_attributes[0] {
                assert_eq!(content_ref.content, "Test question".to_string());

                // The first change is fine to register.
                let change = Change::new(content_ref.clone(), "Foo".to_string());
                parser.register_change(change).unwrap();

                // Modifying the whole element as well as its contents in
                // one batch is rejected.
                let change2 =
                    Change::new(whole_element_ref.clone(), "<nimi>Bar</nimi>".to_string());
                assert_eq!(parser.register_change(change2).unwrap_err(), EditError::Conflict);
            } else {
                panic!("Wrong type found!");
            }
        }
        _ => {
            panic!("Wrong type found!");
        }
    }
}

#[test]
fn overlapping_updates_3_parent_and_child() {
    let data = "<?xml version=\"1.0\" encoding=\"UTF-8\"?>
<quiz>
  <question type=\"some\">
  \t<name>Test question</name>
  </question>
</quiz>
"
    .to_string();
    let mut parser = QParser::from_string(data).expect("Valid input should not fail");
    let elements: Vec<ContentType> = parser.get_elements(0, vec!["name".to_string()]).unwrap();
    assert_eq!(elements.len(), 1);

    match &elements[0] {
        ContentType::Element(tag_name, whole_element_ref, contents_and_attributes) => {
            assert_eq!(tag_name, &"name".to_string());
            assert_eq!(contents_and_attributes.len(), 1);
            if let ContentType::ElementContent(content_ref) = &contents_and_attributes[0] {
                assert_eq!(content_ref.content, "Test question".to_string());

                // The first change is fine to register.
                let change =
                    Change::new(whole_element_ref.clone(), "<nimi>Bar</nimi>".to_string());
                parser.register_change(change).unwrap();

                // The second would change something already marked as
                // changing.
                let change2 = Change::new(content_ref.clone(), "Foo".to_string());
                assert_eq!(parser.register_change(change2).unwrap_err(), EditError::Conflict);
            } else {
                panic!("Wrong type found!");
            }
        }
        _ => {
            panic!("Wrong type found!");
        }
    }
}

#[test]
fn using_old_references() {
    let data = "<?xml version=\"1.0\" encoding=\"UTF-8\"?>
<quiz>
  <question type=\"some\">
  \t<name>Test question</name>
  </question>
</quiz>
"
    .to_string();
    let mut parser = QParser::from_string(data).expect("Valid input should not fail");
    let elements: Vec<ContentType> = parser.get_elements(0, vec!["name".to_string()]).unwrap();
    assert_eq!(elements.len(), 1);

    match &elements[0] {
        ContentType::Element(tag_name, whole_element_ref, contents_and_attributes) => {
            assert_eq!(tag_name, &"name".to_string());
            assert_eq!(contents_and_attributes.len(), 1);
            if let ContentType::ElementContent(content_ref) = &contents_and_attributes[0] {
                assert_eq!(content_ref.content, "Test question".to_string());

                // Change something and commit it.
                let change =
                    Change::new(whole_element_ref.clone(), "<nimi>Bar</nimi>".to_string());
                parser.register_change(change).unwrap();
                parser.execute_changes();

                // Reusing the old search results must fail: they were made
                // against a superseded version of the document.
                let change2 = Change::new(content_ref.clone(), "Test".to_string());
                assert_eq!(
                    parser.register_change(change2).unwrap_err(),
                    EditError::StaleReference
                );
            } else {
                panic!("Wrong type found!");
            }
        }
        _ => {
            panic!("Wrong type found!");
        }
    }
}

#[test]
fn trying_to_parse_a_broken_document() {
    let data = "<?xml version=\"1.0\" encoding=\"UTF-8\"?>
<quiz>
  <question type=\"some\">
  \t<pair></missing>
  </question>
</quiz>
"
    .to_string();
    let parser: Result<QParser, String> = QParser::from_string(data);

    match parser {
        Ok(_) => {
            panic!("It was supposed to fail.");
        }
        Err(s) => {
            assert_eq!(s, "Errors parsing the original document.".to_string());
        }
    }
}

/// Changes are not checked for well-formedness, so a caller can break the
/// document; every later query then fails, though the raw text stays
/// readable.
#[test]
fn continuing_after_breaking_a_document() {
    let data = "<?xml version=\"1.0\" encoding=\"UTF-8\"?>
<quiz>
  <question type=\"some\">
  \t<trouble/>
  </question>
</quiz>
"
    .to_string();
    let mut parser = QParser::from_string(data).expect("Valid input should not fail");
    let elements: Vec<ContentType> = parser.get_elements(0, vec!["trouble".to_string()]).unwrap();
    assert_eq!(elements.len(), 1);

    match &elements[0] {
        ContentType::Element(tag_name, whole_element_ref, contents_and_attributes) => {
            assert_eq!(tag_name, &"trouble".to_string());
            assert_eq!(contents_and_attributes.len(), 0);
            assert_eq!(whole_element_ref.content, "<trouble/>");

            // Replace that whole element with something broken; the system
            // will happily execute the change.
            let change = Change::new(whole_element_ref.clone(), "<missing></part>".to_string());
            parser.register_change(change).unwrap();
            parser.execute_changes();

            // But searching again must fail.
            let r = parser.get_elements(0, vec!["anything".to_string()]);
            assert_eq!(r.unwrap_err(), EditError::BrokenDocument);
        }
        _ => {
            panic!("Wrong type found!");
        }
    }
}
