use moodle_xml_edit::{Change, ContentType, QParser, Question};

/// A question.xml file can contain many questions of different types;
/// the first step for acting on them is to identify the ones that are of
/// suitable types.
#[test]
fn count_questions_in_content() {
    let data = "<?xml version=\"1.0\" encoding=\"UTF-8\"?>
<quiz>
<!-- question: 1  -->
  <question type=\"some\">...</question>
<!-- question: 2  -->
  <question type=\"stack\">...</question>
</quiz>
"
    .to_string();
    let mut parser = QParser::from_string(data).expect("Valid input should not fail");
    let questions: Vec<Question> = parser.find_questions().unwrap();

    assert_eq!(questions.len(), 2);
    assert_eq!(questions[0].qtype, "some");
    assert_eq!(questions[0].index, 0);
    assert_eq!(
        questions[0].whole_element.content,
        "<question type=\"some\">...</question>".to_string()
    );
    assert_eq!(questions[1].qtype, "stack");
    assert_eq!(questions[1].index, 1);
    assert_eq!(
        questions[1].whole_element.content,
        "<question type=\"stack\">...</question>".to_string()
    );
}

/// Once one has identified a question one can query for elements inside it
/// and gain ContentRefs to parts of them.
#[test]
fn extract_named_element_from_question() {
    let data = "<?xml version=\"1.0\" encoding=\"UTF-8\"?>
<quiz>
<!-- question: 1  -->
  <question type=\"some\">
  \t<name>Test question</name>
  </question>
<!-- question: 2  -->
  <question type=\"stack\">...</question>
</quiz>
"
    .to_string();
    let mut parser = QParser::from_string(data).expect("Valid input should not fail");
    let index: usize = parser
        .find_questions()
        .unwrap()
        .into_iter()
        .filter(|q| q.qtype == "some".to_string())
        .map(|q| q.index)
        .next()
        .expect("The above data has atleast one such question.");

    let elements: Vec<ContentType> = parser.get_elements(index, vec!["name".to_string()]).unwrap();

    assert_eq!(index, 0);
    assert_eq!(elements.len(), 1);

    match &elements[0] {
        ContentType::Element(tag_name, _whole_element_ref, contents_and_attributes) => {
            assert_eq!(tag_name, &"name".to_string());
            assert_eq!(contents_and_attributes.len(), 1);
            if let ContentType::ElementContent(content_ref) = &contents_and_attributes[0] {
                assert_eq!(content_ref.content, "Test question".to_string());
            } else {
                panic!("Wrong type found!");
            }
        }
        _ => {
            panic!("Wrong type found!");
        }
    }
}

/// Once you have a ContentRef you can replace that bit of content.
#[test]
fn update_named_element_from_question() {
    let data = "<?xml version=\"1.0\" encoding=\"UTF-8\"?>
<quiz>
<!-- question: 1  -->
  <question type=\"some\">
  \t<name>Test question</name>
  </question>
<!-- question: 2  -->
  <question type=\"stack\">...</question>
</quiz>
"
    .to_string();
    let target_data = "<?xml version=\"1.0\" encoding=\"UTF-8\"?>
<quiz>
<!-- question: 1  -->
  <question type=\"some\">
  \t<name>Lorem ipsum question</name>
  </question>
<!-- question: 2  -->
  <question type=\"stack\">...</question>
</quiz>
"
    .to_string();
    let mut parser = QParser::from_string(data).expect("Valid input should not fail");
    let index: usize = parser
        .find_questions()
        .unwrap()
        .into_iter()
        .filter(|q| q.qtype == "some".to_string())
        .map(|q| q.index)
        .next()
        .expect("The above data has atleast one such question.");

    let elements: Vec<ContentType> = parser.get_elements(index, vec!["name".to_string()]).unwrap();

    assert_eq!(index, 0);
    assert_eq!(elements.len(), 1);

    match &elements[0] {
        ContentType::Element(tag_name, _whole_element_ref, contents_and_attributes) => {
            assert_eq!(tag_name, &"name".to_string());
            assert_eq!(contents_and_attributes.len(), 1);
            if let ContentType::ElementContent(content_ref) = &contents_and_attributes[0] {
                assert_eq!(content_ref.content, "Test question".to_string());

                let change: Change = Change {
                    position: content_ref.clone(),
                    new_content: "Lorem ipsum question".to_string(),
                };
                parser.register_change(change).unwrap();
                parser.execute_changes();

                assert_eq!(parser.get_current_content(), target_data);
            } else {
                panic!("Wrong type found!");
            }
        }
        _ => {
            panic!("Wrong type found!");
        }
    }
}

/// One can also target attributes and change their values; remember to
/// entity encode values, as anything may be written.
#[test]
fn change_attribute_value_wrong_way() {
    let data = "<?xml version=\"1.0\" encoding=\"UTF-8\"?>
<quiz>
  <question type=\"some\">
  \t<foo bar='&amp;abc'>test</foo>
  </question>
</quiz>
"
    .to_string();
    let target_data_a = "<?xml version=\"1.0\" encoding=\"UTF-8\"?>
<quiz>
  <question type=\"some\">
  \t<foo bar='&'>TEST</foo>
  </question>
</quiz>
"
    .to_string();
    let mut parser = QParser::from_string(data).expect("Valid input should not fail");
    let elements: Vec<ContentType> = parser.get_elements(0, vec!["foo".to_string()]).unwrap();
    assert_eq!(elements.len(), 1);

    match &elements[0] {
        ContentType::Element(tag_name, _whole_element_ref, contents_and_attributes) => {
            assert_eq!(tag_name, &"foo".to_string());
            assert_eq!(contents_and_attributes.len(), 2);
            if let ContentType::AttributeValue(name, content_ref) = &contents_and_attributes[0] {
                assert_eq!(name, &"bar".to_string());
                assert_eq!(content_ref.content, "&amp;abc".to_string());
                assert_eq!(content_ref.basic_entity_decode(), "&abc".to_string());

                let change: Change = Change {
                    position: content_ref.clone(),
                    new_content: "&".to_string(),
                };
                parser.register_change(change).unwrap();
            } else {
                panic!("Wrong type found!");
            }

            if let ContentType::ElementContent(content_ref) = &contents_and_attributes[1] {
                assert_eq!(content_ref.content, "test".to_string());

                let change: Change = Change {
                    position: content_ref.clone(),
                    new_content: "TEST".to_string(),
                };
                parser.register_change(change).unwrap();
            } else {
                panic!("Wrong type found!");
            }

            parser.execute_changes();

            assert_eq!(parser.get_current_content(), target_data_a);
        }
        _ => {
            panic!("Wrong type found!");
        }
    }
}

/// When you want to entity encode attribute values there is a constructor
/// for that.
#[test]
fn change_attribute_value_correct_way() {
    let data = "<?xml version=\"1.0\" encoding=\"UTF-8\"?>
<quiz>
  <question type=\"some\">
  \t<foo bar='&amp;abc'>test</foo>
  </question>
</quiz>
"
    .to_string();
    let target_data_a = "<?xml version=\"1.0\" encoding=\"UTF-8\"?>
<quiz>
  <question type=\"some\">
  \t<foo bar='&amp;&apos;'>TEST&</foo>
  </question>
</quiz>
"
    .to_string();
    let mut parser = QParser::from_string(data).expect("Valid input should not fail");
    let elements: Vec<ContentType> = parser.get_elements(0, vec!["foo".to_string()]).unwrap();
    assert_eq!(elements.len(), 1);

    match &elements[0] {
        ContentType::Element(tag_name, _whole_element_ref, contents_and_attributes) => {
            assert_eq!(tag_name, &"foo".to_string());
            assert_eq!(contents_and_attributes.len(), 2);
            if let ContentType::AttributeValue(name, content_ref) = &contents_and_attributes[0] {
                assert_eq!(name, &"bar".to_string());
                assert_eq!(content_ref.content, "&amp;abc".to_string());
                assert_eq!(content_ref.basic_entity_decode(), "&abc".to_string());

                let change: Change =
                    Change::attribute_escaped_version(content_ref.clone(), "&'".to_string());
                parser.register_change(change).unwrap();
            } else {
                panic!("Wrong type found!");
            }

            if let ContentType::ElementContent(content_ref) = &contents_and_attributes[1] {
                assert_eq!(content_ref.content, "test".to_string());

                let change: Change = Change::new(content_ref.clone(), "TEST&".to_string());
                parser.register_change(change).unwrap();
            } else {
                panic!("Wrong type found!");
            }

            parser.execute_changes();

            assert_eq!(parser.get_current_content(), target_data_a);
        }
        _ => {
            panic!("Wrong type found!");
        }
    }
}

/// Any element with a format attribute and a text child element is
/// considered a formatted-text element and gets clearer access methods.
#[test]
fn moodle_formated_text_elements() {
    let data = "<?xml version=\"1.0\" encoding=\"UTF-8\"?>
<quiz>
  <question type=\"some\">
  \t<prtcorrect format=\"html\">
      <text><![CDATA[<span style=\"font-size: 1.5em; color:green;\"><i class=\"fa fa-check\"></i></span> Correct answer, well done.]]></text>
    </prtcorrect>
  </question>
</quiz>
"
    .to_string();
    let target_data_a = "<?xml version=\"1.0\" encoding=\"UTF-8\"?>
<quiz>
  <question type=\"some\">
  \t<prtcorrect format=\"other\">
      <text><![CDATA[[[commonstring key='correct_answer_well_done'/]]]]></text>
    </prtcorrect>
  </question>
</quiz>
"
    .to_string();
    let mut parser = QParser::from_string(data).expect("Valid input should not fail");
    let elements: Vec<ContentType> =
        parser.get_elements(0, vec!["prtcorrect".to_string()]).unwrap();
    assert_eq!(elements.len(), 1);

    match &elements[0] {
        ContentType::MoodleTextElement(tag_name, format_attribute, text_and_file_elements) => {
            assert_eq!(tag_name, &"prtcorrect".to_string());
            assert_eq!(format_attribute.content, "html".to_string());
            assert_eq!(text_and_file_elements.len(), 1);

            let change1 =
                Change::attribute_escaped_version(format_attribute.clone(), "other".to_string());
            parser.register_change(change1).unwrap();

            match &text_and_file_elements[0] {
                ContentType::ElementContent(content_ref) => {
                    assert_eq!(content_ref.content, "<![CDATA[<span style=\"font-size: 1.5em; color:green;\"><i class=\"fa fa-check\"></i></span> Correct answer, well done.]]>".to_string());
                    assert_eq!(content_ref.unwrap_cdata(), "<span style=\"font-size: 1.5em; color:green;\"><i class=\"fa fa-check\"></i></span> Correct answer, well done.".to_string());

                    let change2 = Change::cdata_wrapped_version(
                        content_ref.clone(),
                        "[[commonstring key='correct_answer_well_done'/]]".to_string(),
                    );
                    parser.register_change(change2).unwrap();

                    parser.execute_changes();

                    assert_eq!(parser.get_current_content(), target_data_a);
                }
                _ => {
                    panic!("Wrong type found!");
                }
            }
        }
        _ => {
            panic!("Wrong type found!");
        }
    }
}

/// An empty self-closing element has no content reference, but the whole
/// element can be replaced, and after that its zero-length content can be
/// addressed.
#[test]
fn whole_element_modification() {
    let data = "<?xml version=\"1.0\" encoding=\"UTF-8\"?>
<quiz>
  <question type=\"some\">
  \t<trouble/>
  </question>
</quiz>
"
    .to_string();
    let target_data_a = "<?xml version=\"1.0\" encoding=\"UTF-8\"?>
<quiz>
  <question type=\"some\">
  \t<notrouble></notrouble>
  </question>
</quiz>
"
    .to_string();
    let target_data_b = "<?xml version=\"1.0\" encoding=\"UTF-8\"?>
<quiz>
  <question type=\"some\">
  \t<notrouble>something</notrouble>
  </question>
</quiz>
"
    .to_string();
    let mut parser = QParser::from_string(data).expect("Valid input should not fail");
    let elements: Vec<ContentType> = parser.get_elements(0, vec!["trouble".to_string()]).unwrap();
    assert_eq!(elements.len(), 1);

    match &elements[0] {
        ContentType::Element(tag_name, whole_element_ref, contents_and_attributes) => {
            assert_eq!(tag_name, &"trouble".to_string());
            assert_eq!(contents_and_attributes.len(), 0);
            assert_eq!(whole_element_ref.content, "<trouble/>");

            parser
                .register_change(Change::new(
                    whole_element_ref.clone(),
                    "<notrouble></notrouble>".to_string(),
                ))
                .unwrap();

            parser.execute_changes();
            assert_eq!(parser.get_current_content(), target_data_a);

            let elements2: Vec<ContentType> =
                parser.get_elements(0, vec!["notrouble".to_string()]).unwrap();
            assert_eq!(elements2.len(), 1);
            match &elements2[0] {
                ContentType::Element(tag_name2, whole_element_ref2, contents_and_attributes2) => {
                    assert_eq!(tag_name2, &"notrouble".to_string());
                    assert_eq!(contents_and_attributes2.len(), 1);
                    assert_eq!(whole_element_ref2.content, "<notrouble></notrouble>");

                    if let ContentType::ElementContent(content_ref) = &contents_and_attributes2[0]
                    {
                        assert_eq!(content_ref.content, "");

                        parser
                            .register_change(Change::new(
                                content_ref.clone(),
                                "something".to_string(),
                            ))
                            .unwrap();
                        parser.execute_changes();
                        assert_eq!(parser.get_current_content(), target_data_b);
                    } else {
                        panic!("Wrong type found!");
                    }
                }
                _ => {
                    panic!("Wrong type found!");
                }
            }
        }
        _ => {
            panic!("Wrong type found!");
        }
    }
}
