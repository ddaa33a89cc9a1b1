//! Versioned references into document text and the content-type algebra.
//!
//! A [`ContentRef`] is an immutable pointer into the document: a snapshot of
//! the referenced characters, the half-open position range they occupied, and
//! the document version at which that range was valid.  A [`ContentType`]
//! classifies an XML construct into one of four variants, each wrapping such
//! references.

use vstd::prelude::*;
use vstd::string::StringExecFns;

use crate::text::entity_decode_seq;
use crate::text::entity_decode_chars;
use crate::text::chars_text;
use crate::text::text_chars;
use crate::text::unwrap_cdata_chars;
use crate::text::unwrap_cdata_seq;

verus! {

broadcast use vstd::std_specs::vec::group_vec_axioms;

/// The mathematical value of a [`ContentRef`].
pub ghost struct ContentRefV {
    /// The snapshot of the referenced characters.
    pub content: Seq<char>,
    /// The first referenced position.
    pub start: int,
    /// One past the last referenced position.
    pub end: int,
    /// The document version the positions refer to.
    pub version: int,
}

/// A reference to a range of the document text: a snapshot of the characters
/// in the range, the range itself, and the document version it was taken at.
#[derive(Debug, PartialEq, Clone)]
pub struct ContentRef {
    /// The textual content of whatever was requested.
    pub content: String,
    /// The position of the content in the document text.
    pub start: usize,
    /// The matching end position, exclusive.
    pub end: usize,
    /// The document version during which the positions were valid.
    pub version_num: usize,
}

impl View for ContentRef {
    type V = ContentRefV;

    open spec fn view(&self) -> ContentRefV {
        ContentRefV {
            content: self.content@,
            start: self.start as int,
            end: self.end as int,
            version: self.version_num as int,
        }
    }
}

impl ContentRef {
    /// A reference equal to this one.
    pub fn duplicate(&self) -> (r: ContentRef)
        ensures
            r@ == self@,
    {
        ContentRef {
            content: self.content.clone(),
            start: self.start,
            end: self.end,
            version_num: self.version_num,
        }
    }

    /// The snapshot with CDATA markers removed, for content that may be
    /// CDATA wrapped.
    pub fn unwrap_cdata(&self) -> (r: String)
        ensures
            r@ == unwrap_cdata_seq(self@.content),
    {
        let v = text_chars(self.content.as_str());
        let u = unwrap_cdata_chars(&v);
        chars_text(&u)
    }

    /// The snapshot with the seven basic entities decoded, for attribute
    /// values.
    pub fn basic_entity_decode(&self) -> (r: String)
        ensures
            r@ == entity_decode_seq(self@.content),
    {
        let v = text_chars(self.content.as_str());
        let d = entity_decode_chars(&v);
        chars_text(&d)
    }
}

/// The mathematical value of a [`ContentType`].
pub ghost enum ContentTypeV {
    /// An attribute's name and the reference to its value inside the quotes.
    AttributeValue(Seq<char>, ContentRefV),
    /// The content inside an element.
    ElementContent(ContentRefV),
    /// An element: tag name, reference to the whole element, and its parts.
    Element(Seq<char>, ContentRefV, Seq<ContentTypeV>),
    /// A formatted-text element: tag name, reference to the `format`
    /// attribute's value, and its parts.
    MoodleTextElement(Seq<char>, ContentRefV, Seq<ContentTypeV>),
}

/// Classification of an XML construct.  A construct that exposes parts
/// beside the whole must not have both the whole and a part edited in one
/// batch; the change buffer rejects such a pair as overlapping.
#[derive(Debug)]
pub enum ContentType {
    /// Name of an attribute and a reference to the value inside its quotes.
    AttributeValue(String, ContentRef),
    /// The content inside some element.
    ElementContent(ContentRef),
    /// Name of an element, a reference to the whole element, and the list of
    /// its attributes, with the element's content as the last entry when the
    /// element is not self-closing.
    Element(String, ContentRef, Vec<ContentType>),
    /// Tag name, reference to the `format` attribute's value, the content of
    /// the inner `text` element first, and any attachment elements after it.
    MoodleTextElement(String, ContentRef, Vec<ContentType>),
}

/// The mathematical value of a [`ContentType`].
pub open spec fn ct_view(c: ContentType) -> ContentTypeV
    decreases c,
{
    match c {
        ContentType::AttributeValue(name, r) => ContentTypeV::AttributeValue(name@, r@),
        ContentType::ElementContent(r) => ContentTypeV::ElementContent(r@),
        ContentType::Element(tag, whole, parts) => ContentTypeV::Element(
            tag@,
            whole@,
            cts_view(parts@),
        ),
        ContentType::MoodleTextElement(tag, format, parts) => ContentTypeV::MoodleTextElement(
            tag@,
            format@,
            cts_view(parts@),
        ),
    }
}

/// The mathematical values of a sequence of [`ContentType`]s.
pub open spec fn cts_view(s: Seq<ContentType>) -> Seq<ContentTypeV>
    decreases s,
{
    if s.len() == 0 {
        Seq::<ContentTypeV>::empty()
    } else {
        seq![ct_view(s[0])] + cts_view(s.drop_first())
    }
}

impl View for ContentType {
    type V = ContentTypeV;

    open spec fn view(&self) -> ContentTypeV {
        ct_view(*self)
    }
}

/// `cts_view` maps the sequence pointwise.
pub proof fn lemma_cts_view_index(s: Seq<ContentType>)
    ensures
        cts_view(s).len() == s.len(),
        forall|i: int| 0 <= i < s.len() ==> cts_view(s)[i] == ct_view(s[i]),
    decreases s.len(),
{
    if s.len() > 0 {
        lemma_cts_view_index(s.drop_first());
    }
}

/// The pointwise view of a concatenation is the concatenation of the
/// pointwise views.
pub proof fn lemma_cts_view_concat(a: Seq<ContentType>, b: Seq<ContentType>)
    ensures
        cts_view(a + b) == cts_view(a) + cts_view(b),
    decreases a.len(),
{
    if a.len() == 0 {
        assert(a + b =~= b);
        assert(cts_view(a) =~= Seq::<ContentTypeV>::empty());
        assert(cts_view(a) + cts_view(b) =~= cts_view(b));
    } else {
        assert((a + b)[0] == a[0]);
        assert((a + b).len() > 0);
        assert((a + b).drop_first() =~= a.drop_first() + b);
        lemma_cts_view_concat(a.drop_first(), b);
        assert(seq![ct_view(a[0])] + (cts_view(a.drop_first()) + cts_view(b)) =~= (seq![
            ct_view(a[0]),
        ] + cts_view(a.drop_first())) + cts_view(b));
    }
}

/// Appending one value extends the pointwise view by its view.
pub proof fn lemma_cts_view_snoc(s: Seq<ContentType>)
    requires
        s.len() > 0,
    ensures
        cts_view(s) == cts_view(s.drop_last()) + seq![ct_view(s.last())],
    decreases s.len(),
{
    if s.len() == 1 {
        assert(s.drop_last() =~= Seq::<ContentType>::empty());
        assert(s.drop_first() =~= Seq::<ContentType>::empty());
        assert(cts_view(s) =~= cts_view(s.drop_last()) + seq![ct_view(s.last())]);
    } else {
        lemma_cts_view_snoc(s.drop_first());
        assert(s.drop_first().drop_last() =~= s.drop_last().drop_first());
        assert(s.drop_first().last() == s.last());
        assert(s.drop_last()[0] == s[0]);
        assert(cts_view(s.drop_last()) =~= seq![ct_view(s.drop_last()[0])] + cts_view(
            s.drop_last().drop_first(),
        ));
        assert(cts_view(s) =~= cts_view(s.drop_last()) + seq![ct_view(s.last())]);
    }
}

/// The first attribute named `name` among `parts`, scanning from `i`.
pub open spec fn find_attr_from(parts: Seq<ContentTypeV>, name: Seq<char>, i: int) -> Option<
    ContentRefV,
>
    decreases parts.len() - i,
{
    if i < 0 || i >= parts.len() {
        None
    } else {
        match parts[i] {
            ContentTypeV::AttributeValue(an, v) => if an == name {
                Some(v)
            } else {
                find_attr_from(parts, name, i + 1)
            },
            _ => find_attr_from(parts, name, i + 1),
        }
    }
}

/// What [`ContentType::get_attr`] returns: the named attribute's value
/// reference, where the variant carries one.
pub open spec fn spec_get_attr(c: ContentTypeV, name: Seq<char>) -> Option<ContentRefV> {
    match c {
        ContentTypeV::AttributeValue(an, v) => if an == name {
            Some(v)
        } else {
            None
        },
        ContentTypeV::Element(_, _, parts) => find_attr_from(parts, name, 0),
        ContentTypeV::MoodleTextElement(_, format, _) => if name == "format"@ {
            Some(format)
        } else {
            None
        },
        ContentTypeV::ElementContent(_) => None,
    }
}

/// What [`ContentType::get_content`] returns: the primary content reference
/// of the construct, absent for an element with no content part.
pub open spec fn spec_get_content(c: ContentTypeV) -> Option<ContentRefV> {
    match c {
        ContentTypeV::AttributeValue(_, v) => Some(v),
        ContentTypeV::ElementContent(v) => Some(v),
        ContentTypeV::Element(_, _, parts) => if parts.len() > 0 && parts.last() matches
            ContentTypeV::ElementContent(_) {
            Some(parts.last()->ElementContent_0)
        } else {
            None
        },
        ContentTypeV::MoodleTextElement(_, _, parts) => if parts.len() > 0 && parts[0] matches
            ContentTypeV::ElementContent(_) {
            Some(parts[0]->ElementContent_0)
        } else {
            None
        },
    }
}

impl ContentType {
    /// The value reference of the attribute named `name`, if this construct
    /// carries such an attribute.
    pub fn get_attr(self, name: String) -> (r: Option<ContentRef>)
        ensures
            match r {
                Some(v) => spec_get_attr(self@, name@) == Some(v@),
                None => spec_get_attr(self@, name@) is None,
            },
    {
        match self {
            ContentType::AttributeValue(aname, value) => {
                if aname == name {
                    Some(value)
                } else {
                    None
                }
            },
            ContentType::Element(_tag, _whole, attributes_and_value) => {
                proof {
                    lemma_cts_view_index(attributes_and_value@);
                }
                let ghost parts = cts_view(attributes_and_value@);
                let n = attributes_and_value.len();
                let mut i: usize = 0;
                while i < n
                    invariant
                        n == attributes_and_value@.len(),
                        i <= n,
                        parts == cts_view(attributes_and_value@),
                        parts.len() == n,
                        forall|k: int|
                            0 <= k < n ==> parts[k] == ct_view(attributes_and_value@[k]),
                        spec_get_attr(self@, name@) == find_attr_from(parts, name@, i as int),
                    decreases n - i,
                {
                    match &attributes_and_value[i] {
                        ContentType::AttributeValue(aname, value) => {
                            proof {
                                assert(parts[i as int] == ct_view(attributes_and_value@[i as int]));
                            }
                            if *aname == name {
                                return Some(value.duplicate());
                            }
                        },
                        _ => {
                            proof {
                                assert(parts[i as int] == ct_view(attributes_and_value@[i as int]));
                            }
                        },
                    }
                    i += 1;
                }
                None
            },
            ContentType::MoodleTextElement(_, format, _) => {
                let format_name = String::from_str("format");
                if name == format_name {
                    Some(format)
                } else {
                    None
                }
            },
            _ => { None },
        }
    }

    /// The primary content reference of this construct: the attribute value,
    /// the element content, the last part of a plain element, or the inner
    /// text content of a formatted-text element.  `None` for an element with
    /// no content part, such as a self-closing empty element.
    pub fn get_content(self) -> (r: Option<ContentRef>)
        ensures
            match r {
                Some(v) => spec_get_content(self@) == Some(v@),
                None => spec_get_content(self@) is None,
            },
    {
        match self {
            ContentType::AttributeValue(_, value) => Some(value),
            ContentType::ElementContent(content) => Some(content),
            ContentType::Element(_, _, attributes_and_value) => {
                proof {
                    lemma_cts_view_index(attributes_and_value@);
                }
                if attributes_and_value.len() > 0 {
                    match &attributes_and_value[attributes_and_value.len() - 1] {
                        ContentType::ElementContent(content) => Some(content.duplicate()),
                        _ => None,
                    }
                } else {
                    None
                }
            },
            ContentType::MoodleTextElement(_, _, content_and_files) => {
                proof {
                    lemma_cts_view_index(content_and_files@);
                }
                if content_and_files.len() > 0 {
                    match &content_and_files[0] {
                        ContentType::ElementContent(content) => Some(content.duplicate()),
                        _ => None,
                    }
                } else {
                    None
                }
            },
        }
    }
}

/// The mathematical value of a [`Question`].
pub ghost struct QuestionV {
    /// The 0-based ordinal among retained questions.
    pub index: int,
    /// The question's `type` attribute value.
    pub qtype: Seq<char>,
    /// The reference to the question's name text.
    pub name: ContentRefV,
    /// The reference to the whole `question` element.
    pub whole_element: ContentRefV,
}

/// One record of question identification: a retained `question` element, its
/// type, its name text and the whole element.
#[derive(Debug)]
pub struct Question {
    /// The 0-based index of this question among retained questions; use it
    /// when querying elements inside the question.
    pub index: usize,
    /// The value of the `type` attribute of the `question` element.
    pub qtype: String,
    /// The name element's content.
    pub name: ContentRef,
    /// A reference to the whole `question` element.
    pub whole_element: ContentRef,
}

impl View for Question {
    type V = QuestionV;

    open spec fn view(&self) -> QuestionV {
        QuestionV {
            index: self.index as int,
            qtype: self.qtype@,
            name: self.name@,
            whole_element: self.whole_element@,
        }
    }
}

} // verus!
