//! Pending edits.
//!
//! A [`Change`] pairs a [`ContentRef`] with the text that is to replace the
//! referenced range.  The three constructors differ only in how they prepare
//! the replacement text: raw, entity escaped for attribute values, or CDATA
//! wrapped when the text needs it.

use vstd::prelude::*;

use crate::refs::ContentRef;
use crate::refs::ContentRefV;
use crate::text::attr_escape_chars;
use crate::text::attr_escape_seq;
use crate::text::cdata_wrap_chars;
use crate::text::cdata_wrap_seq;
use crate::text::chars_text;
use crate::text::text_chars;

verus! {

/// The mathematical value of a [`Change`].
pub ghost struct ChangeV {
    /// The reference to the range that will change.
    pub position: ContentRefV,
    /// The text that will replace the range.
    pub new_content: Seq<char>,
}

/// A pending replacement of the range at `position` by `new_content`.
pub struct Change {
    /// The position that will change.
    pub position: ContentRef,
    /// The new content of that position.
    pub new_content: String,
}

impl View for Change {
    type V = ChangeV;

    open spec fn view(&self) -> ChangeV {
        ChangeV { position: self.position@, new_content: self.new_content@ }
    }
}

impl Change {
    /// A change that replaces the range with the entity-escaped form of
    /// `value`, for modifying attribute values.
    pub fn attribute_escaped_version(position: ContentRef, value: String) -> (c: Change)
        ensures
            c@.position == position@,
            c@.new_content == attr_escape_seq(value@),
    {
        let v = text_chars(value.as_str());
        let escaped = attr_escape_chars(&v);
        Change { position, new_content: chars_text(&escaped) }
    }

    /// A change that replaces the range with `value`, wrapped in CDATA
    /// markers iff `value` holds a character that needs it.  This is not a
    /// nesting-safe CDATA escape: a value that already holds a closing
    /// marker is the caller's responsibility.
    pub fn cdata_wrapped_version(position: ContentRef, value: String) -> (c: Change)
        ensures
            c@.position == position@,
            c@.new_content == cdata_wrap_seq(value@),
    {
        let v = text_chars(value.as_str());
        let wrapped = cdata_wrap_chars(&v);
        Change { position, new_content: chars_text(&wrapped) }
    }

    /// A change that replaces the range with `value` as it is.
    pub fn new(position: ContentRef, value: String) -> (c: Change)
        ensures
            c@.position == position@,
            c@.new_content == value@,
    {
        Change { position, new_content: value }
    }
}

} // verus!
