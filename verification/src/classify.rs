//! The construct classifier.
//!
//! Given an element of the parsed tree and a set of tag names, the
//! classifier walks the element's subtree in document order and produces a
//! [`ContentType`] for every element whose tag is in the set: the values of
//! its attributes between their quotes, its content range, and the
//! formatted-text composite for an element that carries a `format`
//! attribute and a direct `text` child.  Every reference it hands out
//! snapshots exactly the characters of its range.

use vstd::prelude::*;
use vstd::string::StringExecFns;

use crate::refs::ContentRef;
use crate::refs::ContentRefV;
use crate::refs::ContentType;
use crate::refs::ContentTypeV;
use crate::refs::ct_view;
use crate::refs::cts_view;
use crate::refs::lemma_cts_view_concat;
use crate::refs::lemma_cts_view_snoc;
use crate::text::chars_text;
use crate::xml::XmlAttr;
use crate::xml::XmlAttrV;
use crate::xml::XmlNode;
use crate::xml::XmlNodeV;
use crate::xml::xn_view;
use crate::xml::xns_view;
use crate::xml::lemma_xns_view_index;

verus! {

broadcast use vstd::std_specs::vec::group_vec_axioms;

/// The tag names of a query, as character sequences.
pub open spec fn tags_view(s: Seq<String>) -> Seq<Seq<char>> {
    s.map_values(|t: String| t@)
}

/// The first position at or after `i` holding a quote character.
pub open spec fn find_quote_from(text: Seq<char>, i: int) -> Option<int>
    decreases text.len() - i,
{
    if i < 0 || i >= text.len() {
        None
    } else if text[i] == '"' || text[i] == '\'' {
        Some(i)
    } else {
        find_quote_from(text, i + 1)
    }
}

/// The first position at or after `i` holding `c`.
pub open spec fn find_char_from(text: Seq<char>, c: char, i: int) -> Option<int>
    decreases text.len() - i,
{
    if i < 0 || i >= text.len() {
        None
    } else if text[i] == c {
        Some(i)
    } else {
        find_char_from(text, c, i + 1)
    }
}

/// The first position at or after `i` where `><` stands, the pair ending by
/// `end`.
pub open spec fn find_gap_from(text: Seq<char>, i: int, end: int) -> Option<int>
    decreases end - i,
{
    if i < 0 || i + 2 > end || i + 2 > text.len() {
        None
    } else if text[i] == '>' && text[i + 1] == '<' {
        Some(i)
    } else {
        find_gap_from(text, i + 1, end)
    }
}

/// The attribute-value part of `a`: the characters strictly between the
/// first quote after the attribute's start and the matching quote of the
/// same kind.
pub open spec fn attr_value_part(a: XmlAttrV, text: Seq<char>, ver: int) -> Option<ContentTypeV> {
    match find_quote_from(text, a.start) {
        Some(q) => match find_char_from(text, text[q], q + 1) {
            Some(e) => Some(
                ContentTypeV::AttributeValue(
                    a.name,
                    ContentRefV {
                        content: text.subrange(q + 1, e),
                        start: q + 1,
                        end: e,
                        version: ver,
                    },
                ),
            ),
            None => None,
        },
        None => None,
    }
}

/// The attribute-value parts of `attrs`, in document order.
pub open spec fn attr_parts(attrs: Seq<XmlAttrV>, text: Seq<char>, ver: int) -> Option<
    Seq<ContentTypeV>,
>
    decreases attrs.len(),
{
    if attrs.len() == 0 {
        Some(Seq::<ContentTypeV>::empty())
    } else {
        match (attr_value_part(attrs[0], text, ver), attr_parts(attrs.drop_first(), text, ver)) {
            (Some(a), Some(rest)) => Some(seq![a] + rest),
            _ => None,
        }
    }
}

/// The value reference of the first attribute named `format`.
pub open spec fn format_ref(attrs: Seq<XmlAttrV>, text: Seq<char>, ver: int) -> Option<ContentRefV>
    decreases attrs.len(),
{
    if attrs.len() == 0 {
        None
    } else if attrs[0].name == "format"@ {
        match attr_value_part(attrs[0], text, ver) {
            Some(ContentTypeV::AttributeValue(_, r)) => Some(r),
            _ => None,
        }
    } else {
        format_ref(attrs.drop_first(), text, ver)
    }
}

/// The node's range lies within the text.
pub open spec fn node_range_ok(n: XmlNodeV, text: Seq<char>) -> bool {
    0 <= n.start <= n.end <= text.len()
}

/// The node's own text ends in `/>`.
pub open spec fn is_self_closing(n: XmlNodeV, text: Seq<char>) -> bool {
    n.end - n.start >= 2 && text[n.end - 2] == '/' && text[n.end - 1] == '>'
}

/// The first direct child that is an element named `name`.
pub open spec fn first_child_named(s: Seq<XmlNodeV>, name: Seq<char>) -> Option<XmlNodeV>
    decreases s.len(),
{
    if s.len() == 0 {
        None
    } else if s[0].is_element && s[0].tag == name {
        Some(s[0])
    } else {
        first_child_named(s.drop_first(), name)
    }
}

/// The first direct child that is an element named `text`.
pub open spec fn first_text_child(s: Seq<XmlNodeV>) -> Option<XmlNodeV> {
    first_child_named(s, "text"@)
}

/// The position of the first direct child of `s` that is an element named
/// `name`.
pub fn find_child_named(s: &Vec<XmlNode>, name: &String) -> (r: Option<usize>)
    ensures
        match r {
            Some(k) => k < s@.len() && first_child_named(xns_view(s@), name@) == Some(
                xns_view(s@)[k as int],
            ),
            None => first_child_named(xns_view(s@), name@) is None,
        },
{
    let ghost sv = xns_view(s@);
    proof {
        lemma_xns_view_index(s@);
        assert(sv.skip(0) =~= sv);
    }
    let nc = s.len();
    let mut k: usize = 0;
    while k < nc
        invariant
            nc == s@.len(),
            sv == xns_view(s@),
            sv.len() == nc,
            forall|m: int| 0 <= m < nc ==> sv[m] == s@[m]@,
            k <= nc,
            first_child_named(sv, name@) == first_child_named(sv.skip(k as int), name@),
        decreases nc - k,
    {
        proof {
            assert(sv.skip(k as int)[0] == sv[k as int]);
            assert(sv.skip(k as int).drop_first() =~= sv.skip(k + 1));
        }
        if s[k].is_element && s[k].tag == *name {
            return Some(k);
        }
        k += 1;
    }
    proof {
        assert(sv.skip(nc as int) =~= Seq::<XmlNodeV>::empty());
    }
    None
}

/// The content part of element `n`: the span from its first child's start
/// to its last child's end; for a childless element that is not
/// self-closing, the zero-length point after the `><` pair; for a
/// self-closing element, no part at all.  The outer `None` marks a node
/// whose positions do not line up with the text.
pub open spec fn content_part(n: XmlNodeV, text: Seq<char>, ver: int) -> Option<
    Option<ContentTypeV>,
> {
    if !node_range_ok(n, text) {
        None
    } else if is_self_closing(n, text) {
        Some(None)
    } else if n.children.len() > 0 {
        let first = n.children[0];
        let last = n.children.last();
        if 0 <= first.start && first.start <= last.end && last.end <= text.len() {
            Some(
                Some(
                    ContentTypeV::ElementContent(
                        ContentRefV {
                            content: text.subrange(first.start, last.end),
                            start: first.start,
                            end: last.end,
                            version: ver,
                        },
                    ),
                ),
            )
        } else {
            None
        }
    } else {
        match find_gap_from(text, n.start, n.end) {
            Some(j) => Some(
                Some(
                    ContentTypeV::ElementContent(
                        ContentRefV {
                            content: Seq::<char>::empty(),
                            start: j + 1,
                            end: j + 1,
                            version: ver,
                        },
                    ),
                ),
            ),
            None => None,
        }
    }
}

/// The element follows the formatted-text convention: a `format` attribute
/// whose value reference resolves, and a direct `text` child, inside a
/// non-empty, non-self-closing element.
pub open spec fn is_moodle(n: XmlNodeV, text: Seq<char>, ver: int) -> bool {
    &&& format_ref(n.attrs, text, ver) is Some
    &&& node_range_ok(n, text)
    &&& !is_self_closing(n, text)
    &&& n.children.len() > 0
    &&& first_text_child(n.children) is Some
}

/// The plain-element classification of `n`: its tag, the reference to the
/// whole element, and its attribute parts followed by its content part.
pub open spec fn plain_element(
    n: XmlNodeV,
    text: Seq<char>,
    ver: int,
    aparts: Seq<ContentTypeV>,
    copt: Option<ContentTypeV>,
) -> ContentTypeV {
    ContentTypeV::Element(
        n.tag,
        ContentRefV {
            content: text.subrange(n.start, n.end),
            start: n.start,
            end: n.end,
            version: ver,
        },
        aparts + (match copt {
            Some(c) => seq![c],
            None => Seq::<ContentTypeV>::empty(),
        }),
    )
}

/// The classification of the one element `n`: the formatted-text composite
/// when `n` follows that convention and its `text` child has a content
/// part, the plain element otherwise.  `None` marks an element whose
/// positions do not line up with the text.
pub open spec fn classify_element(n: XmlNodeV, text: Seq<char>, ver: int) -> Option<ContentTypeV>
    decreases n, 0int,
{
    if !node_range_ok(n, text) {
        None
    } else {
        match (attr_parts(n.attrs, text, ver), content_part(n, text, ver)) {
            (Some(aparts), Some(copt)) => {
                if is_moodle(n, text, ver) {
                    match (format_ref(n.attrs, text, ver), classify_children(
                        n.children,
                        text,
                        ver,
                        seq!["file"@],
                    )) {
                        (Some(fr), Some(els)) => {
                            match content_part(first_text_child(n.children).unwrap(), text, ver) {
                                Some(Some(cp)) => Some(
                                    ContentTypeV::MoodleTextElement(n.tag, fr, seq![cp] + els),
                                ),
                                Some(None) => Some(plain_element(n, text, ver, aparts, copt)),
                                None => None,
                            }
                        },
                        _ => None,
                    }
                } else {
                    Some(plain_element(n, text, ver, aparts, copt))
                }
            },
            _ => None,
        }
    }
}

/// The classifications of every matching element in the subtrees of `s`, in
/// document order.
pub open spec fn classify_children(
    s: Seq<XmlNodeV>,
    text: Seq<char>,
    ver: int,
    tags: Seq<Seq<char>>,
) -> Option<Seq<ContentTypeV>>
    decreases s, 2int,
{
    if s.len() == 0 {
        Some(Seq::<ContentTypeV>::empty())
    } else {
        match (classify_subtree(s[0], text, ver, tags), classify_children(
            s.drop_first(),
            text,
            ver,
            tags,
        )) {
            (Some(a), Some(b)) => Some(a + b),
            _ => None,
        }
    }
}

/// The classifications of every element in `n`'s subtree, `n` itself
/// included, whose tag is in `tags`, in document order.
pub open spec fn classify_subtree(
    n: XmlNodeV,
    text: Seq<char>,
    ver: int,
    tags: Seq<Seq<char>>,
) -> Option<Seq<ContentTypeV>>
    decreases n, 1int,
{
    if n.is_element && tags.contains(n.tag) {
        match (classify_element(n, text, ver), classify_children(n.children, text, ver, tags)) {
            (Some(e), Some(r)) => Some(seq![e] + r),
            _ => None,
        }
    } else {
        classify_children(n.children, text, ver, tags)
    }
}

/// The reference snapshots exactly the characters of its range at version
/// `ver`.
pub open spec fn ref_snapshot_ok(r: ContentRefV, text: Seq<char>, ver: int) -> bool {
    &&& 0 <= r.start <= r.end <= text.len()
    &&& r.content == text.subrange(r.start, r.end)
    &&& r.version == ver
}

/// Every reference inside the construct snapshots exactly the characters
/// of its range at version `ver`.
pub open spec fn ct_snapshot_ok(c: ContentTypeV, text: Seq<char>, ver: int) -> bool
    decreases c,
{
    match c {
        ContentTypeV::AttributeValue(_, r) => ref_snapshot_ok(r, text, ver),
        ContentTypeV::ElementContent(r) => ref_snapshot_ok(r, text, ver),
        ContentTypeV::Element(_, whole, parts) => ref_snapshot_ok(whole, text, ver) && forall|
            i: int,
        |
            0 <= i < parts.len() ==> ct_snapshot_ok(#[trigger] parts[i], text, ver),
        ContentTypeV::MoodleTextElement(_, fr, parts) => ref_snapshot_ok(fr, text, ver) && forall|
            i: int,
        |
            0 <= i < parts.len() ==> ct_snapshot_ok(#[trigger] parts[i], text, ver),
    }
}

/// A found character position lies between the scan start and the end of
/// the text.
proof fn lemma_find_char_bounds(text: Seq<char>, c: char, i: int)
    ensures
        find_char_from(text, c, i) matches Some(j) ==> i <= j < text.len(),
    decreases text.len() - i,
{
    if !(i < 0 || i >= text.len()) && text[i] != c {
        lemma_find_char_bounds(text, c, i + 1);
    }
}

/// A found quote position lies between the scan start and the end of the
/// text.
proof fn lemma_find_quote_bounds(text: Seq<char>, i: int)
    ensures
        find_quote_from(text, i) matches Some(j) ==> i <= j < text.len(),
    decreases text.len() - i,
{
    if !(i < 0 || i >= text.len()) && !(text[i] == '"' || text[i] == '\'') {
        lemma_find_quote_bounds(text, i + 1);
    }
}

/// A found `><` pair lies between the scan start and `end`, within the
/// text.
proof fn lemma_find_gap_bounds(text: Seq<char>, i: int, end: int)
    ensures
        find_gap_from(text, i, end) matches Some(j) ==> i <= j && j + 2 <= end && j + 2
            <= text.len(),
    decreases end - i,
{
    if !(i < 0 || i + 2 > end || i + 2 > text.len()) && !(text[i] == '>' && text[i + 1] == '<') {
        lemma_find_gap_bounds(text, i + 1, end);
    }
}

/// An attribute-value part snapshots exactly the characters between its
/// quotes.
proof fn lemma_attr_value_part_snapshot(a: XmlAttrV, text: Seq<char>, ver: int)
    ensures
        attr_value_part(a, text, ver) matches Some(c) ==> ct_snapshot_ok(c, text, ver),
{
    lemma_find_quote_bounds(text, a.start);
    if find_quote_from(text, a.start) is Some {
        let q = find_quote_from(text, a.start).unwrap();
        lemma_find_char_bounds(text, text[q], q + 1);
    }
}

/// Every attribute-value part snapshots exactly the characters of its
/// range.
proof fn lemma_attr_parts_snapshot(attrs: Seq<XmlAttrV>, text: Seq<char>, ver: int)
    ensures
        attr_parts(attrs, text, ver) matches Some(ps) ==> forall|i: int|
            0 <= i < ps.len() ==> ct_snapshot_ok(#[trigger] ps[i], text, ver),
    decreases attrs.len(),
{
    if attrs.len() > 0 {
        lemma_attr_value_part_snapshot(attrs[0], text, ver);
        lemma_attr_parts_snapshot(attrs.drop_first(), text, ver);
    }
}

/// The value reference of the `format` attribute snapshots exactly the
/// characters of its range.
proof fn lemma_format_ref_snapshot(attrs: Seq<XmlAttrV>, text: Seq<char>, ver: int)
    ensures
        format_ref(attrs, text, ver) matches Some(r) ==> ref_snapshot_ok(r, text, ver),
    decreases attrs.len(),
{
    if attrs.len() > 0 {
        lemma_attr_value_part_snapshot(attrs[0], text, ver);
        lemma_format_ref_snapshot(attrs.drop_first(), text, ver);
    }
}

/// A content part snapshots exactly the characters of its range.
proof fn lemma_content_part_snapshot(n: XmlNodeV, text: Seq<char>, ver: int)
    ensures
        content_part(n, text, ver) matches Some(copt) ==> (copt matches Some(c)
            ==> ct_snapshot_ok(c, text, ver)),
{
    if node_range_ok(n, text) && !is_self_closing(n, text) && n.children.len() == 0 {
        lemma_find_gap_bounds(text, n.start, n.end);
        if find_gap_from(text, n.start, n.end) is Some {
            let j = find_gap_from(text, n.start, n.end).unwrap();
            assert(text.subrange(j + 1, j + 1) =~= Seq::<char>::empty());
        }
    }
}

/// Law: every reference that the classification of one element hands out
/// snapshots exactly the characters of its range at the query's version.
pub proof fn lemma_classify_element_snapshot(n: XmlNodeV, text: Seq<char>, ver: int)
    ensures
        classify_element(n, text, ver) matches Some(c) ==> ct_snapshot_ok(c, text, ver),
    decreases n, 0int,
{
    if node_range_ok(n, text) {
        lemma_attr_parts_snapshot(n.attrs, text, ver);
        lemma_content_part_snapshot(n, text, ver);
        lemma_format_ref_snapshot(n.attrs, text, ver);
        lemma_classify_children_snapshot(n.children, text, ver, seq!["file"@]);
        if is_moodle(n, text, ver) {
            lemma_content_part_snapshot(first_text_child(n.children).unwrap(), text, ver);
        }
        if classify_element(n, text, ver) matches Some(c) {
            match (attr_parts(n.attrs, text, ver), content_part(n, text, ver)) {
                (Some(aparts), Some(copt)) => {
                    let plain = plain_element(n, text, ver, aparts, copt);
                    assert(ct_snapshot_ok(plain, text, ver)) by {
                        let parts = aparts + (match copt {
                            Some(cp) => seq![cp],
                            None => Seq::<ContentTypeV>::empty(),
                        });
                        assert forall|i: int| 0 <= i < parts.len() implies ct_snapshot_ok(
                            #[trigger] parts[i],
                            text,
                            ver,
                        ) by {
                            if i < aparts.len() {
                                assert(parts[i] == aparts[i]);
                            }
                        }
                    }
                },
                _ => {},
            }
        }
    }
}

/// Law: every reference in the classifications of the subtrees of `s`
/// snapshots exactly the characters of its range at the query's version.
pub proof fn lemma_classify_children_snapshot(
    s: Seq<XmlNodeV>,
    text: Seq<char>,
    ver: int,
    tags: Seq<Seq<char>>,
)
    ensures
        classify_children(s, text, ver, tags) matches Some(cs) ==> forall|i: int|
            0 <= i < cs.len() ==> ct_snapshot_ok(#[trigger] cs[i], text, ver),
    decreases s, 2int,
{
    if s.len() > 0 {
        lemma_classify_subtree_snapshot(s[0], text, ver, tags);
        lemma_classify_children_snapshot(s.drop_first(), text, ver, tags);
    }
}

/// Law: every reference that classification hands out snapshots exactly
/// the characters of its range at the query's version; written back
/// unchanged, such references reconstitute the document.
pub proof fn lemma_classify_subtree_snapshot(
    n: XmlNodeV,
    text: Seq<char>,
    ver: int,
    tags: Seq<Seq<char>>,
)
    ensures
        classify_subtree(n, text, ver, tags) matches Some(cs) ==> forall|i: int|
            0 <= i < cs.len() ==> ct_snapshot_ok(#[trigger] cs[i], text, ver),
    decreases n, 1int,
{
    lemma_classify_children_snapshot(n.children, text, ver, tags);
    if n.is_element && tags.contains(n.tag) {
        lemma_classify_element_snapshot(n, text, ver);
    }
}

/// The characters of `text` in `[s, e)`, as a string.
pub fn subrange_string(text: &Vec<char>, s: usize, e: usize) -> (r: String)
    requires
        s <= e <= text@.len(),
    ensures
        r@ == text@.subrange(s as int, e as int),
{
    let mut out: Vec<char> = Vec::new();
    let mut i: usize = s;
    while i < e
        invariant
            s <= i <= e <= text@.len(),
            out@ == text@.subrange(s as int, i as int),
        decreases e - i,
    {
        out.push(text[i]);
        proof {
            assert(text@.subrange(s as int, i + 1) =~= text@.subrange(s as int, i as int).push(
                text@[i as int],
            ));
        }
        i += 1;
    }
    chars_text(&out)
}

/// The first position at or after `i` holding a quote character.
pub fn find_quote_from_exec(text: &Vec<char>, i: usize) -> (r: Option<usize>)
    ensures
        match r {
            Some(q) => find_quote_from(text@, i as int) == Some(q as int) && q < text@.len(),
            None => find_quote_from(text@, i as int) is None,
        },
{
    let n = text.len();
    let mut j: usize = i;
    while j < n
        invariant
            n == text@.len(),
            i <= j,
            j <= n || j == i,
            find_quote_from(text@, i as int) == find_quote_from(text@, j as int),
        decreases n - j,
    {
        let c = text[j];
        if c == '"' || c == '\'' {
            return Some(j);
        }
        j += 1;
    }
    None
}

/// The first position at or after `i` holding `c`.
pub fn find_char_from_exec(text: &Vec<char>, c: char, i: usize) -> (r: Option<usize>)
    ensures
        match r {
            Some(q) => find_char_from(text@, c, i as int) == Some(q as int) && i <= q
                < text@.len(),
            None => find_char_from(text@, c, i as int) is None,
        },
{
    let n = text.len();
    let mut j: usize = i;
    while j < n
        invariant
            n == text@.len(),
            i <= j,
            j <= n || j == i,
            find_char_from(text@, c, i as int) == find_char_from(text@, c, j as int),
        decreases n - j,
    {
        if text[j] == c {
            return Some(j);
        }
        j += 1;
    }
    None
}

/// The first position at or after `i` where `><` stands, the pair ending by
/// `end`.
pub fn find_gap_from_exec(text: &Vec<char>, i: usize, end: usize) -> (r: Option<usize>)
    requires
        end <= text@.len(),
    ensures
        match r {
            Some(q) => find_gap_from(text@, i as int, end as int) == Some(q as int) && q + 2
                <= end,
            None => find_gap_from(text@, i as int, end as int) is None,
        },
{
    if end < 2 || i > end - 2 {
        return None;
    }
    let mut j: usize = i;
    while j <= end - 2
        invariant
            2 <= end <= text@.len(),
            i <= j,
            j <= end - 1,
            find_gap_from(text@, i as int, end as int) == find_gap_from(
                text@,
                j as int,
                end as int,
            ),
        decreases end - j,
    {
        if text[j] == '>' && text[j + 1] == '<' {
            return Some(j);
        }
        j += 1;
    }
    None
}

/// The content part of element `n`, as [`content_part`] states it: the
/// inner `Option` is the part, absent for a self-closing element; the outer
/// `None` marks positions that do not line up with the text.
pub fn content_part_exec(n: &XmlNode, text: &Vec<char>, ver: usize) -> (r: Option<
    Option<ContentType>,
>)
    ensures
        match r {
            Some(Some(c)) => content_part(n@, text@, ver as int) == Some(Some(ct_view(c))),
            Some(None) => content_part(n@, text@, ver as int) == Some(None::<ContentTypeV>),
            None => content_part(n@, text@, ver as int) is None,
        },
{
    let tn = text.len();
    if !(n.start <= n.end && n.end <= tn) {
        return None;
    }
    if n.end - n.start >= 2 && text[n.end - 2] == '/' && text[n.end - 1] == '>' {
        proof {
            assert(is_self_closing(n@, text@));
        }
        return Some(None);
    }
    proof {
        assert(!is_self_closing(n@, text@));
        lemma_xns_view_index(n.children@);
    }
    if n.children.len() > 0 {
        let first_start = n.children[0].start;
        let last_end = n.children[n.children.len() - 1].end;
        proof {
            assert(n@.children[0] == n.children@[0]@);
            assert(n@.children.last() == n.children@[n.children@.len() - 1]@);
        }
        if first_start <= last_end && last_end <= tn {
            let content = subrange_string(text, first_start, last_end);
            Some(
                Some(
                    ContentType::ElementContent(
                        ContentRef {
                            content,
                            start: first_start,
                            end: last_end,
                            version_num: ver,
                        },
                    ),
                ),
            )
        } else {
            None
        }
    } else {
        match find_gap_from_exec(text, n.start, n.end) {
            Some(j) => {
                let content = String::new();
                Some(
                    Some(
                        ContentType::ElementContent(
                            ContentRef { content, start: j + 1, end: j + 1, version_num: ver },
                        ),
                    ),
                )
            },
            None => None,
        }
    }
}

/// The classification of the one element `n`, as [`classify_element`]
/// states it.
#[verifier::rlimit(100)]
fn classify_element_exec(n: &XmlNode, text: &Vec<char>, ver: usize) -> (r: Option<ContentType>)
    ensures
        match r {
            Some(c) => classify_element(n@, text@, ver as int) == Some(ct_view(c)),
            None => classify_element(n@, text@, ver as int) is None,
        },
    decreases *n, 0int,
{
    let tn = text.len();
    if !(n.start <= n.end && n.end <= tn) {
        return None;
    }
    let fmt_name = String::from_str("format");
    let mut aparts: Vec<ContentType> = Vec::new();
    let mut fmt: Option<ContentRef> = None;
    let na = n.attrs.len();
    let mut i: usize = 0;
    proof {
        assert(n@.attrs == n.attrs@.map_values(|a: XmlAttr| a@));
        assert(n@.attrs.skip(0) =~= n@.attrs);
        if attr_parts(n@.attrs, text@, ver as int) is Some {
            let rest = attr_parts(n@.attrs, text@, ver as int).unwrap();
            assert(cts_view(aparts@) =~= Seq::<ContentTypeV>::empty());
            assert(cts_view(aparts@) + rest =~= rest);
        }
    }
    while i < na
        invariant
            na == n.attrs@.len(),
            n@.attrs == n.attrs@.map_values(|a: XmlAttr| a@),
            i <= na,
            tn == text@.len(),
            n@.start <= n@.end <= tn,
            fmt_name@ == "format"@,
            attr_parts(n@.attrs, text@, ver as int) == (match attr_parts(
                n@.attrs.skip(i as int),
                text@,
                ver as int,
            ) {
                Some(rest) => Some(cts_view(aparts@) + rest),
                None => None::<Seq<ContentTypeV>>,
            }),
            match fmt {
                Some(f) => format_ref(n@.attrs, text@, ver as int) == Some(f@),
                None => format_ref(n@.attrs, text@, ver as int) == format_ref(
                    n@.attrs.skip(i as int),
                    text@,
                    ver as int,
                ),
            },
        decreases na - i,
    {
        proof {
            assert(n@.attrs.skip(i as int)[0] == n.attrs@[i as int]@);
        }
        let ghost av = n@.attrs.skip(i as int)[0];
        let astart = n.attrs[i].start;
        let q = match find_quote_from_exec(text, astart) {
            Some(q) => q,
            None => {
                proof {
                    assert(attr_value_part(av, text@, ver as int) is None);
                    assert(attr_parts(n@.attrs.skip(i as int), text@, ver as int) is None);
                }
                return None;
            },
        };
        let quote = text[q];
        let e = match find_char_from_exec(text, quote, q + 1) {
            Some(e) => e,
            None => {
                proof {
                    assert(attr_value_part(av, text@, ver as int) is None);
                    assert(attr_parts(n@.attrs.skip(i as int), text@, ver as int) is None);
                }
                return None;
            },
        };
        let content = subrange_string(text, q + 1, e);
        let cr = ContentRef { content, start: q + 1, end: e, version_num: ver };
        let ghost crv = cr@;
        if fmt.is_none() && n.attrs[i].name == fmt_name {
            fmt = Some(cr.duplicate());
        }
        let ghost aparts_pre = aparts@;
        aparts.push(ContentType::AttributeValue(n.attrs[i].name.clone(), cr));
        proof {
            let pre = n@.attrs.skip(i as int);
            assert(pre.drop_first() =~= n@.attrs.skip(i + 1));
            assert(attr_value_part(av, text@, ver as int) == Some(
                ContentTypeV::AttributeValue(av.name, crv),
            ));
            lemma_cts_view_snoc(aparts@);
            assert(aparts@.drop_last() =~= aparts_pre);
            assert(cts_view(aparts@.drop_last()) == cts_view(aparts_pre));
            assert(ct_view(aparts@.last()) == ContentTypeV::AttributeValue(av.name, crv));
            assert(cts_view(aparts@) == cts_view(aparts_pre) + seq![
                ContentTypeV::AttributeValue(av.name, crv),
            ]);
            if attr_parts(n@.attrs.skip(i + 1), text@, ver as int) is Some {
                let rest = attr_parts(n@.attrs.skip(i + 1), text@, ver as int).unwrap();
                assert(attr_parts(pre, text@, ver as int) == Some(
                    seq![ContentTypeV::AttributeValue(av.name, crv)] + rest,
                ));
                assert(cts_view(aparts@.drop_last()) + (seq![
                    ContentTypeV::AttributeValue(av.name, crv),
                ] + rest) =~= cts_view(aparts@) + rest);
            } else {
                assert(attr_parts(pre, text@, ver as int) is None);
            }
        }
        i += 1;
    }
    proof {
        assert(n@.attrs.skip(na as int) =~= Seq::<XmlAttrV>::empty());
        assert(attr_parts(n@.attrs.skip(na as int), text@, ver as int) == Some(
            Seq::<ContentTypeV>::empty(),
        ));
        assert(cts_view(aparts@) + Seq::<ContentTypeV>::empty() =~= cts_view(aparts@));
        assert(attr_parts(n@.attrs, text@, ver as int) == Some(cts_view(aparts@)));
        if fmt is None {
            assert(format_ref(n@.attrs, text@, ver as int) is None);
        }
    }
    let copt = match content_part_exec(n, text, ver) {
        Some(c) => c,
        None => {
            return None;
        },
    };
    let self_closing = n.end - n.start >= 2 && text[n.end - 2] == '/' && text[n.end - 1] == '>';
    proof {
        assert(self_closing == is_self_closing(n@, text@));
        lemma_xns_view_index(n.children@);
        assert(n@.children == xns_view(n.children@));
        assert(n@.children.skip(0) =~= n@.children);
    }
    let text_name = String::from_str("text");
    let nc = n.children.len();
    let mut tc_idx: usize = 0;
    let mut tc_found = false;
    let mut k: usize = 0;
    while k < nc && !tc_found
        invariant
            nc == n.children@.len(),
            n@.children == xns_view(n.children@),
            n@.children.len() == nc,
            forall|m: int| 0 <= m < nc ==> n@.children[m] == n.children@[m]@,
            k <= nc,
            text_name@ == "text"@,
            if tc_found {
                tc_idx < nc && first_text_child(n@.children) == Some(n@.children[tc_idx as int])
            } else {
                first_text_child(n@.children) == first_text_child(n@.children.skip(k as int))
            },
        decreases nc - k, (if tc_found {
            0int
        } else {
            1int
        }),
    {
        proof {
            assert(n@.children.skip(k as int)[0] == n@.children[k as int]);
            assert(n@.children.skip(k as int).drop_first() =~= n@.children.skip(k + 1));
        }
        if n.children[k].is_element && n.children[k].tag == text_name {
            tc_found = true;
            tc_idx = k;
        } else {
            k += 1;
        }
    }
    proof {
        if !tc_found {
            assert(n@.children.skip(nc as int) =~= Seq::<XmlNodeV>::empty());
            assert(first_text_child(n@.children) is None);
        }
    }
    let moodle = fmt.is_some() && !self_closing && nc > 0 && tc_found;
    proof {
        assert(moodle == is_moodle(n@, text@, ver as int));
    }
    if moodle {
        let mut file_tags: Vec<String> = Vec::new();
        file_tags.push(String::from_str("file"));
        proof {
            assert(tags_view(file_tags@) =~= seq!["file"@]);
        }
        let els = match classify_children_exec(&n.children, text, ver, &file_tags) {
            Some(v) => v,
            None => {
                return None;
            },
        };
        match content_part_exec(&n.children[tc_idx], text, ver) {
            Some(Some(cp)) => {
                let mut parts: Vec<ContentType> = Vec::new();
                let ghost cpe = cp;
                parts.push(cp);
                let mut els_tail = els;
                let ghost els_seq = els_tail@;
                let ghost elsv = cts_view(els_seq);
                let ghost one = parts@;
                parts.append(&mut els_tail);
                let fr = match fmt {
                    Some(f) => f,
                    None => {
                        proof {
                            assert(false);
                        }
                        return None;
                    },
                };
                proof {
                    assert(parts@ == one + els_seq);
                    assert(one =~= seq![cpe]);
                    lemma_cts_view_concat(seq![cpe], els_seq);
                    assert(seq![cpe].drop_first() =~= Seq::<ContentType>::empty());
                    assert(cts_view(seq![cpe].drop_first()) =~= Seq::<ContentTypeV>::empty());
                    assert(cts_view(seq![cpe]) =~= seq![ct_view(cpe)]);
                    assert(cts_view(parts@) =~= seq![ct_view(cpe)] + elsv);
                }
                return Some(ContentType::MoodleTextElement(n.tag.clone(), fr, parts));
            },
            Some(None) => {},
            None => {
                return None;
            },
        }
    }
    let whole = subrange_string(text, n.start, n.end);
    let mut parts = aparts;
    let ghost aparts_seq = parts@;
    let ghost apartsv = cts_view(aparts_seq);
    match copt {
        Some(c) => {
            let ghost cv = ct_view(c);
            parts.push(c);
            proof {
                assert(parts@.drop_last() =~= aparts_seq);
                lemma_cts_view_snoc(parts@);
                assert(cts_view(parts@.drop_last()) == cts_view(aparts_seq));
                assert(ct_view(parts@.last()) == cv);
                assert(cts_view(parts@) =~= apartsv + seq![cv]);
            }
        },
        None => {
            proof {
                assert(cts_view(parts@) =~= apartsv + Seq::<ContentTypeV>::empty());
            }
        },
    }
    Some(
        ContentType::Element(
            n.tag.clone(),
            ContentRef { content: whole, start: n.start, end: n.end, version_num: ver },
            parts,
        ),
    )
}

/// The classifications of every matching element in the subtrees of `s`, as
/// [`classify_children`] states them.
fn classify_children_exec(
    s: &Vec<XmlNode>,
    text: &Vec<char>,
    ver: usize,
    tags: &Vec<String>,
) -> (r: Option<Vec<ContentType>>)
    ensures
        match r {
            Some(v) => classify_children(xns_view(s@), text@, ver as int, tags_view(tags@))
                == Some(cts_view(v@)),
            None => classify_children(xns_view(s@), text@, ver as int, tags_view(tags@)) is None,
        },
    decreases *s, 2int,
{
    let ghost sv = xns_view(s@);
    let mut out: Vec<ContentType> = Vec::new();
    let nc = s.len();
    let mut j: usize = 0;
    proof {
        lemma_xns_view_index(s@);
        assert(sv.skip(0) =~= sv);
        if classify_children(sv, text@, ver as int, tags_view(tags@)) is Some {
            let rest = classify_children(sv, text@, ver as int, tags_view(tags@)).unwrap();
            assert(cts_view(out@) =~= Seq::<ContentTypeV>::empty());
            assert(cts_view(out@) + rest =~= rest);
        }
    }
    while j < nc
        invariant
            nc == s@.len(),
            sv == xns_view(s@),
            sv.len() == nc,
            forall|m: int| 0 <= m < nc ==> sv[m] == s@[m]@,
            j <= nc,
            classify_children(sv, text@, ver as int, tags_view(tags@)) == (match classify_children(
                sv.skip(j as int),
                text@,
                ver as int,
                tags_view(tags@),
            ) {
                Some(rest) => Some(cts_view(out@) + rest),
                None => None::<Seq<ContentTypeV>>,
            }),
        decreases nc - j,
    {
        proof {
            assert(sv.skip(j as int)[0] == sv[j as int]);
            assert(sv.skip(j as int).drop_first() =~= sv.skip(j + 1));
        }
        match classify_subtree_exec(&s[j], text, ver, tags) {
            Some(v) => {
                let mut v_tail = v;
                let ghost old_out = out@;
                let ghost vseq = v_tail@;
                out.append(&mut v_tail);
                proof {
                    assert(out@ == old_out + vseq);
                    lemma_cts_view_concat(old_out, vseq);
                }
            },
            None => {
                proof {
                    assert(classify_children(sv.skip(j as int), text@, ver as int, tags_view(
                        tags@,
                    )) is None);
                }
                return None;
            },
        }
        j += 1;
    }
    proof {
        assert(sv.skip(nc as int) =~= Seq::<XmlNodeV>::empty());
        assert(cts_view(out@) + Seq::<ContentTypeV>::empty() =~= cts_view(out@));
    }
    Some(out)
}

/// The classifications of every matching element in `n`'s subtree, `n`
/// itself included, as [`classify_subtree`] states them.
pub fn classify_subtree_exec(
    n: &XmlNode,
    text: &Vec<char>,
    ver: usize,
    tags: &Vec<String>,
) -> (r: Option<Vec<ContentType>>)
    ensures
        match r {
            Some(v) => classify_subtree(n@, text@, ver as int, tags_view(tags@)) == Some(
                cts_view(v@),
            ),
            None => classify_subtree(n@, text@, ver as int, tags_view(tags@)) is None,
        },
    decreases *n, 1int,
{
    proof {
        assert(n@.children == xns_view(n.children@));
        assert(n@.tag == n.tag@);
    }
    let matched = n.is_element && tags_contain(tags, &n.tag);
    let mut out: Vec<ContentType> = Vec::new();
    if matched {
        match classify_element_exec(n, text, ver) {
            Some(e) => {
                out.push(e);
            },
            None => {
                return None;
            },
        }
    }
    match classify_children_exec(&n.children, text, ver, tags) {
        Some(v) => {
            let ghost old_out = out@;
            let mut v_tail = v;
            let ghost vseq = v_tail@;
            let ghost vv = cts_view(vseq);
            out.append(&mut v_tail);
            proof {
                assert(out@ == old_out + vseq);
                lemma_cts_view_concat(old_out, vseq);
                if matched {
                    assert(old_out.len() == 1);
                    assert(old_out.drop_first() =~= Seq::<ContentType>::empty());
                    assert(cts_view(old_out.drop_first()) =~= Seq::<ContentTypeV>::empty());
                    assert(cts_view(old_out) == seq![ct_view(old_out[0])] + cts_view(
                        old_out.drop_first(),
                    ));
                    assert(cts_view(old_out) =~= seq![ct_view(old_out[0])]);
                    assert(cts_view(out@) =~= seq![ct_view(old_out[0])] + vv);
                } else {
                    assert(cts_view(old_out) =~= Seq::<ContentTypeV>::empty());
                    assert(cts_view(out@) =~= vv);
                }
            }
            Some(out)
        },
        None => None,
    }
}

/// Whether `tags` holds the tag `t`.
pub fn tags_contain(tags: &Vec<String>, t: &String) -> (b: bool)
    ensures
        b == tags_view(tags@).contains(t@),
{
    let n = tags.len();
    let mut i: usize = 0;
    while i < n
        invariant
            n == tags@.len(),
            i <= n,
            forall|k: int| 0 <= k < i ==> tags_view(tags@)[k] != t@,
        decreases n - i,
    {
        if tags[i] == *t {
            proof {
                assert(tags_view(tags@)[i as int] == t@);
            }
            return true;
        }
        proof {
            assert(tags_view(tags@)[i as int] == tags@[i as int]@);
        }
        i += 1;
    }
    proof {
        assert(forall|k: int| 0 <= k < tags_view(tags@).len() ==> tags_view(tags@)[k] != t@);
    }
    false
}

} // verus!
