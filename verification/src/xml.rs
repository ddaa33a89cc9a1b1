//! The structural view of a parsed document.
//!
//! The structural parser is an outside collaborator: it checks
//! well-formedness and exposes a navigable element tree in which every node
//! and attribute carries its position in the document.  This module holds
//! the library's own model of that tree, the trusted boundary to the parser,
//! and the conversion of the parser's byte positions into the character
//! positions that the rest of the engine works with.

use vstd::prelude::*;

verus! {

broadcast use vstd::std_specs::vec::group_vec_axioms;

/// The mathematical value of an [`XmlAttr`].
pub ghost struct XmlAttrV {
    /// The attribute's name.
    pub name: Seq<char>,
    /// The attribute's normalized value.
    pub value: Seq<char>,
    /// The position at which the attribute stands in the document.
    pub start: int,
}

/// The mathematical value of an [`XmlNode`].
pub ghost struct XmlNodeV {
    /// Whether the node is an element.
    pub is_element: bool,
    /// The tag name, empty for a node that is not an element.
    pub tag: Seq<char>,
    /// The position of the node in the document.
    pub start: int,
    /// One past the last position of the node.
    pub end: int,
    /// The node's attributes, in document order.
    pub attrs: Seq<XmlAttrV>,
    /// The node's direct children, in document order: elements, text,
    /// comments and processing instructions alike.
    pub children: Seq<XmlNodeV>,
}

/// An attribute of an element, as the structural parser reports it.
pub struct XmlAttr {
    /// The attribute's name.
    pub name: String,
    /// The attribute's normalized value.
    pub value: String,
    /// The position at which the attribute stands in the document.
    pub start: usize,
}

impl View for XmlAttr {
    type V = XmlAttrV;

    open spec fn view(&self) -> XmlAttrV {
        XmlAttrV { name: self.name@, value: self.value@, start: self.start as int }
    }
}

/// A node of the parsed document tree, as the structural parser reports it.
pub struct XmlNode {
    /// Whether the node is an element.
    pub is_element: bool,
    /// The tag name, empty for a node that is not an element.
    pub tag: String,
    /// The position of the node in the document.
    pub start: usize,
    /// One past the last position of the node.
    pub end: usize,
    /// The node's attributes, in document order.
    pub attrs: Vec<XmlAttr>,
    /// The node's direct children, in document order.
    pub children: Vec<XmlNode>,
}

/// The mathematical value of an [`XmlNode`].
pub open spec fn xn_view(n: XmlNode) -> XmlNodeV
    decreases n,
{
    XmlNodeV {
        is_element: n.is_element,
        tag: n.tag@,
        start: n.start as int,
        end: n.end as int,
        attrs: n.attrs@.map_values(|a: XmlAttr| a@),
        children: xns_view(n.children@),
    }
}

/// The mathematical values of a sequence of [`XmlNode`]s.
pub open spec fn xns_view(s: Seq<XmlNode>) -> Seq<XmlNodeV>
    decreases s,
{
    if s.len() == 0 {
        Seq::<XmlNodeV>::empty()
    } else {
        seq![xn_view(s[0])] + xns_view(s.drop_first())
    }
}

impl View for XmlNode {
    type V = XmlNodeV;

    open spec fn view(&self) -> XmlNodeV {
        xn_view(*self)
    }
}

/// `xns_view` maps the sequence pointwise.
pub proof fn lemma_xns_view_index(s: Seq<XmlNode>)
    ensures
        xns_view(s).len() == s.len(),
        forall|i: int| 0 <= i < s.len() ==> xns_view(s)[i] == xn_view(s[i]),
    decreases s.len(),
{
    if s.len() > 0 {
        lemma_xns_view_index(s.drop_first());
    }
}

/// The node tree that the structural parser reports for `text`, with byte
/// positions, or nothing when `text` is not well-formed XML.
pub uninterp spec fn parse_of(text: Seq<char>) -> Option<XmlNodeV>;

#[verifier::external_type_specification]
#[verifier::external_body]
pub struct ExNode<'a, 'input: 'a>(roxmltree::Node<'a, 'input>);

/// Relies on `roxmltree::Node`'s accessors `is_element`, `tag_name`,
/// `range`, `attributes` and `children`: copies a parsed node and its
/// descendants, field by field, into the library's tree.
#[verifier::external_body]
fn node_tree(n: roxmltree::Node<'_, '_>) -> XmlNode {
    XmlNode {
        is_element: n.is_element(),
        tag: n.tag_name().name().to_string(),
        start: n.range().start,
        end: n.range().end,
        attrs: n.attributes().map(
            |a| XmlAttr {
                name: a.name().to_string(),
                value: a.value().to_string(),
                start: a.range().start,
            },
        ).collect(),
        children: n.children().map(node_tree).collect(),
    }
}

/// Relies on `roxmltree::Document::parse_with_options`, with document type
/// declarations tolerated: the parse succeeds exactly when `text` is
/// well-formed XML, and the reported tree is a function of `text` alone,
/// here named [`parse_of`].
#[verifier::external_body]
pub(crate) fn parse_document(text: &str) -> (r: Option<XmlNode>)
    ensures
        match r {
            Some(root) => parse_of(text@) == Some(root@),
            None => parse_of(text@) is None,
        },
{
    let opt = roxmltree::ParsingOptions { allow_dtd: true, ..Default::default() };
    match roxmltree::Document::parse_with_options(text, opt) {
        Ok(doc) => Some(node_tree(doc.root())),
        Err(_) => None,
    }
}

/// The number of bytes in the UTF-8 encoding of `c`.
pub open spec fn utf8_width(c: char) -> int {
    if (c as u32) < 0x80 {
        1
    } else if (c as u32) < 0x800 {
        2
    } else if (c as u32) < 0x10000 {
        3
    } else {
        4
    }
}

/// The number of bytes in the UTF-8 encoding of `c`.
pub fn utf8_width_exec(c: char) -> (w: usize)
    ensures
        w == utf8_width(c),
{
    if (c as u32) < 0x80 {
        1
    } else if (c as u32) < 0x800 {
        2
    } else if (c as u32) < 0x10000 {
        3
    } else {
        4
    }
}

/// The character position of `text` at which the cumulative UTF-8 width
/// reaches `b`, scanning from position `i` with `acc` bytes accumulated so
/// far; nothing if `b` falls beyond the text or inside a character.
pub open spec fn char_pos_from(text: Seq<char>, b: int, i: int, acc: int) -> Option<int>
    decreases text.len() - i,
{
    if acc == b {
        Some(i)
    } else if acc > b || i < 0 || i >= text.len() {
        None
    } else {
        char_pos_from(text, b, i + 1, acc + utf8_width(text[i]))
    }
}

/// The character position of byte position `b` in `text`.
pub open spec fn char_pos_of(text: Seq<char>, b: int) -> Option<int> {
    char_pos_from(text, b, 0, 0)
}

/// The character position of byte position `b` in `text`.
pub fn char_pos_exec(text: &Vec<char>, b: usize) -> (r: Option<usize>)
    ensures
        match r {
            Some(i) => char_pos_of(text@, b as int) == Some(i as int) && i <= text@.len(),
            None => char_pos_of(text@, b as int) is None,
        },
{
    let n = text.len();
    let mut i: usize = 0;
    let mut acc: u128 = 0;
    while i < n
        invariant
            n == text@.len(),
            i <= n,
            acc <= 4 * (i as u128),
            n <= usize::MAX,
            char_pos_of(text@, b as int) == char_pos_from(text@, b as int, i as int, acc as int),
        decreases n - i,
    {
        if acc == b as u128 {
            return Some(i);
        }
        if acc > b as u128 {
            return None;
        }
        let w = utf8_width_exec(text[i]);
        acc = acc + w as u128;
        i += 1;
    }
    if acc == b as u128 {
        Some(i)
    } else {
        None
    }
}

/// The attribute with its byte position rewritten as a character position.
pub open spec fn tr_attr(a: XmlAttrV, text: Seq<char>) -> Option<XmlAttrV> {
    match char_pos_of(text, a.start) {
        Some(i) => Some(XmlAttrV { name: a.name, value: a.value, start: i }),
        None => None,
    }
}

/// The attributes with their byte positions rewritten as character
/// positions.
pub open spec fn tr_attrs(s: Seq<XmlAttrV>, text: Seq<char>) -> Option<Seq<XmlAttrV>>
    decreases s.len(),
{
    if s.len() == 0 {
        Some(Seq::<XmlAttrV>::empty())
    } else {
        match (tr_attr(s[0], text), tr_attrs(s.drop_first(), text)) {
            (Some(a), Some(rest)) => Some(seq![a] + rest),
            _ => None,
        }
    }
}

/// The node with every byte position in it rewritten as a character
/// position.
pub open spec fn tr_node(n: XmlNodeV, text: Seq<char>) -> Option<XmlNodeV>
    decreases n, 1int,
{
    match (char_pos_of(text, n.start), char_pos_of(text, n.end), tr_attrs(n.attrs, text), tr_nodes(
        n.children,
        text,
    )) {
        (Some(s), Some(e), Some(attrs), Some(children)) => Some(
            XmlNodeV {
                is_element: n.is_element,
                tag: n.tag,
                start: s,
                end: e,
                attrs: attrs,
                children: children,
            },
        ),
        _ => None,
    }
}

/// The nodes with every byte position in them rewritten as character
/// positions.
pub open spec fn tr_nodes(s: Seq<XmlNodeV>, text: Seq<char>) -> Option<Seq<XmlNodeV>>
    decreases s, 0int,
{
    if s.len() == 0 {
        Some(Seq::<XmlNodeV>::empty())
    } else {
        match (tr_node(s[0], text), tr_nodes(s.drop_first(), text)) {
            (Some(n), Some(rest)) => Some(seq![n] + rest),
            _ => None,
        }
    }
}

/// Rewrites every byte position in the node as a character position.
pub fn chars_positions(n: &XmlNode, text: &Vec<char>) -> (r: Option<XmlNode>)
    ensures
        match r {
            Some(t) => tr_node(n@, text@) == Some(t@),
            None => tr_node(n@, text@) is None,
        },
    decreases *n,
{
    let start = match char_pos_exec(text, n.start) {
        Some(i) => i,
        None => {
            return None;
        },
    };
    let end = match char_pos_exec(text, n.end) {
        Some(i) => i,
        None => {
            return None;
        },
    };
    let mut attrs: Vec<XmlAttr> = Vec::new();
    let na = n.attrs.len();
    let mut i: usize = 0;
    proof {
        assert(n@.attrs.skip(0) =~= n@.attrs);
        assert(attrs@.map_values(|a: XmlAttr| a@) =~= Seq::<XmlAttrV>::empty());
        if tr_attrs(n@.attrs, text@) is Some {
            let rest = tr_attrs(n@.attrs, text@).unwrap();
            assert(attrs@.map_values(|a: XmlAttr| a@) + rest =~= rest);
        }
    }
    while i < na
        invariant
            na == n.attrs@.len(),
            i <= na,
            tr_attrs(n@.attrs, text@) == match tr_attrs(n@.attrs.skip(i as int), text@) {
                Some(rest) => Some(attrs@.map_values(|a: XmlAttr| a@) + rest),
                None => None::<Seq<XmlAttrV>>,
            },
        decreases na - i,
    {
        proof {
            assert(n@.attrs == n.attrs@.map_values(|a: XmlAttr| a@));
            assert(n@.attrs.skip(i as int)[0] == n.attrs@[i as int]@);
        }
        match char_pos_exec(text, n.attrs[i].start) {
            Some(p) => {
                attrs.push(
                    XmlAttr {
                        name: n.attrs[i].name.clone(),
                        value: n.attrs[i].value.clone(),
                        start: p,
                    },
                );
            },
            None => {
                proof {
                    assert(tr_attr(n@.attrs.skip(i as int)[0], text@) is None);
                    assert(tr_attrs(n@.attrs.skip(i as int), text@) is None);
                }
                return None;
            },
        }
        proof {
            let pre = n@.attrs.skip(i as int);
            assert(pre.drop_first() =~= n@.attrs.skip(i + 1));
            assert(attrs@.map_values(|a: XmlAttr| a@) =~= attrs@.drop_last().map_values(
                |a: XmlAttr| a@,
            ) + seq![attrs@.last()@]);
            assert(tr_attr(pre[0], text@) == Some(attrs@.last()@));
            if tr_attrs(n@.attrs.skip(i + 1), text@) is Some {
                let rest = tr_attrs(n@.attrs.skip(i + 1), text@).unwrap();
                assert(tr_attrs(pre, text@) == Some(seq![attrs@.last()@] + rest));
                assert(attrs@.drop_last().map_values(|a: XmlAttr| a@) + (seq![attrs@.last()@]
                    + rest) =~= attrs@.map_values(|a: XmlAttr| a@) + rest);
            } else {
                assert(tr_attrs(pre, text@) is None);
            }
        }
        i += 1;
    }
    let mut children: Vec<XmlNode> = Vec::new();
    let nc = n.children.len();
    let mut j: usize = 0;
    proof {
        assert(n@.children.skip(0) =~= n@.children);
        assert(xns_view(children@) =~= Seq::<XmlNodeV>::empty());
        if tr_nodes(n@.children, text@) is Some {
            let rest = tr_nodes(n@.children, text@).unwrap();
            assert(xns_view(children@) + rest =~= rest);
        }
    }
    while j < nc
        invariant
            nc == n.children@.len(),
            j <= nc,
            tr_nodes(n@.children, text@) == match tr_nodes(n@.children.skip(j as int), text@) {
                Some(rest) => Some(xns_view(children@) + rest),
                None => None::<Seq<XmlNodeV>>,
            },
        decreases nc - j,
    {
        let ghost old_children = children@;
        proof {
            lemma_xns_view_index(n.children@);
            assert(n@.children == xns_view(n.children@));
            assert(n@.children.skip(j as int)[0] == n.children@[j as int]@);
        }
        match chars_positions(&n.children[j], text) {
            Some(t) => {
                children.push(t);
            },
            None => {
                proof {
                    assert(tr_nodes(n@.children.skip(j as int), text@) is None);
                }
                return None;
            },
        }
        proof {
            let pre = n@.children.skip(j as int);
            assert(pre.drop_first() =~= n@.children.skip(j + 1));
            lemma_xns_view_snoc(children@);
            assert(children@.drop_last() =~= old_children);
            assert(xns_view(children@) =~= xns_view(children@.drop_last()) + seq![xn_view(
                children@.last(),
            )]);
            assert(tr_node(pre[0], text@) == Some(xn_view(children@.last())));
            if tr_nodes(n@.children.skip(j + 1), text@) is Some {
                let rest = tr_nodes(n@.children.skip(j + 1), text@).unwrap();
                assert(tr_nodes(pre, text@) == Some(seq![xn_view(children@.last())] + rest));
                assert(xns_view(children@.drop_last()) + (seq![xn_view(children@.last())] + rest)
                    =~= xns_view(children@) + rest);
            } else {
                assert(tr_nodes(pre, text@) is None);
            }
        }
        j += 1;
    }
    proof {
        lemma_xns_view_index(n.children@);
        assert(n@.attrs.skip(n@.attrs.len() as int) =~= Seq::<XmlAttrV>::empty());
        assert(n@.children.skip(n@.children.len() as int) =~= Seq::<XmlNodeV>::empty());
        assert(attrs@.map_values(|a: XmlAttr| a@) + Seq::<XmlAttrV>::empty() =~= attrs@.map_values(
            |a: XmlAttr| a@,
        ));
        assert(xns_view(children@) + Seq::<XmlNodeV>::empty() =~= xns_view(children@));
        assert(tr_attrs(n@.attrs, text@) == Some(attrs@.map_values(|a: XmlAttr| a@)));
        assert(tr_nodes(n@.children, text@) == Some(xns_view(children@)));
    }
    let result = XmlNode {
        is_element: n.is_element,
        tag: n.tag.clone(),
        start,
        end,
        attrs,
        children,
    };
    proof {
        assert(result@ == XmlNodeV {
            is_element: n.is_element,
            tag: n.tag@,
            start: start as int,
            end: end as int,
            attrs: result.attrs@.map_values(|a: XmlAttr| a@),
            children: xns_view(result.children@),
        });
        assert(char_pos_of(text@, n@.start) == Some(start as int));
        assert(char_pos_of(text@, n@.end) == Some(end as int));
        assert(tr_node(n@, text@) == Some(result@));
    }
    Some(result)
}

/// Appending one node extends the pointwise view by its view.
pub proof fn lemma_xns_view_snoc(s: Seq<XmlNode>)
    requires
        s.len() > 0,
    ensures
        xns_view(s) == xns_view(s.drop_last()) + seq![xn_view(s.last())],
    decreases s.len(),
{
    if s.len() == 1 {
        assert(s.drop_last() =~= Seq::<XmlNode>::empty());
        assert(xns_view(s) =~= seq![xn_view(s[0])] + xns_view(s.drop_first()));
        assert(s.drop_first() =~= Seq::<XmlNode>::empty());
        assert(xns_view(s) =~= xns_view(s.drop_last()) + seq![xn_view(s.last())]);
    } else {
        lemma_xns_view_snoc(s.drop_first());
        assert(s.drop_first().drop_last() =~= s.drop_last().drop_first());
        assert(s.drop_first().last() == s.last());
        assert(s.drop_last()[0] == s[0]);
        assert(xns_view(s.drop_last()) =~= seq![xn_view(s.drop_last()[0])] + xns_view(
            s.drop_last().drop_first(),
        ));
        assert(xns_view(s) =~= xns_view(s.drop_last()) + seq![xn_view(s.last())]);
    }
}

} // verus!
