//! The document session: buffered edits, atomic commits, and queries.
//!
//! A [`QParser`] owns one document: its current text, a version counter, and
//! a buffer of pending [`Change`]s.  Registration rejects stale references
//! and overlapping ranges; a commit applies the whole buffer by descending
//! start position, so that every splice leaves the positions of the changes
//! still to come untouched, and then advances the version by one.

use vstd::prelude::*;
use vstd::string::StrSliceExecFns;
use vstd::string::StringExecFns;

use crate::changes::Change;
use crate::changes::ChangeV;
use crate::classify::content_part_exec;
use crate::classify::find_child_named;
use crate::classify::classify_subtree_exec;
use crate::classify::subrange_string;
use crate::classify::tags_view;
use crate::refs::ContentRef;
use crate::refs::ContentRefV;
use crate::refs::ContentType;
use crate::refs::ContentTypeV;
use crate::refs::Question;
use crate::refs::QuestionV;
use crate::refs::cts_view;
use crate::text::chars_text;
use crate::text::splice;
use crate::text::text_chars;
use crate::xml::XmlAttr;
use crate::xml::XmlAttrV;
use crate::xml::XmlNode;
use crate::xml::XmlNodeV;
use crate::xml::lemma_xns_view_index;
use crate::xml::xns_view;

verus! {

broadcast use vstd::std_specs::vec::group_vec_axioms;

/// The overlap test of the change buffer: two ranges conflict when either
/// contains an endpoint of the other.  A range touching another only at its
/// boundary does not conflict; two empty ranges at one position do not
/// conflict either.
pub open spec fn refs_conflict(a: ContentRefV, b: ContentRefV) -> bool {
    ||| (a.start < b.end && a.start >= b.start)
    ||| (a.end <= b.end && a.end > b.start)
    ||| (b.start < a.end && b.start >= a.start)
    ||| (b.end <= a.end && b.end > a.start)
}

/// The change's range lies within a text of length `len`.
pub open spec fn change_in_bounds(c: ChangeV, len: int) -> bool {
    0 <= c.position.start <= c.position.end <= len
}

/// The changes are ordered by weakly descending start position.
pub open spec fn sorted_desc(s: Seq<ChangeV>) -> bool {
    forall|i: int, j: int|
        0 <= i < j < s.len() ==> s[i].position.start >= s[j].position.start
}

/// No two changes conflict.
pub open spec fn no_conflicts(s: Seq<ChangeV>) -> bool {
    forall|i: int, j: int|
        0 <= i < j < s.len() ==> !refs_conflict(s[i].position, s[j].position)
}

/// `c` inserted into the descending-ordered `s`, after every change whose
/// start is at least `c`'s: changes registered earlier stay first among
/// equals.
pub open spec fn insert_desc(s: Seq<ChangeV>, c: ChangeV) -> Seq<ChangeV>
    decreases s.len(),
{
    if s.len() == 0 {
        seq![c]
    } else if s[0].position.start >= c.position.start {
        seq![s[0]] + insert_desc(s.drop_first(), c)
    } else {
        seq![c] + s
    }
}

/// The text after applying the changes one by one, each by splicing its
/// replacement text over its range.
pub open spec fn apply_changes(t: Seq<char>, s: Seq<ChangeV>) -> Seq<char>
    decreases s.len(),
{
    if s.len() == 0 {
        t
    } else {
        apply_changes(
            splice(t, s[0].position.start, s[0].position.end, s[0].new_content),
            s.drop_first(),
        )
    }
}

/// The version counter after a commit.
pub open spec fn next_version(v: int) -> int {
    if v < usize::MAX {
        v + 1
    } else {
        v
    }
}

/// An ordered pair of non-conflicting well-formed ranges is disjoint: the
/// one that starts no later ends before the other starts.
pub proof fn lemma_ordered_disjoint(a: ContentRefV, b: ContentRefV)
    requires
        !refs_conflict(a, b),
        b.start <= a.start,
        a.start <= a.end,
        b.start <= b.end,
    ensures
        b.end <= a.start,
{
}

/// A splice leaves the text before its range, and the length bound `s`,
/// untouched.
pub proof fn lemma_splice_prefix(t: Seq<char>, s: int, e: int, ins: Seq<char>, k: int)
    requires
        0 <= k <= s <= e <= t.len(),
    ensures
        splice(t, s, e, ins).len() == s + ins.len() + (t.len() - e),
        splice(t, s, e, ins).subrange(0, k) == t.subrange(0, k),
{
    assert(splice(t, s, e, ins).subrange(0, k) =~= t.subrange(0, k));
}

/// Every change of `s` lies within `[from, upto)` of the text.
pub open spec fn changes_within(s: Seq<ChangeV>, from: int, upto: int) -> bool {
    forall|i: int|
        0 <= i < s.len() ==> from <= (#[trigger] s[i]).position.start <= s[i].position.end <= upto
}

/// The one-pass rebuild of the text from its untouched segments and the
/// replacement texts: the changes of the descending-ordered `s` taken from
/// the lowest up, each contributing the untouched gap before it and its
/// replacement, closed by the untouched tail up to `upto`.
pub open spec fn sim_between(t: Seq<char>, s: Seq<ChangeV>, from: int, upto: int) -> Seq<char>
    decreases s.len(),
{
    if s.len() == 0 {
        t.subrange(from, upto)
    } else {
        let c = s.last();
        t.subrange(from, c.position.start) + c.new_content + sim_between(
            t,
            s.drop_last(),
            c.position.end,
            upto,
        )
    }
}

/// Splicing a replacement over `[a, b)` rewrites the rebuild's tail and
/// leaves the rebuild of the changes below `a` unchanged.
proof fn lemma_sim_after_splice(
    t: Seq<char>,
    s: Seq<ChangeV>,
    from: int,
    a: int,
    b: int,
    ins: Seq<char>,
)
    requires
        sorted_desc(s),
        no_conflicts(s),
        changes_within(s, from, a),
        0 <= from <= a <= b <= t.len(),
    ensures
        sim_between(splice(t, a, b, ins), s, from, splice(t, a, b, ins).len() as int)
            == sim_between(t, s, from, a) + ins + t.subrange(b, t.len() as int),
    decreases s.len(),
{
    let t1 = splice(t, a, b, ins);
    if s.len() == 0 {
        assert(t1.subrange(from, t1.len() as int) =~= t.subrange(from, a) + ins + t.subrange(
            b,
            t.len() as int,
        ));
    } else {
        let c = s.last();
        let rest = s.drop_last();
        assert forall|i: int| 0 <= i < rest.len() implies c.position.end
            <= (#[trigger] rest[i]).position.start by {
            assert(rest[i] == s[i]);
            lemma_ordered_disjoint(rest[i].position, c.position);
        }
        assert(changes_within(rest, c.position.end, a));
        lemma_sim_after_splice(t, rest, c.position.end, a, b, ins);
        assert(t1.subrange(from, c.position.start) =~= t.subrange(from, c.position.start));
        assert((t.subrange(from, c.position.start) + c.new_content + (sim_between(
            t,
            rest,
            c.position.end,
            a,
        ) + ins + t.subrange(b, t.len() as int))) =~= (t.subrange(from, c.position.start)
            + c.new_content + sim_between(t, rest, c.position.end, a)) + ins + t.subrange(
            b,
            t.len() as int,
        ));
    }
}

/// Prepending the highest change to the rebuild splits off its replacement
/// and the untouched tail above it.
proof fn lemma_sim_prepend_highest(
    t: Seq<char>,
    s: Seq<ChangeV>,
    c0: ChangeV,
    from: int,
    upto: int,
)
    requires
        sorted_desc(seq![c0] + s),
        no_conflicts(seq![c0] + s),
        changes_within(s, from, c0.position.start),
        from <= c0.position.start <= c0.position.end <= upto <= t.len(),
        0 <= from,
    ensures
        sim_between(t, seq![c0] + s, from, upto) == sim_between(t, s, from, c0.position.start)
            + c0.new_content + t.subrange(c0.position.end, upto),
    decreases s.len(),
{
    let whole = seq![c0] + s;
    if s.len() == 0 {
        assert(whole.last() == c0);
        assert(whole.drop_last() =~= s);
        assert(sim_between(t, whole, from, upto) == t.subrange(from, c0.position.start)
            + c0.new_content + sim_between(t, s, c0.position.end, upto));
        assert(sim_between(t, s, c0.position.end, upto) == t.subrange(c0.position.end, upto));
        assert(sim_between(t, s, from, c0.position.start) == t.subrange(
            from,
            c0.position.start,
        ));
    } else {
        let c = s.last();
        let rest = s.drop_last();
        assert(whole.last() == c);
        assert(whole.drop_last() =~= seq![c0] + rest);
        assert forall|i: int| 0 <= i < rest.len() implies c.position.end
            <= (#[trigger] rest[i]).position.start by {
            assert(rest[i] == s[i]);
            assert(s[i] == whole[i + 1]);
            assert(c == whole[s.len() as int]);
            lemma_ordered_disjoint(rest[i].position, c.position);
        }
        assert(changes_within(rest, c.position.end, c0.position.start));
        assert(sorted_desc(seq![c0] + rest)) by {
            assert forall|i: int, j: int| 0 <= i < j < (seq![c0] + rest).len() implies (seq![c0]
                + rest)[i].position.start >= (seq![c0] + rest)[j].position.start by {
                assert((seq![c0] + rest)[i] == whole[i]);
                assert((seq![c0] + rest)[j] == whole[j]);
            }
        }
        assert(no_conflicts(seq![c0] + rest)) by {
            assert forall|i: int, j: int| 0 <= i < j < (seq![c0] + rest).len() implies
                !refs_conflict(
                (seq![c0] + rest)[i].position,
                (seq![c0] + rest)[j].position,
            ) by {
                assert((seq![c0] + rest)[i] == whole[i]);
                assert((seq![c0] + rest)[j] == whole[j]);
            }
        }
        lemma_sim_prepend_highest(t, rest, c0, c.position.end, upto);
        assert((t.subrange(from, c.position.start) + c.new_content + (sim_between(
            t,
            rest,
            c.position.end,
            c0.position.start,
        ) + c0.new_content + t.subrange(c0.position.end, upto))) =~= (t.subrange(
            from,
            c.position.start,
        ) + c.new_content + sim_between(t, rest, c.position.end, c0.position.start))
            + c0.new_content + t.subrange(c0.position.end, upto));
    }
}

/// Law: for non-overlapping changes, applying them by descending start
/// position, each splice using the offsets of the original text, yields the
/// one-pass rebuild of that text — the untouched characters with each range
/// replaced in place.  Descending order is the one order in which no splice
/// disturbs the offsets of the changes still to come.
pub proof fn lemma_commit_rebuilds(t: Seq<char>, s: Seq<ChangeV>)
    requires
        sorted_desc(s),
        no_conflicts(s),
        changes_within(s, 0, t.len() as int),
    ensures
        apply_changes(t, s) == sim_between(t, s, 0, t.len() as int),
    decreases s.len(),
{
    if s.len() == 0 {
        assert(sim_between(t, s, 0, t.len() as int) =~= t);
    } else {
        let c0 = s[0];
        let rest = s.drop_first();
        let a = c0.position.start;
        let b = c0.position.end;
        let t1 = splice(t, a, b, c0.new_content);
        assert forall|i: int| 0 <= i < rest.len() implies (#[trigger] rest[i]).position.end
            <= a by {
            assert(rest[i] == s[i + 1]);
            lemma_ordered_disjoint(c0.position, rest[i].position);
        }
        assert(changes_within(rest, 0, a));
        assert(t1.len() == a + c0.new_content.len() + (t.len() - b));
        assert(changes_within(rest, 0, t1.len() as int));
        assert forall|i: int, j: int| 0 <= i < j < rest.len() implies !refs_conflict(
            (#[trigger] rest[i]).position,
            (#[trigger] rest[j]).position,
        ) by {
            assert(rest[i] == s[i + 1]);
            assert(rest[j] == s[j + 1]);
        }
        assert(sorted_desc(rest)) by {
            assert forall|i: int, j: int| 0 <= i < j < rest.len() implies rest[i].position.start
                >= rest[j].position.start by {
                assert(rest[i] == s[i + 1]);
                assert(rest[j] == s[j + 1]);
            }
        }
        lemma_commit_rebuilds(t1, rest);
        lemma_sim_after_splice(t, rest, 0, a, b, c0.new_content);
        assert(seq![c0] + rest =~= s);
        lemma_sim_prepend_highest(t, rest, c0, 0, t.len() as int);
    }
}

/// Law: two changes whose ranges start at different positions may be
/// registered in either order: the pending buffer ends up the same either
/// way, and with it the text the commit produces.
pub proof fn lemma_register_order_irrelevant(s: Seq<ChangeV>, a: ChangeV, b: ChangeV)
    requires
        a.position.start != b.position.start,
    ensures
        insert_desc(insert_desc(s, a), b) == insert_desc(insert_desc(s, b), a),
    decreases s.len(),
{
    if s.len() == 0 {
        assert(insert_desc(s, a) == seq![a]);
        assert(insert_desc(s, b) == seq![b]);
        assert(seq![a].drop_first() =~= Seq::<ChangeV>::empty());
        assert(seq![b].drop_first() =~= Seq::<ChangeV>::empty());
        assert(insert_desc(seq![a].drop_first(), b) == seq![b]);
        assert(insert_desc(seq![b].drop_first(), a) == seq![a]);
        if a.position.start >= b.position.start {
            assert(insert_desc(seq![a], b) == seq![a] + insert_desc(seq![a].drop_first(), b));
            assert(insert_desc(seq![b], a) == seq![a] + seq![b]);
            assert(insert_desc(insert_desc(s, a), b) =~= insert_desc(insert_desc(s, b), a));
        } else {
            assert(insert_desc(seq![b], a) == seq![b] + insert_desc(seq![b].drop_first(), a));
            assert(insert_desc(seq![a], b) == seq![b] + seq![a]);
            assert(insert_desc(insert_desc(s, a), b) =~= insert_desc(insert_desc(s, b), a));
        }
    } else {
        let h = s[0];
        let rest = s.drop_first();
        if h.position.start >= a.position.start && h.position.start >= b.position.start {
            lemma_register_order_irrelevant(rest, a, b);
            assert(insert_desc(s, a) == seq![h] + insert_desc(rest, a));
            assert((seq![h] + insert_desc(rest, a))[0] == h);
            assert((seq![h] + insert_desc(rest, a)).drop_first() =~= insert_desc(rest, a));
            assert(insert_desc(insert_desc(s, a), b) == seq![h] + insert_desc(
                insert_desc(rest, a),
                b,
            ));
            assert((seq![h] + insert_desc(rest, b)).drop_first() =~= insert_desc(rest, b));
            assert(insert_desc(insert_desc(s, b), a) == seq![h] + insert_desc(
                insert_desc(rest, b),
                a,
            ));
        } else if h.position.start >= a.position.start {
            assert(insert_desc(s, b) == seq![b] + s);
            assert((seq![b] + s)[0] == b);
            assert(b.position.start >= a.position.start);
            assert((seq![b] + s).drop_first() =~= s);
            assert(insert_desc(insert_desc(s, b), a) == seq![b] + insert_desc(s, a));
            assert(insert_desc(s, a) == seq![h] + insert_desc(rest, a));
            assert((seq![h] + insert_desc(rest, a))[0] == h);
            assert(insert_desc(insert_desc(s, a), b) == seq![b] + (seq![h] + insert_desc(
                rest,
                a,
            )));
        } else if h.position.start >= b.position.start {
            assert(insert_desc(s, a) == seq![a] + s);
            assert((seq![a] + s)[0] == a);
            assert(a.position.start >= b.position.start);
            assert((seq![a] + s).drop_first() =~= s);
            assert(insert_desc(insert_desc(s, a), b) == seq![a] + insert_desc(s, b));
            assert(insert_desc(s, b) == seq![h] + insert_desc(rest, b));
            assert((seq![h] + insert_desc(rest, b))[0] == h);
            assert(insert_desc(insert_desc(s, b), a) == seq![a] + (seq![h] + insert_desc(
                rest,
                b,
            )));
        } else {
            assert(insert_desc(s, a) == seq![a] + s);
            assert(insert_desc(s, b) == seq![b] + s);
            if a.position.start >= b.position.start {
                assert((seq![a] + s)[0] == a);
                assert((seq![a] + s).drop_first() =~= s);
                assert(insert_desc(insert_desc(s, a), b) == seq![a] + insert_desc(s, b));
                assert((seq![b] + s)[0] == b);
                assert(insert_desc(insert_desc(s, b), a) == seq![a] + (seq![b] + s));
            } else {
                assert((seq![b] + s)[0] == b);
                assert((seq![b] + s).drop_first() =~= s);
                assert(insert_desc(insert_desc(s, b), a) == seq![b] + insert_desc(s, a));
                assert((seq![a] + s)[0] == a);
                assert(insert_desc(insert_desc(s, a), b) == seq![b] + (seq![a] + s));
            }
        }
    }
}

/// A splice that writes back exactly the characters of its own range leaves
/// the text unchanged.
pub proof fn lemma_splice_identity(t: Seq<char>, s: int, e: int)
    requires
        0 <= s <= e <= t.len(),
    ensures
        splice(t, s, e, t.subrange(s, e)) == t,
{
    assert(splice(t, s, e, t.subrange(s, e)) =~= t);
}

/// Law: committing changes whose replacement texts are exactly the
/// characters of their own ranges reconstitutes the text: the ranges a query
/// hands out, written back unmodified, rebuild the document to the last
/// character.
pub proof fn lemma_identity_changes(t: Seq<char>, s: Seq<ChangeV>)
    requires
        changes_within(s, 0, t.len() as int),
        forall|i: int|
            0 <= i < s.len() ==> (#[trigger] s[i]).new_content == t.subrange(
                s[i].position.start,
                s[i].position.end,
            ),
    ensures
        apply_changes(t, s) == t,
    decreases s.len(),
{
    if s.len() > 0 {
        let c0 = s[0];
        lemma_splice_identity(t, c0.position.start, c0.position.end);
        let rest = s.drop_first();
        assert forall|i: int| 0 <= i < rest.len() implies change_in_bounds(
            #[trigger] rest[i],
            t.len() as int,
        ) && rest[i].new_content == t.subrange(rest[i].position.start, rest[i].position.end) by {
            assert(rest[i] == s[i + 1]);
        }
        lemma_identity_changes(t, rest);
    }
}

/// The first attribute named `name`.
pub open spec fn attr_named(attrs: Seq<XmlAttrV>, name: Seq<char>) -> Option<XmlAttrV>
    decreases attrs.len(),
{
    if attrs.len() == 0 {
        None
    } else if attrs[0].name == name {
        Some(attrs[0])
    } else {
        attr_named(attrs.drop_first(), name)
    }
}

/// A retained question: a `question` element whose `type` attribute is
/// present and is not `category`.
pub open spec fn is_retained(n: XmlNodeV) -> bool {
    &&& n.is_element
    &&& n.tag == "question"@
    &&& match attr_named(n.attrs, "type"@) {
        Some(a) => a.value != "category"@,
        None => false,
    }
}

/// The retained questions in `n`'s subtree, `n` itself included, in
/// document order.
pub open spec fn retained_nodes(n: XmlNodeV) -> Seq<XmlNodeV>
    decreases n, 1int,
{
    (if is_retained(n) {
        seq![n]
    } else {
        Seq::<XmlNodeV>::empty()
    }) + retained_nodes_seq(n.children)
}

/// The retained questions in the subtrees of `s`, in document order.
pub open spec fn retained_nodes_seq(s: Seq<XmlNodeV>) -> Seq<XmlNodeV>
    decreases s, 2int,
{
    if s.len() == 0 {
        Seq::<XmlNodeV>::empty()
    } else {
        retained_nodes(s[0]) + retained_nodes_seq(s.drop_first())
    }
}

/// The reference to a question's name text: the content of the first
/// direct `text` child of the question's first direct `name` child, or of
/// the `name` child itself when it has no `text` child.  A question without
/// a name, or whose name has no content, gets the empty reference at the
/// question's start.  `None` marks positions that do not line up with the
/// text.
pub open spec fn question_name_ref(n: XmlNodeV, text: Seq<char>, ver: int) -> Option<ContentRefV> {
    let fallback = ContentRefV {
        content: Seq::<char>::empty(),
        start: n.start,
        end: n.start,
        version: ver,
    };
    match crate::classify::first_child_named(n.children, "name"@) {
        None => Some(fallback),
        Some(nm) => {
            let inner = match crate::classify::first_child_named(nm.children, "text"@) {
                Some(t) => t,
                None => nm,
            };
            match crate::classify::content_part(inner, text, ver) {
                None => None,
                Some(Some(c)) => match c {
                    ContentTypeV::ElementContent(r) => Some(r),
                    _ => None,
                },
                Some(None) => Some(fallback),
            }
        },
    }
}

/// The record of retained question `n` at ordinal `idx`.
pub open spec fn question_of(n: XmlNodeV, text: Seq<char>, ver: int, idx: int) -> Option<QuestionV> {
    if !crate::classify::node_range_ok(n, text) {
        None
    } else {
        match question_name_ref(n, text, ver) {
            None => None,
            Some(nr) => Some(
                QuestionV {
                    index: idx,
                    qtype: attr_named(n.attrs, "type"@).unwrap().value,
                    name: nr,
                    whole_element: ContentRefV {
                        content: text.subrange(n.start, n.end),
                        start: n.start,
                        end: n.end,
                        version: ver,
                    },
                },
            ),
        }
    }
}

/// The records of the retained questions in `n`'s subtree, ordinals
/// starting at `base`.
pub open spec fn qcollect(n: XmlNodeV, text: Seq<char>, ver: int, base: int) -> Option<
    Seq<QuestionV>,
>
    decreases n, 1int,
{
    if is_retained(n) {
        match question_of(n, text, ver, base) {
            None => None,
            Some(q) => match qcollect_seq(n.children, text, ver, base + 1) {
                None => None,
                Some(rest) => Some(seq![q] + rest),
            },
        }
    } else {
        qcollect_seq(n.children, text, ver, base)
    }
}

/// The records of the retained questions in the subtrees of `s`, ordinals
/// starting at `base`.
pub open spec fn qcollect_seq(s: Seq<XmlNodeV>, text: Seq<char>, ver: int, base: int) -> Option<
    Seq<QuestionV>,
>
    decreases s, 2int,
{
    if s.len() == 0 {
        Some(Seq::<QuestionV>::empty())
    } else {
        match qcollect(s[0], text, ver, base) {
            None => None,
            Some(a) => match qcollect_seq(s.drop_first(), text, ver, base + a.len()) {
                None => None,
                Some(b) => Some(a + b),
            },
        }
    }
}

/// The mathematical values of a sequence of [`Question`]s.
pub open spec fn qs_view(s: Seq<Question>) -> Seq<QuestionV> {
    s.map_values(|q: Question| q@)
}

/// What `find_questions` reports for document text `text` at version `ver`:
/// the records of all retained questions, or nothing when the text does not
/// parse or its positions do not line up.
pub open spec fn questions_pipeline(text: Seq<char>, ver: int) -> Option<Seq<QuestionV>> {
    match crate::xml::parse_of(text) {
        None => None,
        Some(root) => match crate::xml::tr_node(root, text) {
            None => None,
            Some(t) => qcollect(t, text, ver, 0),
        },
    }
}

/// How an operation on the session can fail.  These are misuse conditions:
/// the operation returns at once and mutates nothing.
#[derive(Debug, Clone, Copy, PartialEq, Eq, Structural)]
pub enum EditError {
    /// The change's reference was made against a superseded version.
    StaleReference,
    /// The change's range overlaps an already registered change.
    Conflict,
    /// The change's range lies outside the document text.
    OutOfBounds,
    /// The current text no longer parses as XML.
    BrokenDocument,
    /// No retained question has the requested index; `available` says how
    /// many there are.
    NoSuchQuestion { available: usize, requested: usize },
}

/// The mathematical value of a [`QParser`].
pub ghost struct QParserV {
    /// The current document text.
    pub content: Seq<char>,
    /// The current version.
    pub version: int,
    /// The pending changes, ordered by weakly descending start position.
    pub changes: Seq<ChangeV>,
}

/// A document session: the current text, its version, and the pending
/// changes.
pub struct QParser {
    content: String,
    version_num: usize,
    changes: Vec<Change>,
}

impl View for QParser {
    type V = QParserV;

    closed spec fn view(&self) -> QParserV {
        QParserV {
            content: self.content@,
            version: self.version_num as int,
            changes: self.changes@.map_values(|c: Change| c@),
        }
    }
}

impl QParser {
    #[verifier::type_invariant]
    spec fn wf(self) -> bool {
        let cs = self.changes@.map_values(|c: Change| c@);
        &&& forall|i: int|
            0 <= i < cs.len() ==> (#[trigger] cs[i]).position.version == self.version_num as int
                && change_in_bounds(cs[i], self.content@.len() as int)
        &&& sorted_desc(cs)
        &&& no_conflicts(cs)
    }

    /// A session over `content` at version 0 with no pending changes, when
    /// `content` parses as XML; the recoverable parse error otherwise.
    pub fn from_string(content: String) -> (r: Result<QParser, String>)
        ensures
            match r {
                Ok(p) => crate::xml::parse_of(content@) is Some && p@.content == content@
                    && p@.version == 0 && p@.changes.len() == 0,
                Err(e) => crate::xml::parse_of(content@) is None && e@
                    == "Errors parsing the original document."@,
            },
    {
        match crate::xml::parse_document(content.as_str()) {
            Some(_) => Ok(QParser { content, version_num: 0, changes: Vec::new() }),
            None => Err(String::from_str("Errors parsing the original document.")),
        }
    }

    /// The current document text.
    pub fn get_current_content(&self) -> (r: String)
        ensures
            r@ == self@.content,
    {
        self.content.clone()
    }

    /// Registers `change` for the next commit.  The change is rejected, and
    /// the session left as it was, when its reference is stale, when its
    /// range overlaps a pending change, or when its range lies outside the
    /// text; otherwise it joins the pending changes at its ordered place.
    #[verifier::rlimit(80)]
    pub fn register_change(&mut self, change: Change) -> (r: Result<(), EditError>)
        ensures
            final(self)@.content == old(self)@.content,
            final(self)@.version == old(self)@.version,
            ({
                let c = change@;
                let olds = old(self)@.changes;
                if c.position.version != old(self)@.version {
                    r == Err::<(), EditError>(EditError::StaleReference) && final(self)@.changes
                        == olds
                } else if exists|k: int|
                    0 <= k < olds.len() && refs_conflict(
                        (#[trigger] olds[k]).position,
                        c.position,
                    ) {
                    r == Err::<(), EditError>(EditError::Conflict) && final(self)@.changes == olds
                } else if !change_in_bounds(c, old(self)@.content.len() as int) {
                    r == Err::<(), EditError>(EditError::OutOfBounds) && final(self)@.changes
                        == olds
                } else {
                    r == Ok::<(), EditError>(()) && final(self)@.changes == insert_desc(olds, c)
                }
            }),
    {
        proof {
            use_type_invariant(&*self);
        }
        let ghost olds = self@.changes;
        if change.position.version_num != self.version_num {
            return Err(EditError::StaleReference);
        }
        let n = self.changes.len();
        let mut i: usize = 0;
        while i < n
            invariant
                *self == *old(self),
                n == self.changes@.len(),
                i <= n,
                olds == self.changes@.map_values(|c: Change| c@),
                change@.position.version == old(self)@.version,
                forall|k: int|
                    0 <= k < i ==> !refs_conflict((#[trigger] olds[k]).position, change@.position),
            decreases n - i,
        {
            let e = &self.changes[i];
            let conflicts = (change.position.start < e.position.end && change.position.start
                >= e.position.start) || (change.position.end <= e.position.end
                && change.position.end > e.position.start) || (e.position.start
                < change.position.end && e.position.start >= change.position.start) || (
            e.position.end <= change.position.end && e.position.end > change.position.start);
            if conflicts {
                proof {
                    assert(olds[i as int] == self.changes@[i as int]@);
                    assert(refs_conflict(olds[i as int].position, change@.position));
                }
                return Err(EditError::Conflict);
            }
            proof {
                assert(olds[i as int] == self.changes@[i as int]@);
            }
            i += 1;
        }
        let text_len = self.content.as_str().unicode_len();
        if !(change.position.start <= change.position.end && change.position.end <= text_len) {
            return Err(EditError::OutOfBounds);
        }
        let mut idx: usize = 0;
        proof {
            assert(olds.skip(0) =~= olds);
            assert(olds.take(0) + insert_desc(olds, change@) =~= insert_desc(olds, change@));
        }
        while idx < n && self.changes[idx].position.start >= change.position.start
            invariant
                *self == *old(self),
                n == self.changes@.len(),
                idx <= n,
                olds == self.changes@.map_values(|c: Change| c@),
                change@.position.version == old(self)@.version,
                change_in_bounds(change@, old(self)@.content.len() as int),
                forall|k: int|
                    0 <= k < olds.len() ==> !refs_conflict(
                        (#[trigger] olds[k]).position,
                        change@.position,
                    ),
                forall|k: int|
                    0 <= k < idx ==> (#[trigger] olds[k]).position.start
                        >= change@.position.start,
                insert_desc(olds, change@) == olds.take(idx as int) + insert_desc(
                    olds.skip(idx as int),
                    change@,
                ),
            decreases n - idx,
        {
            proof {
                let pre = olds.skip(idx as int);
                assert(pre[0] == olds[idx as int]);
                assert(pre.drop_first() =~= olds.skip(idx + 1));
                assert(olds.take(idx as int).push(olds[idx as int]) =~= olds.take(idx + 1));
                assert(olds.take(idx as int) + (seq![pre[0]] + insert_desc(
                    pre.drop_first(),
                    change@,
                )) =~= olds.take(idx + 1) + insert_desc(olds.skip(idx + 1), change@));
            }
            idx += 1;
        }
        proof {
            let pre = olds.skip(idx as int);
            if idx < n {
                assert(pre[0] == olds[idx as int]);
                assert(insert_desc(pre, change@) == seq![change@] + pre);
            } else {
                assert(pre =~= Seq::<ChangeV>::empty());
                assert(insert_desc(pre, change@) == seq![change@]);
            }
            assert(insert_desc(olds, change@) =~= olds.take(idx as int) + seq![change@]
                + olds.skip(idx as int));
        }
        let mut cs: Vec<Change> = Vec::new();
        std::mem::swap(&mut cs, &mut self.changes);
        cs.insert(idx, change);
        proof {
            let news = cs@.map_values(|c: Change| c@);
            assert forall|k: int| 0 <= k < news.len() implies (#[trigger] news[k])
                == insert_desc(olds, change@)[k] by {
                assert(cs@[k] == if k < idx as int {
                    old(self).changes@[k]
                } else if k == idx as int {
                    change
                } else {
                    old(self).changes@[k - 1]
                });
            }
            assert(news =~= insert_desc(olds, change@));
            assert(no_conflicts(news)) by {
                assert forall|a: int, b: int| 0 <= a < b < news.len() implies !refs_conflict(
                    news[a].position,
                    news[b].position,
                ) by {}
            }
            assert(sorted_desc(news)) by {
                assert forall|a: int, b: int|
                    0 <= a < b < news.len() implies news[a].position.start
                    >= news[b].position.start by {}
            }
        }
        std::mem::swap(&mut cs, &mut self.changes);
        Ok(())
    }

    /// Applies every pending change to the text, emptying the buffer, and
    /// advances the version by one; with nothing pending, does nothing.
    pub fn execute_changes(&mut self)
        ensures
            final(self)@.content == apply_changes(old(self)@.content, old(self)@.changes),
            final(self)@.changes.len() == 0,
            final(self)@.version == if old(self)@.changes.len() == 0 {
                old(self)@.version
            } else {
                next_version(old(self)@.version)
            },
    {
        proof {
            use_type_invariant(&*self);
        }
        if self.changes.len() == 0 {
            return;
        }
        let ghost svs = self@.changes;
        let ghost t0 = self@.content;
        let mut cs: Vec<Change> = Vec::new();
        std::mem::swap(&mut cs, &mut self.changes);
        let mut chars = text_chars(self.content.as_str());
        let n = cs.len();
        let mut k: usize = 0;
        proof {
            assert(svs.skip(0) =~= svs);
        }
        while k < n
            invariant
                n == cs@.len(),
                k <= n,
                svs == cs@.map_values(|c: Change| c@),
                sorted_desc(svs),
                no_conflicts(svs),
                forall|j: int|
                    k <= j < n ==> change_in_bounds(#[trigger] svs[j], chars@.len() as int),
                apply_changes(t0, svs) == apply_changes(chars@, svs.skip(k as int)),
            decreases n - k,
        {
            let c = &cs[k];
            proof {
                assert(svs[k as int] == cs@[k as int]@);
                assert(change_in_bounds(svs[k as int], chars@.len() as int));
            }
            let ins = text_chars(c.new_content.as_str());
            let spliced = splice_chars(&chars, c.position.start, c.position.end, &ins);
            proof {
                let pre = svs.skip(k as int);
                assert(pre[0] == svs[k as int]);
                assert(pre.drop_first() =~= svs.skip(k + 1));
                assert(apply_changes(chars@, pre) == apply_changes(spliced@, svs.skip(k + 1)));
                assert forall|j: int| k + 1 <= j < n implies change_in_bounds(
                    #[trigger] svs[j],
                    spliced@.len() as int,
                ) by {
                    lemma_ordered_disjoint(svs[k as int].position, svs[j].position);
                    lemma_splice_prefix(
                        chars@,
                        svs[k as int].position.start,
                        svs[k as int].position.end,
                        svs[k as int].new_content,
                        svs[j].position.end,
                    );
                }
            }
            chars = spliced;
            k += 1;
        }
        proof {
            assert(svs.skip(n as int) =~= Seq::<ChangeV>::empty());
        }
        self.content = chars_text(&chars);
        if self.version_num < usize::MAX {
            self.version_num = self.version_num + 1;
        }
    }

    /// Commits pending changes, re-parses, and reports every retained
    /// question in document order: its 0-based ordinal, its `type`
    /// attribute, the reference to its name text, and the reference to the
    /// whole element.  Fails when the committed text no longer parses as
    /// XML.
    pub fn find_questions(&mut self) -> (r: Result<Vec<Question>, EditError>)
        ensures
            final(self)@.content == apply_changes(old(self)@.content, old(self)@.changes),
            final(self)@.changes.len() == 0,
            final(self)@.version == if old(self)@.changes.len() == 0 {
                old(self)@.version
            } else {
                next_version(old(self)@.version)
            },
            match r {
                Ok(v) => questions_pipeline(final(self)@.content, final(self)@.version) == Some(
                    qs_view(v@),
                ),
                Err(e) => e == EditError::BrokenDocument && questions_pipeline(
                    final(self)@.content,
                    final(self)@.version,
                ) is None,
            },
    {
        self.execute_changes();
        let root = match crate::xml::parse_document(self.content.as_str()) {
            Some(x) => x,
            None => {
                return Err(EditError::BrokenDocument);
            },
        };
        let chars = text_chars(self.content.as_str());
        let troot = match crate::xml::chars_positions(&root, &chars) {
            Some(t) => t,
            None => {
                return Err(EditError::BrokenDocument);
            },
        };
        let mut out: Vec<Question> = Vec::new();
        let ghost empty_qs = qs_view(out@);
        proof {
            assert(empty_qs =~= Seq::<QuestionV>::empty());
        }
        if qcollect_exec(&troot, &chars, self.version_num, &mut out) {
            proof {
                assert(Seq::<QuestionV>::empty() + qcollect(
                    troot@,
                    chars@,
                    self.version_num as int,
                    0,
                ).unwrap() =~= qcollect(troot@, chars@, self.version_num as int, 0).unwrap());
            }
            Ok(out)
        } else {
            Err(EditError::BrokenDocument)
        }
    }

    /// Commits pending changes, re-parses, and classifies the subtree of
    /// the retained question at ordinal `qnum` for the given tag names.
    /// Fails when the committed text no longer parses as XML, and reports
    /// how many retained questions exist when `qnum` is beyond them.
    pub fn get_elements(&mut self, qnum: usize, tagnames: Vec<String>) -> (r: Result<
        Vec<ContentType>,
        EditError,
    >)
        ensures
            final(self)@.content == apply_changes(old(self)@.content, old(self)@.changes),
            final(self)@.changes.len() == 0,
            final(self)@.version == if old(self)@.changes.len() == 0 {
                old(self)@.version
            } else {
                next_version(old(self)@.version)
            },
            ({
                let text1 = final(self)@.content;
                let ver1 = final(self)@.version;
                match crate::xml::parse_of(text1) {
                    None => r == Err::<Vec<ContentType>, EditError>(EditError::BrokenDocument),
                    Some(root) => match crate::xml::tr_node(root, text1) {
                        None => r == Err::<Vec<ContentType>, EditError>(
                            EditError::BrokenDocument,
                        ),
                        Some(t) => {
                            let nodes = retained_nodes(t);
                            if qnum >= nodes.len() {
                                r matches Err(e) && e matches EditError::NoSuchQuestion {
                                    available,
                                    requested,
                                } && available as int == nodes.len() && requested == qnum
                            } else {
                                match crate::classify::classify_subtree(
                                    nodes[qnum as int],
                                    text1,
                                    ver1,
                                    tags_view(tagnames@),
                                ) {
                                    None => r == Err::<Vec<ContentType>, EditError>(
                                        EditError::BrokenDocument,
                                    ),
                                    Some(cs) => r matches Ok(v) && cts_view(v@) == cs,
                                }
                            }
                        },
                    },
                }
            }),
    {
        self.execute_changes();
        let root = match crate::xml::parse_document(self.content.as_str()) {
            Some(x) => x,
            None => {
                return Err(EditError::BrokenDocument);
            },
        };
        let chars = text_chars(self.content.as_str());
        let troot = match crate::xml::chars_positions(&root, &chars) {
            Some(t) => t,
            None => {
                return Err(EditError::BrokenDocument);
            },
        };
        match find_nth_retained(&troot, qnum) {
            Ok(qnode) => {
                match classify_subtree_exec(qnode, &chars, self.version_num, &tagnames) {
                    Some(v) => Ok(v),
                    None => Err(EditError::BrokenDocument),
                }
            },
            Err(rem) => {
                Err(EditError::NoSuchQuestion { available: qnum - rem, requested: qnum })
            },
        }
    }

    /// Commits pending changes and returns the resulting text when it still
    /// parses as XML; the recoverable error otherwise, so that an invalid
    /// document is never persisted.
    pub fn validated_content(&mut self) -> (r: Result<String, String>)
        ensures
            final(self)@.content == apply_changes(old(self)@.content, old(self)@.changes),
            final(self)@.changes.len() == 0,
            final(self)@.version == if old(self)@.changes.len() == 0 {
                old(self)@.version
            } else {
                next_version(old(self)@.version)
            },
            match r {
                Ok(s) => crate::xml::parse_of(final(self)@.content) is Some && s@ == final(
                    self)@.content,
                Err(e) => crate::xml::parse_of(final(self)@.content) is None && e@
                    == "Will not write to a file due to content being broken."@,
            },
    {
        self.execute_changes();
        match crate::xml::parse_document(self.content.as_str()) {
            Some(_) => Ok(self.content.clone()),
            None => Err(String::from_str("Will not write to a file due to content being broken.")),
        }
    }
}

/// The value of the first attribute named `name`, as [`attr_named`] states
/// it.
fn attr_value_named(attrs: &Vec<XmlAttr>, name: &String) -> (r: Option<String>)
    ensures
        ({
            let av = attrs@.map_values(|a: XmlAttr| a@);
            match r {
                Some(v) => attr_named(av, name@) matches Some(a) && a.value == v@,
                None => attr_named(av, name@) is None,
            }
        }),
{
    let ghost av = attrs@.map_values(|a: XmlAttr| a@);
    proof {
        assert(av.skip(0) =~= av);
    }
    let na = attrs.len();
    let mut k: usize = 0;
    while k < na
        invariant
            na == attrs@.len(),
            av == attrs@.map_values(|a: XmlAttr| a@),
            av.len() == na,
            k <= na,
            attr_named(av, name@) == attr_named(av.skip(k as int), name@),
        decreases na - k,
    {
        proof {
            assert(av.skip(k as int)[0] == av[k as int]);
            assert(av[k as int] == attrs@[k as int]@);
            assert(av.skip(k as int).drop_first() =~= av.skip(k + 1));
        }
        if attrs[k].name == *name {
            return Some(attrs[k].value.clone());
        }
        k += 1;
    }
    proof {
        assert(av.skip(na as int) =~= Seq::<XmlAttrV>::empty());
    }
    None
}

/// The record of the retained question `n` at ordinal `idx`, as
/// [`question_of`] states it.
fn question_record(n: &XmlNode, text: &Vec<char>, ver: usize, idx: usize) -> (r: Option<Question>)
    requires
        is_retained(n@),
    ensures
        match r {
            Some(q) => question_of(n@, text@, ver as int, idx as int) == Some(q@),
            None => question_of(n@, text@, ver as int, idx as int) is None,
        },
{
    let tn = text.len();
    if !(n.start <= n.end && n.end <= tn) {
        return None;
    }
    proof {
        assert(n@.children == xns_view(n.children@));
        assert(n@.attrs == n.attrs@.map_values(|a: XmlAttr| a@));
        lemma_xns_view_index(n.children@);
    }
    let name_tag = String::from_str("name");
    let text_tag = String::from_str("text");
    let name_ref: ContentRef = match find_child_named(&n.children, &name_tag) {
        None => ContentRef {
            content: String::new(),
            start: n.start,
            end: n.start,
            version_num: ver,
        },
        Some(k) => {
            let nm = &n.children[k];
            proof {
                assert(nm@ == n@.children[k as int]);
                lemma_xns_view_index(nm.children@);
                assert(nm@.children == xns_view(nm.children@));
            }
            let inner: &XmlNode = match find_child_named(&nm.children, &text_tag) {
                Some(t) => &nm.children[t],
                None => nm,
            };
            match content_part_exec(inner, text, ver) {
                None => {
                    return None;
                },
                Some(Some(c)) => match c {
                    ContentType::ElementContent(cr) => cr,
                    _ => {
                        proof {
                            assert(false);
                        }
                        return None;
                    },
                },
                Some(None) => ContentRef {
                    content: String::new(),
                    start: n.start,
                    end: n.start,
                    version_num: ver,
                },
            }
        },
    };
    let type_tag = String::from_str("type");
    let qtype = match attr_value_named(&n.attrs, &type_tag) {
        Some(v) => v,
        None => {
            proof {
                assert(false);
            }
            return None;
        },
    };
    let whole = subrange_string(text, n.start, n.end);
    Some(
        Question {
            index: idx,
            qtype,
            name: name_ref,
            whole_element: ContentRef { content: whole, start: n.start, end: n.end, version_num: ver },
        },
    )
}

/// Whether `n` is a retained question.
fn is_retained_exec(n: &XmlNode) -> (b: bool)
    ensures
        b == is_retained(n@),
{
    proof {
        assert(n@.attrs == n.attrs@.map_values(|a: XmlAttr| a@));
        assert(n@.tag == n.tag@);
    }
    if !n.is_element {
        return false;
    }
    let question_tag = String::from_str("question");
    if !(n.tag == question_tag) {
        return false;
    }
    let type_tag = String::from_str("type");
    match attr_value_named(&n.attrs, &type_tag) {
        Some(v) => {
            let category = String::from_str("category");
            !(v == category)
        },
        None => false,
    }
}

/// Appends the records of the retained questions in `n`'s subtree to
/// `out`, their ordinals continuing from the records already there;
/// `false` when the tree's positions do not line up with the text.
fn qcollect_exec(n: &XmlNode, text: &Vec<char>, ver: usize, out: &mut Vec<Question>) -> (ok: bool)
    ensures
        match qcollect(n@, text@, ver as int, old(out)@.len() as int) {
            Some(qs) => ok && qs_view(final(out)@) == qs_view(old(out)@) + qs,
            None => !ok,
        },
    decreases *n,
{
    let ghost base0 = out@.len() as int;
    let ghost mut hd = Seq::<QuestionV>::empty();
    if is_retained_exec(n) {
        let idx = out.len();
        match question_record(n, text, ver, idx) {
            Some(q) => {
                proof {
                    hd = seq![q@];
                }
                out.push(q);
            },
            None => {
                return false;
            },
        }
    }
    let ghost mid = out@;
    let ghost cv = n@.children;
    proof {
        assert(n@.children == xns_view(n.children@));
        lemma_xns_view_index(n.children@);
        assert(cv.skip(0) =~= cv);
        assert(qs_view(mid) =~= qs_view(old(out)@) + hd);
        assert(qs_view(mid).skip(base0) =~= hd);
        assert(qs_view(out@).skip(mid.len() as int) =~= Seq::<QuestionV>::empty());
    }
    let nc = n.children.len();
    let mut j: usize = 0;
    while j < nc
        invariant
            nc == n.children@.len(),
            cv == xns_view(n.children@),
            cv == n@.children,
            cv.len() == nc,
            forall|m: int| 0 <= m < nc ==> cv[m] == n.children@[m]@,
            j <= nc,
            base0 == old(out)@.len(),
            mid.len() == base0 + hd.len(),
            out@.len() >= mid.len(),
            qs_view(mid) == qs_view(old(out)@) + hd,
            qs_view(out@).take(mid.len() as int) == qs_view(mid),
            is_retained(n@) ==> hd.len() == 1 && question_of(n@, text@, ver as int, base0)
                == Some(hd[0]),
            !is_retained(n@) ==> hd.len() == 0,
            qcollect_seq(cv, text@, ver as int, mid.len() as int) == (match qcollect_seq(
                cv.skip(j as int),
                text@,
                ver as int,
                out@.len() as int,
            ) {
                Some(rest) => Some(qs_view(out@).skip(mid.len() as int) + rest),
                None => None::<Seq<QuestionV>>,
            }),
        decreases nc - j,
    {
        proof {
            assert(cv.skip(j as int)[0] == cv[j as int]);
            assert(cv.skip(j as int).drop_first() =~= cv.skip(j + 1));
        }
        let ghost pre = out@;
        if !qcollect_exec(&n.children[j], text, ver, out) {
            proof {
                assert(qcollect(cv[j as int], text@, ver as int, pre.len() as int) is None);
                assert(qcollect_seq(cv.skip(j as int), text@, ver as int, pre.len() as int)
                    is None);
                assert(qcollect_seq(cv, text@, ver as int, mid.len() as int) is None);
                if is_retained(n@) {
                    assert(qcollect(n@, text@, ver as int, base0) is None);
                } else {
                    assert(qcollect(n@, text@, ver as int, base0) is None);
                }
            }
            return false;
        }
        proof {
            let qs = qcollect(cv[j as int], text@, ver as int, pre.len() as int).unwrap();
            assert(qs_view(out@) == qs_view(pre) + qs);
            assert(qs_view(out@).take(mid.len() as int) =~= qs_view(pre).take(mid.len() as int));
            assert(qs_view(out@).skip(mid.len() as int) =~= qs_view(pre).skip(mid.len() as int)
                + qs);
            if qcollect_seq(cv.skip(j + 1), text@, ver as int, out@.len() as int) is Some {
                let rest = qcollect_seq(
                    cv.skip(j + 1),
                    text@,
                    ver as int,
                    out@.len() as int,
                ).unwrap();
                assert(out@.len() as int == pre.len() + qs.len());
                assert(qcollect_seq(cv.skip(j as int), text@, ver as int, pre.len() as int)
                    == Some(qs + rest));
                assert(qs_view(pre).skip(mid.len() as int) + (qs + rest) =~= (qs_view(pre).skip(
                    mid.len() as int,
                ) + qs) + rest);
            } else {
                assert(qcollect_seq(cv.skip(j as int), text@, ver as int, pre.len() as int)
                    is None);
            }
        }
        j += 1;
    }
    proof {
        assert(cv.skip(nc as int) =~= Seq::<XmlNodeV>::empty());
        assert(qs_view(out@).skip(mid.len() as int) + Seq::<QuestionV>::empty() =~= qs_view(
            out@,
        ).skip(mid.len() as int));
        assert(qcollect_seq(cv, text@, ver as int, mid.len() as int) == Some(
            qs_view(out@).skip(mid.len() as int),
        ));
        assert(qcollect(n@, text@, ver as int, base0) == Some(hd + qs_view(out@).skip(
            mid.len() as int,
        )));
        assert(qs_view(out@) =~= qs_view(out@).take(mid.len() as int) + qs_view(out@).skip(
            mid.len() as int,
        ));
        assert(qs_view(out@) =~= qs_view(old(out)@) + (hd + qs_view(out@).skip(
            mid.len() as int,
        )));
    }
    true
}

/// The retained question at ordinal `skip` within `n`'s subtree, or, when
/// the subtree holds too few, how much of `skip` remains after them.
fn find_nth_retained<'a>(n: &'a XmlNode, skip: usize) -> (r: Result<&'a XmlNode, usize>)
    ensures
        match r {
            Ok(nd) => skip < retained_nodes(n@).len() && nd@ == retained_nodes(n@)[skip as int],
            Err(rem) => rem <= skip && retained_nodes(n@).len() == skip - rem,
        },
    decreases *n,
{
    let ghost rn = retained_nodes(n@);
    let mut sk = skip;
    let ghost mut done = Seq::<XmlNodeV>::empty();
    if is_retained_exec(n) {
        if sk == 0 {
            proof {
                assert(rn[0] == n@);
            }
            return Ok(n);
        }
        sk = sk - 1;
        proof {
            done = seq![n@];
        }
    }
    let ghost cv = n@.children;
    proof {
        assert(n@.children == xns_view(n.children@));
        lemma_xns_view_index(n.children@);
        assert(cv.skip(0) =~= cv);
        assert(rn =~= done + retained_nodes_seq(cv.skip(0)));
    }
    let nc = n.children.len();
    let mut j: usize = 0;
    while j < nc
        invariant
            nc == n.children@.len(),
            cv == xns_view(n.children@),
            cv.len() == nc,
            forall|m: int| 0 <= m < nc ==> cv[m] == n.children@[m]@,
            j <= nc,
            sk <= skip,
            done.len() == skip - sk,
            rn == retained_nodes(n@),
            rn == done + retained_nodes_seq(cv.skip(j as int)),
        decreases nc - j,
    {
        proof {
            assert(cv.skip(j as int)[0] == cv[j as int]);
            assert(cv.skip(j as int).drop_first() =~= cv.skip(j + 1));
            assert(retained_nodes_seq(cv.skip(j as int)) == retained_nodes(cv[j as int])
                + retained_nodes_seq(cv.skip(j + 1)));
        }
        match find_nth_retained(&n.children[j], sk) {
            Ok(nd) => {
                proof {
                    assert(rn[skip as int] == retained_nodes(cv[j as int])[sk as int]);
                    assert(skip < rn.len());
                }
                return Ok(nd);
            },
            Err(rem) => {
                proof {
                    done = done + retained_nodes(cv[j as int]);
                }
                sk = rem;
                proof {
                    assert(rn =~= done + retained_nodes_seq(cv.skip(j + 1)));
                }
            },
        }
        j += 1;
    }
    proof {
        assert(cv.skip(nc as int) =~= Seq::<XmlNodeV>::empty());
        assert(retained_nodes_seq(cv.skip(nc as int)) =~= Seq::<XmlNodeV>::empty());
        assert(rn =~= done);
    }
    Err(sk)
}

/// The characters of `t` with the range `[start, end)` replaced by `ins`.
pub fn splice_chars(t: &Vec<char>, start: usize, end: usize, ins: &Vec<char>) -> (r: Vec<char>)
    requires
        start <= end <= t@.len(),
    ensures
        r@ == splice(t@, start as int, end as int, ins@),
{
    let mut out: Vec<char> = Vec::new();
    let mut i: usize = 0;
    while i < start
        invariant
            start <= end <= t@.len(),
            i <= start,
            out@ == t@.subrange(0, i as int),
        decreases start - i,
    {
        out.push(t[i]);
        proof {
            assert(t@.subrange(0, i + 1) =~= t@.subrange(0, i as int).push(t@[i as int]));
        }
        i += 1;
    }
    crate::text::push_all(&mut out, ins);
    let mut j: usize = end;
    let n = t.len();
    while j < n
        invariant
            start <= end <= t@.len(),
            n == t@.len(),
            end <= j <= n,
            out@ == t@.subrange(0, start as int) + ins@ + t@.subrange(end as int, j as int),
        decreases n - j,
    {
        out.push(t[j]);
        proof {
            assert(t@.subrange(end as int, j + 1) =~= t@.subrange(end as int, j as int).push(
                t@[j as int],
            ));
        }
        j += 1;
    }
    proof {
        assert(out@ =~= splice(t@, start as int, end as int, ins@));
    }
    out
}

} // verus!
