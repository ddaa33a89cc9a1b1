//! Character-level text model and transforms.
//!
//! The engine models a document as its sequence of characters; every position
//! in a contract is an index into that sequence.  This module holds the
//! splice operation used by the committer and the plain text transforms:
//! substring replacement (for the entity codecs), marker search, and the
//! CDATA unwrap state machine.

use vstd::prelude::*;

verus! {

/// The text obtained by replacing the characters in `[start, end)` of `t`
/// with `ins`.
pub open spec fn splice(t: Seq<char>, start: int, end: int, ins: Seq<char>) -> Seq<char>
    recommends
        0 <= start <= end <= t.len(),
{
    t.subrange(0, start) + ins + t.subrange(end, t.len() as int)
}

/// `pat` occurs in `s` at position `i`.
pub open spec fn occurs_at(s: Seq<char>, pat: Seq<char>, i: int) -> bool {
    &&& 0 <= i
    &&& i + pat.len() <= s.len()
    &&& s.subrange(i, i + pat.len()) == pat
}

/// `pat` occurs somewhere in `s`.
pub open spec fn contains_seq(s: Seq<char>, pat: Seq<char>) -> bool {
    exists|i: int| occurs_at(s, pat, i)
}

/// Left-to-right, non-overlapping replacement of every occurrence of `pat`
/// by `rep`.  An empty pattern replaces nothing.
pub open spec fn replace_seq(s: Seq<char>, pat: Seq<char>, rep: Seq<char>) -> Seq<char>
    decreases s.len(),
{
    if pat.len() == 0 || s.len() < pat.len() {
        s
    } else if s.subrange(0, pat.len() as int) == pat {
        rep + replace_seq(s.skip(pat.len() as int), pat, rep)
    } else {
        seq![s[0]] + replace_seq(s.skip(1), pat, rep)
    }
}

/// `c` occurs in `s`.
pub open spec fn contains_char(s: Seq<char>, c: char) -> bool {
    exists|i: int| 0 <= i < s.len() && s[i] == c
}

/// The literal decoding of the seven basic entities, each a global
/// left-to-right replacement, the ampersand decoded last so that a decoded
/// `&` never forms a fresh entity.
pub open spec fn entity_decode_seq(s: Seq<char>) -> Seq<char> {
    replace_seq(
        replace_seq(
            replace_seq(
                replace_seq(
                    replace_seq(
                        replace_seq(replace_seq(s, "&lt;"@, "<"@), "&gt;"@, ">"@),
                        "&quot;"@,
                        "\""@,
                    ),
                    "&apos;"@,
                    "'"@,
                ),
                "&#xA;"@,
                "\n"@,
            ),
            "&#xD;"@,
            "\r"@,
        ),
        "&amp;"@,
        "&"@,
    )
}

/// The entity escaping of attribute text, the ampersand escaped first so
/// that the escapes it introduces are not escaped again.
pub open spec fn attr_escape_seq(s: Seq<char>) -> Seq<char> {
    replace_seq(
        replace_seq(
            replace_seq(
                replace_seq(
                    replace_seq(
                        replace_seq(replace_seq(s, "&"@, "&amp;"@), "<"@, "&lt;"@),
                        ">"@,
                        "&gt;"@,
                    ),
                    "\""@,
                    "&quot;"@,
                ),
                "'"@,
                "&apos;"@,
            ),
            "\n"@,
            "&#xA;"@,
        ),
        "\r"@,
        "&#xD;"@,
    )
}

/// Whether `s` holds a character that forces a CDATA wrap.
pub open spec fn needs_cdata(s: Seq<char>) -> bool {
    ||| contains_char(s, '&')
    ||| contains_char(s, '"')
    ||| contains_char(s, '\'')
    ||| contains_char(s, '<')
    ||| contains_char(s, '>')
}

/// `s` wrapped in CDATA markers iff it holds a character that needs it.
pub open spec fn cdata_wrap_seq(s: Seq<char>) -> Seq<char> {
    if needs_cdata(s) {
        cdata_open() + s + cdata_close()
    } else {
        s
    }
}

/// The literal decoding of the seven basic entities in `v`.
pub fn entity_decode_chars(v: &Vec<char>) -> (r: Vec<char>)
    ensures
        r@ == entity_decode_seq(v@),
{
    let p1 = replace_chars(v, &text_chars("&lt;"), &text_chars("<"));
    let p2 = replace_chars(&p1, &text_chars("&gt;"), &text_chars(">"));
    let p3 = replace_chars(&p2, &text_chars("&quot;"), &text_chars("\""));
    let p4 = replace_chars(&p3, &text_chars("&apos;"), &text_chars("'"));
    let p5 = replace_chars(&p4, &text_chars("&#xA;"), &text_chars("\n"));
    let p6 = replace_chars(&p5, &text_chars("&#xD;"), &text_chars("\r"));
    replace_chars(&p6, &text_chars("&amp;"), &text_chars("&"))
}

/// The entity escaping of attribute text in `v`.
pub fn attr_escape_chars(v: &Vec<char>) -> (r: Vec<char>)
    ensures
        r@ == attr_escape_seq(v@),
{
    let p1 = replace_chars(v, &text_chars("&"), &text_chars("&amp;"));
    let p2 = replace_chars(&p1, &text_chars("<"), &text_chars("&lt;"));
    let p3 = replace_chars(&p2, &text_chars(">"), &text_chars("&gt;"));
    let p4 = replace_chars(&p3, &text_chars("\""), &text_chars("&quot;"));
    let p5 = replace_chars(&p4, &text_chars("'"), &text_chars("&apos;"));
    let p6 = replace_chars(&p5, &text_chars("\n"), &text_chars("&#xA;"));
    replace_chars(&p6, &text_chars("\r"), &text_chars("&#xD;"))
}

/// Whether `v` holds a character that forces a CDATA wrap.
pub fn needs_cdata_exec(v: &Vec<char>) -> (b: bool)
    ensures
        b == needs_cdata(v@),
{
    let n = v.len();
    let mut i: usize = 0;
    while i < n
        invariant
            n == v@.len(),
            i <= n,
            forall|k: int|
                0 <= k < i ==> v@[k] != '&' && v@[k] != '"' && v@[k] != '\'' && v@[k] != '<'
                    && v@[k] != '>',
        decreases n - i,
    {
        let c = v[i];
        if c == '&' || c == '"' || c == '\'' || c == '<' || c == '>' {
            return true;
        }
        i += 1;
    }
    false
}

/// `v` wrapped in CDATA markers iff it holds a character that needs it.
pub fn cdata_wrap_chars(v: &Vec<char>) -> (r: Vec<char>)
    ensures
        r@ == cdata_wrap_seq(v@),
{
    proof {
        reveal_strlit("<![CDATA[");
        reveal_strlit("]]>");
    }
    let mut out: Vec<char> = Vec::new();
    if needs_cdata_exec(v) {
        push_all(&mut out, &text_chars("<![CDATA["));
        push_all(&mut out, v);
        push_all(&mut out, &text_chars("]]>"));
    } else {
        push_all(&mut out, v);
        proof {
            assert(out@ =~= v@);
        }
    }
    out
}

/// The opening CDATA marker.
pub open spec fn cdata_open() -> Seq<char> {
    "<![CDATA["@
}

/// The closing CDATA marker.
pub open spec fn cdata_close() -> Seq<char> {
    "]]>"@
}

/// One step of the CDATA scanner.  The state is `(in_cdata, open_matched,
/// close_matched)`: whether the scanner is inside a CDATA section, and how
/// many characters of the opening and closing markers have been matched so
/// far.  The result is the successor state and the characters emitted by the
/// step; a partially matched marker that is broken is emitted literally.
pub open spec fn cd_step(st: (bool, int, int), c: char) -> ((bool, int, int), Seq<char>) {
    let (inc, cs, ce) = st;
    let flush_close = if ce > 0 {
        cdata_close().take(ce)
    } else {
        Seq::<char>::empty()
    };
    let flush_open = if cs > 0 {
        cdata_open().take(cs)
    } else {
        Seq::<char>::empty()
    };
    if c == '<' {
        if !inc && cs == 0 {
            ((false, 1, 0), flush_close)
        } else {
            ((inc, 0, 0), flush_close + flush_open + seq![c])
        }
    } else if c == '!' {
        if !inc && cs == 1 {
            ((false, 2, 0), flush_close)
        } else {
            ((inc, 0, 0), flush_close + flush_open + seq![c])
        }
    } else if c == '[' {
        if !inc && cs == 2 {
            ((false, 3, 0), flush_close)
        } else if !inc && cs == 8 {
            ((true, 0, 0), flush_close)
        } else {
            ((inc, 0, 0), flush_close + flush_open + seq![c])
        }
    } else if c == 'C' {
        if !inc && cs == 3 {
            ((false, 4, 0), flush_close)
        } else {
            ((inc, 0, 0), flush_close + flush_open + seq![c])
        }
    } else if c == 'D' {
        if !inc && cs == 4 {
            ((false, 5, 0), flush_close)
        } else {
            ((inc, 0, 0), flush_close + flush_open + seq![c])
        }
    } else if c == 'A' {
        if !inc && cs == 5 {
            ((false, 6, 0), flush_close)
        } else if !inc && cs == 7 {
            ((false, 8, 0), flush_close)
        } else {
            ((inc, 0, 0), flush_close + flush_open + seq![c])
        }
    } else if c == 'T' {
        if !inc && cs == 6 {
            ((false, 7, 0), flush_close)
        } else {
            ((inc, 0, 0), flush_close + flush_open + seq![c])
        }
    } else if c == ']' {
        if inc && ce == 0 {
            ((true, 0, 1), flush_open)
        } else if inc && ce == 1 {
            ((true, 0, 2), flush_open)
        } else {
            let repair = if ce == 1 {
                seq![']']
            } else {
                Seq::<char>::empty()
            };
            ((inc, 0, if ce == 1 {
                0int
            } else {
                ce
            }), flush_open + repair + seq![c])
        }
    } else if c == '>' {
        if inc && ce == 2 {
            ((false, 0, 0), flush_open)
        } else {
            ((inc, 0, 0), flush_open + flush_close + seq![c])
        }
    } else {
        ((inc, 0, 0), flush_open + flush_close + seq![c])
    }
}

/// Characters still held by a partial marker match when the input ends.
pub open spec fn cd_finish(st: (bool, int, int)) -> Seq<char> {
    let (inc, cs, ce) = st;
    (if cs > 0 {
        cdata_open().take(cs)
    } else {
        Seq::<char>::empty()
    }) + (if ce > 0 {
        cdata_close().take(ce)
    } else {
        Seq::<char>::empty()
    })
}

/// The output of the CDATA scanner on `s` from position `i` in state `st`.
pub open spec fn cd_machine(s: Seq<char>, i: int, st: (bool, int, int)) -> Seq<char>
    recommends
        0 <= i <= s.len(),
    decreases s.len() - i,
{
    if i < 0 || i >= s.len() {
        cd_finish(st)
    } else {
        cd_step(st, s[i]).1 + cd_machine(s, i + 1, cd_step(st, s[i]).0)
    }
}

/// The CDATA unwrap of `s`: matched marker characters are dropped, all other
/// characters pass through unchanged.  Text without an opening marker is
/// returned as it is.
pub open spec fn unwrap_cdata_seq(s: Seq<char>) -> Seq<char> {
    if contains_seq(s, cdata_open()) {
        cd_machine(s, 0, (false, 0, 0))
    } else {
        s
    }
}

/// Law: unwrapping text that holds no opening CDATA marker returns it
/// unchanged.
pub proof fn lemma_unwrap_cdata_no_marker(s: Seq<char>)
    requires
        !contains_seq(s, cdata_open()),
    ensures
        unwrap_cdata_seq(s) == s,
{
}

/// Law: once one unwrap has removed every opening CDATA marker, a second
/// unwrap is a no-op, so unwrapping twice equals unwrapping once.
pub proof fn lemma_unwrap_cdata_idempotent(s: Seq<char>)
    requires
        !contains_seq(unwrap_cdata_seq(s), cdata_open()),
    ensures
        unwrap_cdata_seq(unwrap_cdata_seq(s)) == unwrap_cdata_seq(s),
{
}

/// Relies on `str::chars` (collected): the characters of the string, in order.
#[verifier::external_body]
pub fn text_chars(s: &str) -> (r: Vec<char>)
    ensures
        r@ == s@,
{
    s.chars().collect()
}

/// Relies on `String: FromIterator<char>` (collected): the string holding
/// exactly the given characters, in order.
#[verifier::external_body]
pub fn chars_text(v: &Vec<char>) -> (r: String)
    ensures
        r@ == v@,
{
    v.iter().collect()
}

/// Appends all of `xs` to `out`.
pub fn push_all(out: &mut Vec<char>, xs: &Vec<char>)
    ensures
        final(out)@ == old(out)@ + xs@,
{
    let mut j: usize = 0;
    while j < xs.len()
        invariant
            j <= xs.len(),
            out@ == old(out)@ + xs@.take(j as int),
        decreases xs.len() - j,
    {
        out.push(xs[j]);
        j += 1;
        proof {
            assert(xs@.take(j as int) =~= xs@.take(j - 1) + seq![xs@[j - 1]]);
        }
    }
    proof {
        assert(xs@.take(xs@.len() as int) =~= xs@);
    }
}

/// Appends the first `k` characters of `xs` to `out`.
pub fn push_prefix(out: &mut Vec<char>, xs: &Vec<char>, k: usize)
    requires
        k <= xs@.len(),
    ensures
        final(out)@ == old(out)@ + xs@.take(k as int),
{
    let mut j: usize = 0;
    while j < k
        invariant
            j <= k <= xs@.len(),
            out@ == old(out)@ + xs@.take(j as int),
        decreases k - j,
    {
        out.push(xs[j]);
        j += 1;
        proof {
            assert(xs@.take(j as int) =~= xs@.take(j - 1) + seq![xs@[j - 1]]);
        }
    }
}

/// Whether `pat` occurs in `s` at position `i`.
pub fn occurs_at_exec(s: &Vec<char>, pat: &Vec<char>, i: usize) -> (b: bool)
    requires
        i + pat@.len() <= s@.len(),
    ensures
        b == occurs_at(s@, pat@, i as int),
{
    let n = s.len();
    let mut j: usize = 0;
    while j < pat.len()
        invariant
            j <= pat@.len(),
            i + pat@.len() <= s@.len(),
            n == s@.len(),
            forall|k: int| 0 <= k < j ==> s@[i + k] == pat@[k],
        decreases pat.len() - j,
    {
        if s[i + j] != pat[j] {
            proof {
                assert(s@.subrange(i as int, i + pat@.len())[j as int] != pat@[j as int]);
            }
            return false;
        }
        j += 1;
    }
    proof {
        assert(s@.subrange(i as int, i + pat@.len()) =~= pat@);
    }
    true
}

/// Whether `pat` occurs anywhere in `s`.
pub fn contains_exec(s: &Vec<char>, pat: &Vec<char>) -> (b: bool)
    ensures
        b == contains_seq(s@, pat@),
{
    if pat.len() == 0 {
        proof {
            assert(s@.subrange(0, 0) =~= pat@);
            assert(occurs_at(s@, pat@, 0));
        }
        return true;
    }
    if pat.len() > s.len() {
        proof {
            assert(forall|i: int| !occurs_at(s@, pat@, i));
        }
        return false;
    }
    let bound = s.len() - pat.len();
    let mut i: usize = 0;
    while i <= bound
        invariant
            1 <= pat@.len() <= s@.len(),
            s@.len() <= usize::MAX,
            bound == s@.len() - pat@.len(),
            i <= bound + 1,
            forall|k: int| 0 <= k < i ==> !occurs_at(s@, pat@, k),
        decreases bound + 1 - i,
    {
        if occurs_at_exec(s, pat, i) {
            return true;
        }
        i += 1;
    }
    proof {
        assert(forall|k: int| occurs_at(s@, pat@, k) ==> k + pat@.len() <= s@.len() && k < i);
    }
    false
}

/// Left-to-right, non-overlapping replacement of `pat` by `rep` in `s`.
pub fn replace_chars(s: &Vec<char>, pat: &Vec<char>, rep: &Vec<char>) -> (r: Vec<char>)
    ensures
        r@ == replace_seq(s@, pat@, rep@),
{
    let mut out: Vec<char> = Vec::new();
    if pat.len() == 0 {
        push_all(&mut out, s);
        proof {
            assert(out@ =~= s@);
        }
        return out;
    }
    proof {
        assert(s@.skip(0) =~= s@);
        assert(out@ + replace_seq(s@, pat@, rep@) =~= replace_seq(s@, pat@, rep@));
    }
    let n = s.len();
    let mut i: usize = 0;
    while i < s.len()
        invariant
            pat@.len() >= 1,
            i <= s@.len(),
            n == s@.len(),
            replace_seq(s@, pat@, rep@) == out@ + replace_seq(s@.skip(i as int), pat@, rep@),
        decreases s.len() - i,
    {
        if pat.len() <= s.len() - i && occurs_at_exec(s, pat, i) {
            push_all(&mut out, rep);
            proof {
                let tail = s@.skip(i as int);
                assert(tail.subrange(0, pat@.len() as int) =~= s@.subrange(
                    i as int,
                    i + pat@.len(),
                ));
                assert(tail.skip(pat@.len() as int) =~= s@.skip(i + pat@.len()));
            }
            i += pat.len();
        } else {
            out.push(s[i]);
            proof {
                let tail = s@.skip(i as int);
                if tail.len() >= pat@.len() {
                    assert(tail.subrange(0, pat@.len() as int) =~= s@.subrange(
                        i as int,
                        i + pat@.len(),
                    ));
                }
                assert(tail[0] == s@[i as int]);
                assert(tail.skip(1) =~= s@.skip(i + 1));
                assert(tail =~= seq![tail[0]] + tail.skip(1));
            }
            i += 1;
        }
    }
    proof {
        assert(s@.skip(s@.len() as int) =~= Seq::<char>::empty());
        assert(replace_seq(Seq::<char>::empty(), pat@, rep@) == Seq::<char>::empty());
        assert(out@ + Seq::<char>::empty() =~= out@);
    }
    out
}

/// Runs one CDATA scanner step, appending the emitted characters to `out`.
#[verifier::rlimit(80)]
fn cd_step_exec(
    inc: bool,
    cs: usize,
    ce: usize,
    c: char,
    out: &mut Vec<char>,
    openv: &Vec<char>,
    closev: &Vec<char>,
) -> (r: (bool, usize, usize))
    requires
        openv@ == cdata_open(),
        closev@ == cdata_close(),
        openv@.len() == 9,
        closev@.len() == 3,
        cs <= 8,
        ce <= 2,
    ensures
        ({
            let (st2, em) = cd_step((inc, cs as int, ce as int), c);
            &&& (r.0, r.1 as int, r.2 as int) == st2
            &&& final(out)@ == old(out)@ + em
            &&& r.1 <= 8
            &&& r.2 <= 2
        }),
{
    proof {
        assert(old(out)@ + Seq::<char>::empty() =~= old(out)@);
    }
    match c {
        '<' => {
            if ce > 0 {
                push_prefix(out, closev, ce);
            }
            if !inc && cs == 0 {
                (false, 1, 0)
            } else {
                if cs > 0 {
                    push_prefix(out, openv, cs);
                }
                out.push(c);
                (inc, 0, 0)
            }
        },
        '!' => {
            if ce > 0 {
                push_prefix(out, closev, ce);
            }
            if !inc && cs == 1 {
                (false, 2, 0)
            } else {
                if cs > 0 {
                    push_prefix(out, openv, cs);
                }
                out.push(c);
                (inc, 0, 0)
            }
        },
        '[' => {
            if ce > 0 {
                push_prefix(out, closev, ce);
            }
            if !inc && cs == 2 {
                (false, 3, 0)
            } else if !inc && cs == 8 {
                (true, 0, 0)
            } else {
                if cs > 0 {
                    push_prefix(out, openv, cs);
                }
                out.push(c);
                (inc, 0, 0)
            }
        },
        'C' => {
            if ce > 0 {
                push_prefix(out, closev, ce);
            }
            if !inc && cs == 3 {
                (false, 4, 0)
            } else {
                if cs > 0 {
                    push_prefix(out, openv, cs);
                }
                out.push(c);
                (inc, 0, 0)
            }
        },
        'D' => {
            if ce > 0 {
                push_prefix(out, closev, ce);
            }
            if !inc && cs == 4 {
                (false, 5, 0)
            } else {
                if cs > 0 {
                    push_prefix(out, openv, cs);
                }
                out.push(c);
                (inc, 0, 0)
            }
        },
        'A' => {
            if ce > 0 {
                push_prefix(out, closev, ce);
            }
            if !inc && cs == 5 {
                (false, 6, 0)
            } else if !inc && cs == 7 {
                (false, 8, 0)
            } else {
                if cs > 0 {
                    push_prefix(out, openv, cs);
                }
                out.push(c);
                (inc, 0, 0)
            }
        },
        'T' => {
            if ce > 0 {
                push_prefix(out, closev, ce);
            }
            if !inc && cs == 6 {
                (false, 7, 0)
            } else {
                if cs > 0 {
                    push_prefix(out, openv, cs);
                }
                out.push(c);
                (inc, 0, 0)
            }
        },
        ']' => {
            if cs > 0 {
                push_prefix(out, openv, cs);
            }
            if inc && ce == 0 {
                (true, 0, 1)
            } else if inc && ce == 1 {
                (true, 0, 2)
            } else {
                let ce2: usize = if ce == 1 {
                    out.push(']');
                    0
                } else {
                    ce
                };
                out.push(c);
                (inc, 0, ce2)
            }
        },
        '>' => {
            if cs > 0 {
                push_prefix(out, openv, cs);
            }
            if inc && ce == 2 {
                (false, 0, 0)
            } else {
                if ce > 0 {
                    push_prefix(out, closev, ce);
                }
                out.push(c);
                (inc, 0, 0)
            }
        },
        _ => {
            if cs > 0 {
                push_prefix(out, openv, cs);
            }
            if ce > 0 {
                push_prefix(out, closev, ce);
            }
            out.push(c);
            (inc, 0, 0)
        },
    }
}

/// The CDATA unwrap of `v`, as [`unwrap_cdata_seq`] states it.
pub fn unwrap_cdata_chars(v: &Vec<char>) -> (r: Vec<char>)
    ensures
        r@ == unwrap_cdata_seq(v@),
{
    proof {
        reveal_strlit("<![CDATA[");
        reveal_strlit("]]>");
    }
    let openv = text_chars("<![CDATA[");
    let closev = text_chars("]]>");
    if !contains_exec(v, &openv) {
        let mut copy: Vec<char> = Vec::new();
        push_all(&mut copy, v);
        proof {
            assert(copy@ =~= v@);
        }
        return copy;
    }
    let mut out: Vec<char> = Vec::new();
    let mut inc: bool = false;
    let mut cs: usize = 0;
    let mut ce: usize = 0;
    let n = v.len();
    let mut i: usize = 0;
    while i < n
        invariant
            n == v@.len(),
            i <= n,
            cs <= 8,
            ce <= 2,
            openv@ == cdata_open(),
            closev@ == cdata_close(),
            openv@.len() == 9,
            closev@.len() == 3,
            cd_machine(v@, 0, (false, 0, 0)) == out@ + cd_machine(
                v@,
                i as int,
                (inc, cs as int, ce as int),
            ),
        decreases n - i,
    {
        let st = cd_step_exec(inc, cs, ce, v[i], &mut out, &openv, &closev);
        inc = st.0;
        cs = st.1;
        ce = st.2;
        i += 1;
    }
    if cs > 0 {
        push_prefix(&mut out, &openv, cs);
    }
    if ce > 0 {
        push_prefix(&mut out, &closev, ce);
    }
    proof {
        assert(out@ + Seq::<char>::empty() =~= out@);
    }
    out
}

} // verus!
