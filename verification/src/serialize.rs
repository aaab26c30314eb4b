//! The serializer: walks an element tree and emits text that the parser
//! reads back into a structurally equal tree.
//!
//! Every tag, attribute and line token runs through the term encoding rule:
//! backticks become single quotes, and content that starts with a quote or
//! holds a space is wrapped in the quote character that does not occur in
//! it. Each nesting level indents its lines by two further spaces.

use crate::parser::deep_children;
use crate::parser::deep_tokens;
use crate::parser::Child;
use crate::parser::ChildModel;
use crate::parser::Element;
use crate::parser::ElementModel;
use crate::parser::B_BT;
use crate::parser::B_DQ;
use crate::parser::B_GT;
use crate::parser::B_LF;
use crate::parser::B_LT;
use crate::parser::B_SPACE;
use crate::parser::B_SQ;
use vstd::prelude::*;

verus! {

/// Backticks are never valid in emitted content: each becomes a single quote.
pub open spec fn bt_replace(t: Seq<u8>) -> Seq<u8> {
    Seq::new(t.len(), |i: int| if t[i] == B_BT { B_SQ } else { t[i] })
}

/// Whether already-replaced content must be quoted: it starts with a single
/// or double quote, or holds a space.
pub open spec fn needs_quote(u: Seq<u8>) -> bool {
    u.len() > 0 && (u[0] == B_SQ || u[0] == B_DQ || u.contains(B_SPACE))
}

/// The quote character for already-replaced content: backtick where both
/// kinds of quote occur, a single quote where only double quotes occur,
/// a double quote otherwise.
pub open spec fn quote_choice(u: Seq<u8>) -> u8 {
    if u.contains(B_DQ) && u.contains(B_SQ) {
        B_BT
    } else if u.contains(B_DQ) {
        B_SQ
    } else {
        B_DQ
    }
}

/// The encoding of one term.
pub open spec fn enc_term(t: Seq<u8>) -> Seq<u8> {
    if t.len() == 0 {
        seq![B_DQ, B_DQ]
    } else {
        let u = bt_replace(t);
        if !needs_quote(u) {
            u
        } else {
            seq![quote_choice(u)] + u + seq![quote_choice(u)]
        }
    }
}

/// Two spaces for each nesting level.
pub open spec fn indent_seq(level: nat) -> Seq<u8> {
    Seq::new(2 * level, |i: int| B_SPACE)
}

/// A data line: its tokens encoded and joined by single spaces.
pub open spec fn ser_line(ts: Seq<Seq<u8>>) -> Seq<u8>
    decreases ts.len(),
{
    if ts.len() == 0 {
        Seq::empty()
    } else if ts.len() == 1 {
        enc_term(ts[0])
    } else {
        enc_term(ts[0]) + seq![B_SPACE] + ser_line(ts.skip(1))
    }
}

/// An attribute list: each attribute encoded and preceded by one space.
pub open spec fn ser_attrs(ts: Seq<Seq<u8>>) -> Seq<u8>
    decreases ts.len(),
{
    if ts.len() == 0 {
        Seq::empty()
    } else {
        seq![B_SPACE] + enc_term(ts[0]) + ser_attrs(ts.skip(1))
    }
}

/// One element, its indentation included.
pub open spec fn ser_element(e: ElementModel, level: nat) -> Seq<u8>
    decreases e, 1nat,
{
    indent_seq(level) + ser_core(e, level)
}

/// One element after its indentation: the header line, the child lines,
/// and the closing `>` line.
pub open spec fn ser_core(e: ElementModel, level: nat) -> Seq<u8>
    decreases e, 0nat,
{
    seq![B_LT] + e.tag + ser_attrs(e.attr) + seq![B_LF] + ser_children_text(e.children, level)
        + indent_seq(level) + seq![B_GT]
}

/// The lines of a child list, each one level deeper than its parent.
pub open spec fn ser_children_text(cs: Seq<ChildModel>, level: nat) -> Seq<u8>
    decreases cs, 0nat,
{
    if cs.len() == 0 {
        Seq::empty()
    } else {
        ser_child(cs[0], level) + ser_children_text(cs.skip(1), level)
    }
}

/// One child line (or nested element block), ending in a line feed.
pub open spec fn ser_child(c: ChildModel, level: nat) -> Seq<u8>
    decreases c, 0nat,
{
    match c {
        ChildModel::Line(ts) => indent_seq(level + 1) + ser_line(ts) + seq![B_LF],
        ChildModel::Element(ce) => ser_element(ce, level + 1) + seq![B_LF],
    }
}

/// Serializing a concatenation of attribute lists concatenates the texts.
pub proof fn lemma_ser_attrs_append(a: Seq<Seq<u8>>, b: Seq<Seq<u8>>)
    ensures
        ser_attrs(a + b) == ser_attrs(a) + ser_attrs(b),
    decreases a.len(),
{
    if a.len() == 0 {
        assert(a + b =~= b);
        assert(ser_attrs(a) + ser_attrs(b) =~= ser_attrs(b));
    } else {
        assert((a + b).skip(1) =~= a.skip(1) + b);
        lemma_ser_attrs_append(a.skip(1), b);
        assert((seq![B_SPACE] + enc_term(a[0]) + (ser_attrs(a.skip(1)) + ser_attrs(b))) =~= (
        seq![B_SPACE] + enc_term(a[0]) + ser_attrs(a.skip(1))) + ser_attrs(b));
    }
}

/// One more attribute extends the serialized attribute list at its end.
pub proof fn lemma_ser_attrs_snoc(ts: Seq<Seq<u8>>, i: int)
    requires
        0 <= i < ts.len(),
    ensures
        ser_attrs(ts.take(i + 1)) == ser_attrs(ts.take(i)) + (seq![B_SPACE] + enc_term(ts[i])),
{
    reveal_with_fuel(ser_attrs, 2);
    assert(ts.take(i + 1) =~= ts.take(i) + seq![ts[i]]);
    lemma_ser_attrs_append(ts.take(i), seq![ts[i]]);
    assert(seq![ts[i]].skip(1) =~= Seq::<Seq<u8>>::empty());
    assert(ser_attrs(seq![ts[i]]) =~= seq![B_SPACE] + enc_term(ts[i]));
}

/// One more token extends the serialized line at its end, with a joining
/// space everywhere but at the front.
pub proof fn lemma_ser_line_snoc(ts: Seq<Seq<u8>>, i: int)
    requires
        0 <= i < ts.len(),
    ensures
        i == 0 ==> ser_line(ts.take(1)) == enc_term(ts[0]),
        i > 0 ==> ser_line(ts.take(i + 1)) == ser_line(ts.take(i)) + (seq![B_SPACE] + enc_term(
            ts[i],
        )),
    decreases i,
{
    if i == 0 {
        assert(ts.take(1).len() == 1);
        assert(ts.take(1)[0] == ts[0]);
    } else {
        lemma_ser_line_snoc(ts.skip(1), i - 1);
        assert(ts.take(i + 1).skip(1) =~= ts.skip(1).take(i));
        assert(ts.take(i).skip(1) =~= ts.skip(1).take(i - 1));
        assert(ts.take(i + 1).len() == i + 1);
        assert(ts.take(i)[0] == ts[0]);
        assert(ts.take(i + 1)[0] == ts[0]);
        assert(ts.skip(1)[i - 1] == ts[i]);
        if i == 1 {
            assert(ser_line(ts.take(2)) == enc_term(ts[0]) + seq![B_SPACE] + ser_line(
                ts.skip(1).take(1),
            ));
            assert(ser_line(ts.take(1)) == enc_term(ts[0]));
            assert((enc_term(ts[0]) + seq![B_SPACE] + enc_term(ts[1])) =~= enc_term(ts[0]) + (seq![
                B_SPACE,
            ] + enc_term(ts[1])));
        } else {
            assert((enc_term(ts[0]) + seq![B_SPACE] + (ser_line(ts.skip(1).take(i - 1)) + (seq![
                B_SPACE,
            ] + enc_term(ts[i])))) =~= (enc_term(ts[0]) + seq![B_SPACE] + ser_line(
                ts.skip(1).take(i - 1),
            )) + (seq![B_SPACE] + enc_term(ts[i])));
        }
    }
}

/// Serializing a concatenation of child lists concatenates the texts.
pub proof fn lemma_ser_children_append(a: Seq<ChildModel>, b: Seq<ChildModel>, level: nat)
    ensures
        ser_children_text(a + b, level) == ser_children_text(a, level) + ser_children_text(
            b,
            level,
        ),
    decreases a.len(),
{
    if a.len() == 0 {
        assert(a + b =~= b);
        assert(ser_children_text(a, level) + ser_children_text(b, level) =~= ser_children_text(
            b,
            level,
        ));
    } else {
        assert((a + b).skip(1) =~= a.skip(1) + b);
        assert((a + b)[0] == a[0]);
        lemma_ser_children_append(a.skip(1), b, level);
        assert((ser_child(a[0], level) + (ser_children_text(a.skip(1), level)
            + ser_children_text(b, level))) =~= (ser_child(a[0], level) + ser_children_text(
            a.skip(1),
            level,
        )) + ser_children_text(b, level));
    }
}

/// One more child extends the serialized child list at its end.
pub proof fn lemma_ser_children_snoc(cs: Seq<ChildModel>, i: int, level: nat)
    requires
        0 <= i < cs.len(),
    ensures
        ser_children_text(cs.take(i + 1), level) == ser_children_text(cs.take(i), level)
            + ser_child(cs[i], level),
{
    reveal_with_fuel(ser_children_text, 2);
    assert(cs.take(i + 1) =~= cs.take(i) + seq![cs[i]]);
    lemma_ser_children_append(cs.take(i), seq![cs[i]], level);
    assert(seq![cs[i]].skip(1) =~= Seq::<ChildModel>::empty());
    assert(ser_children_text(seq![cs[i]], level) =~= ser_child(cs[i], level));
}

/// Pushes `2 * level` spaces.
fn push_indent(buf: &mut Vec<u8>, level: usize)
    ensures
        final(buf)@ == old(buf)@ + indent_seq(level as nat),
{
    let mut j: usize = 0;
    while j < level
        invariant
            j <= level,
            buf@ == old(buf)@ + indent_seq(j as nat),
        decreases level - j,
    {
        buf.push(B_SPACE);
        buf.push(B_SPACE);
        proof {
            assert(buf@ =~= old(buf)@ + indent_seq((j + 1) as nat));
        }
        j = j + 1;
    }
}

/// Appends a copy of `src` to `buf`.
fn append_copy(buf: &mut Vec<u8>, src: &Vec<u8>)
    ensures
        final(buf)@ == old(buf)@ + src@,
{
    let mut i: usize = 0;
    while i < src.len()
        invariant
            i <= src@.len(),
            buf@ == old(buf)@ + src@.take(i as int),
        decreases src@.len() - i,
    {
        buf.push(src[i]);
        proof {
            assert(buf@ =~= old(buf)@ + src@.take(i + 1 as int));
        }
        i = i + 1;
    }
    proof {
        assert(src@.take(src@.len() as int) =~= src@);
    }
}

/// Encodes one term by the quoting rule.
pub fn serialise_term(text: &Vec<u8>) -> (r: Vec<u8>)
    ensures
        r@ == enc_term(text@),
{
    if text.len() == 0 {
        let mut out: Vec<u8> = Vec::new();
        out.push(B_DQ);
        out.push(B_DQ);
        proof {
            assert(out@ =~= seq![B_DQ, B_DQ]);
        }
        return out;
    }
    let ghost u = bt_replace(text@);
    let mut rep: Vec<u8> = Vec::new();
    let mut has_space = false;
    let mut has_sq = false;
    let mut has_dq = false;
    let mut i: usize = 0;
    while i < text.len()
        invariant
            i <= text@.len(),
            u == bt_replace(text@),
            rep@ == u.take(i as int),
            has_space == (exists|j: int| 0 <= j < i && u[j] == B_SPACE),
            has_sq == (exists|j: int| 0 <= j < i && u[j] == B_SQ),
            has_dq == (exists|j: int| 0 <= j < i && u[j] == B_DQ),
        decreases text@.len() - i,
    {
        let c = text[i];
        let c2 = if c == B_BT {
            B_SQ
        } else {
            c
        };
        rep.push(c2);
        if c2 == B_SPACE {
            has_space = true;
        } else if c2 == B_SQ {
            has_sq = true;
        } else if c2 == B_DQ {
            has_dq = true;
        }
        proof {
            assert(u[i as int] == c2);
            assert(rep@ =~= u.take(i + 1 as int));
        }
        i = i + 1;
    }
    proof {
        assert(rep@ =~= u);
        assert(has_space == u.contains(B_SPACE));
        assert(has_sq == u.contains(B_SQ));
        assert(has_dq == u.contains(B_DQ));
    }
    let first = rep[0];
    if !(first == B_SQ || first == B_DQ || has_space) {
        return rep;
    }
    let qc = if has_dq && has_sq {
        B_BT
    } else if has_dq {
        B_SQ
    } else {
        B_DQ
    };
    let mut out: Vec<u8> = Vec::new();
    out.push(qc);
    let mut mid = rep;
    out.append(&mut mid);
    out.push(qc);
    proof {
        assert(out@ =~= seq![quote_choice(u)] + u + seq![quote_choice(u)]);
    }
    out
}

/// Appends the serialized attribute list.
fn write_attrs(buf: &mut Vec<u8>, attrs: &Vec<Vec<u8>>)
    ensures
        final(buf)@ == old(buf)@ + ser_attrs(deep_tokens(attrs@)),
{
    let ghost base = buf@;
    let ghost attrsd = deep_tokens(attrs@);
    let mut ai: usize = 0;
    while ai < attrs.len()
        invariant
            ai <= attrs@.len(),
            attrsd == deep_tokens(attrs@),
            base == old(buf)@,
            buf@ == base + ser_attrs(attrsd.take(ai as int)),
        decreases attrs@.len() - ai,
    {
        let x = serialise_term(&attrs[ai]);
        buf.push(B_SPACE);
        append_copy(buf, &x);
        proof {
            lemma_ser_attrs_snoc(attrsd, ai as int);
            assert(attrsd[ai as int] == attrs@[ai as int]@);
            assert(buf@ =~= base + ser_attrs(attrsd.take(ai + 1 as int)));
        }
        ai = ai + 1;
    }
    proof {
        assert(attrsd.take(attrs@.len() as int) =~= attrsd);
    }
}

/// Appends the serialized data line: its tokens encoded and space-joined.
fn write_line(buf: &mut Vec<u8>, toks: &Vec<Vec<u8>>)
    ensures
        final(buf)@ == old(buf)@ + ser_line(deep_tokens(toks@)),
{
    let ghost base = buf@;
    let ghost toksd = deep_tokens(toks@);
    let mut ti: usize = 0;
    while ti < toks.len()
        invariant
            ti <= toks@.len(),
            toksd == deep_tokens(toks@),
            base == old(buf)@,
            buf@ == base + ser_line(toksd.take(ti as int)),
        decreases toks@.len() - ti,
    {
        let x = serialise_term(&toks[ti]);
        if ti > 0 {
            buf.push(B_SPACE);
        }
        append_copy(buf, &x);
        proof {
            lemma_ser_line_snoc(toksd, ti as int);
            assert(toksd[ti as int] == toks@[ti as int]@);
            if ti == 0 {
                assert(ser_line(toksd.take(0)) =~= Seq::<u8>::empty());
                assert(base + Seq::<u8>::empty() =~= base);
                assert(buf@ =~= base + ser_line(toksd.take(1)));
            } else {
                assert(buf@ =~= base + ser_line(toksd.take(ti + 1 as int)));
            }
        }
        ti = ti + 1;
    }
    proof {
        assert(toksd.take(toks@.len() as int) =~= toksd);
    }
}

/// Serializes one element into `buf` at the given indent level. The buffer
/// must already hold at least the enclosing indentation's worth of bytes.
#[verifier::loop_isolation(false)]
#[verifier::rlimit(100)]
pub fn process(buf: &mut Vec<u8>, element: &Element, indent_level: usize)
    requires
        2 * (indent_level as int) <= old(buf)@.len(),
    ensures
        final(buf)@ == old(buf)@ + ser_element(element.deep(), indent_level as nat),
    decreases *element,
{
    let ghost base = buf@;
    let ghost lvl = indent_level as nat;
    let ghost em = element.deep();
    push_indent(buf, indent_level);
    buf.push(B_LT);
    append_copy(buf, &element.tag);
    write_attrs(buf, &element.attr);
    buf.push(B_LF);
    let ghost mid = base + indent_seq(lvl) + seq![B_LT] + element.tag@ + ser_attrs(
        deep_tokens(element.attr@),
    ) + seq![B_LF];
    proof {
        assert(buf@ =~= mid);
    }
    let ghost kidsd = deep_children(element.children@);
    let mut ci: usize = 0;
    while ci < element.children.len()
        invariant
            ci <= element.children@.len(),
            buf@ == mid + ser_children_text(kidsd.take(ci as int), lvl),
        decreases element.children@.len() - ci,
    {
        let here = buf.len();
        proof {
            assert(here == buf@.len());
            assert(indent_seq(lvl).len() == 2 * lvl);
            assert(base.len() + 2 * (lvl as int) + 2 <= here as int);
            assert(2 * ((indent_level as int) + 1) <= here as int);
        }
        let next_level = indent_level + 1;
        match &element.children[ci] {
            Child::Line(toks) => {
                push_indent(buf, next_level);
                write_line(buf, toks);
                buf.push(B_LF);
                proof {
                    assert(kidsd[ci as int] == ChildModel::Line(deep_tokens(toks@)));
                    lemma_ser_children_snoc(kidsd, ci as int, lvl);
                    assert(buf@ =~= mid + ser_children_text(kidsd.take(ci + 1 as int), lvl));
                }
            },
            Child::Element(ce) => {
                proof {
                    assert(decreases_to!(*element => element.children));
                    assert(decreases_to!(element.children => element.children@[ci as int]));
                }
                process(buf, ce, next_level);
                buf.push(B_LF);
                proof {
                    assert(kidsd[ci as int] == ChildModel::Element(ce.deep()));
                    lemma_ser_children_snoc(kidsd, ci as int, lvl);
                    assert(buf@ =~= mid + ser_children_text(kidsd.take(ci + 1 as int), lvl));
                }
            },
        }
        ci = ci + 1;
    }
    proof {
        assert(kidsd.take(element.children@.len() as int) =~= kidsd);
    }
    push_indent(buf, indent_level);
    buf.push(B_GT);
    proof {
        assert(buf@ =~= base + ser_element(em, lvl));
    }
}

/// Serializes a whole element tree to text.
pub fn serialize_to_string(element: &Element) -> (r: Vec<u8>)
    ensures
        r@ == ser_element(element.deep(), 0),
{
    let mut buf: Vec<u8> = Vec::new();
    process(&mut buf, element, 0);
    proof {
        assert(Seq::<u8>::empty() + ser_element(element.deep(), 0) =~= ser_element(
            element.deep(),
            0,
        ));
    }
    buf
}

} // verus!
