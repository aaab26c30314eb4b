//! The laws the library states of itself: serializing any valid tree and
//! parsing the result yields the same tree back, so re-serialization is
//! stable.
//!
//! A tree is *valid* when its tokens survive the term encoding unchanged in
//! meaning: no token holds a line break or a backtick (backticks are
//! rewritten to single quotes on output), and the first token of a data
//! line must not read as an element marker once emitted.

use crate::parser::is_quote_byte;
use crate::parser::is_term_end;
use crate::parser::lemma_blank_run_is;
use crate::parser::lemma_quoted_run_is;
use crate::parser::lemma_space_run_is;
use crate::parser::lemma_term_run_is;
use crate::parser::spec_children;
use crate::parser::spec_element;
use crate::parser::spec_header;
use crate::parser::spec_line_end;
use crate::parser::spec_parse_document;
use crate::parser::spec_more_terms;
use crate::parser::spec_term;
use crate::parser::spec_term_list;
use crate::parser::spec_unquoted;
use crate::parser::ChildModel;
use crate::parser::ElementModel;
use crate::parser::ParseError;
use crate::parser::B_BT;
use crate::parser::B_CR;
use crate::parser::B_DQ;
use crate::parser::B_GT;
use crate::parser::B_LF;
use crate::parser::B_LT;
use crate::parser::B_SPACE;
use crate::parser::B_SQ;
use crate::serialize::bt_replace;
use crate::serialize::enc_term;
use crate::serialize::indent_seq;
use crate::serialize::needs_quote;
use crate::serialize::quote_choice;
use crate::serialize::ser_attrs;
use crate::serialize::ser_child;
use crate::serialize::ser_children_text;
use crate::serialize::ser_core;
use crate::serialize::ser_element;
use crate::serialize::ser_line;
use vstd::prelude::*;

verus! {

/// A token that the encoding carries through unchanged: no line break and
/// no backtick.
pub open spec fn token_ok(t: Seq<u8>) -> bool {
    forall|i: int| 0 <= i < t.len() ==> (t[i] != B_LF && t[i] != B_CR && t[i] != B_BT)
}

/// The first token of a data line must not be emitted unquoted with `<` or
/// `>` at its front: such a line would read as a nested element or as the
/// closing marker.
pub open spec fn line_start_ok(t: Seq<u8>) -> bool {
    !(t.len() > 0 && (t[0] == B_LT || t[0] == B_GT) && !t.contains(B_SPACE))
}

/// A tag is emitted verbatim: non-empty, no space and no line break in it,
/// and no quote character at its front.
pub open spec fn tag_ok(t: Seq<u8>) -> bool {
    t.len() > 0 && !is_quote_byte(t[0]) && (forall|i: int| 0 <= i < t.len() ==> !is_term_end(t[i]))
}

/// A data line: at least one token, every token carried through unchanged,
/// and a first token that cannot be mistaken for structure.
pub open spec fn line_ok(ts: Seq<Seq<u8>>) -> bool {
    ts.len() > 0 && (forall|i: int| 0 <= i < ts.len() ==> token_ok(ts[i])) && line_start_ok(ts[0])
}

/// A tree whose serialization parses back to the same tree.
pub open spec fn valid_element(e: ElementModel) -> bool
    decreases e, 0nat,
{
    tag_ok(e.tag) && (forall|i: int| 0 <= i < e.attr.len() ==> token_ok(#[trigger] e.attr[i])) && (
    forall|i: int| 0 <= i < e.children.len() ==> valid_child(#[trigger] e.children[i]))
}

/// A child whose serialized line (or block) parses back to itself.
pub open spec fn valid_child(c: ChildModel) -> bool
    decreases c, 1nat,
{
    match c {
        ChildModel::Line(ts) => line_ok(ts),
        ChildModel::Element(ce) => valid_element(ce),
    }
}

/// Replacing backticks changes nothing in a token that has none.
proof fn lemma_bt_replace_id(t: Seq<u8>)
    requires
        token_ok(t),
    ensures
        bt_replace(t) == t,
{
    assert(bt_replace(t) =~= t);
}

/// The shape of an encoded token: never empty, never opening with a term
/// delimiter, and (for a fit line start) never opening with `<` or `>`.
proof fn lemma_enc_shape(t: Seq<u8>)
    requires
        token_ok(t),
    ensures
        enc_term(t).len() > 0,
        !is_term_end(enc_term(t)[0]),
        line_start_ok(t) ==> (enc_term(t)[0] != B_LT && enc_term(t)[0] != B_GT),
{
    if t.len() == 0 {
    } else {
        lemma_bt_replace_id(t);
        if !needs_quote(t) {
            assert(!t.contains(B_SPACE));
            assert(t[0] != B_SPACE) by {
                assert(t.contains(B_SPACE) <==> (exists|i: int|
                    0 <= i < t.len() && t[i] == B_SPACE));
            }
        }
    }
}

/// Parsing one term off the front of an encoded token followed by a
/// delimiter (or nothing) gives the token back.
proof fn lemma_term_round(t: Seq<u8>, rest: Seq<u8>)
    requires
        token_ok(t),
        rest.len() == 0 || is_term_end(rest[0]),
    ensures
        spec_term(enc_term(t) + rest) == Ok::<(Seq<u8>, int), ParseError>((
            t,
            enc_term(t).len() as int,
        )),
{
    let s = enc_term(t) + rest;
    if t.len() == 0 {
        assert(s[0] == B_DQ);
        assert(s.skip(1)[0] == B_DQ);
        lemma_quoted_run_is(s.skip(1), B_DQ, 0);
        assert(s[1] == B_DQ);
        assert(s.subrange(1, 1) =~= t);
    } else {
        lemma_bt_replace_id(t);
        if !needs_quote(t) {
            assert(s[0] == t[0]);
            assert(!t.contains(B_SPACE));
            assert(forall|i: int| 0 <= i < t.len() ==> t[i] != B_SPACE) by {
                assert(forall|i: int|
                    0 <= i < t.len() && t[i] == B_SPACE ==> t.contains(B_SPACE));
            }
            assert(!is_quote_byte(s[0])) by {
                assert(t[0] != B_SQ && t[0] != B_DQ);
                assert(t[0] != B_BT);
            }
            assert(forall|i: int| 0 <= i < t.len() ==> s[i] == t[i]);
            lemma_term_run_is(s, t.len() as int);
            assert(s.subrange(0, t.len() as int) =~= t);
        } else {
            let q = quote_choice(t);
            assert(is_quote_byte(q));
            assert(forall|i: int| 0 <= i < t.len() ==> t[i] != q) by {
                if t.contains(B_DQ) && t.contains(B_SQ) {
                } else if t.contains(B_DQ) {
                    assert(forall|i: int|
                        0 <= i < t.len() && t[i] == B_SQ ==> t.contains(B_SQ));
                } else {
                    assert(forall|i: int|
                        0 <= i < t.len() && t[i] == B_DQ ==> t.contains(B_DQ));
                }
            }
            assert(enc_term(t) == seq![q] + t + seq![q]);
            assert(s[0] == q);
            assert(forall|i: int| 0 <= i < t.len() ==> s.skip(1)[i] == t[i]);
            assert(s.skip(1)[t.len() as int] == q);
            lemma_quoted_run_is(s.skip(1), q, t.len() as int);
            assert(s[1 + t.len() as int] == q);
            assert(s.subrange(1, 1 + t.len() as int) =~= t);
        }
    }
}

/// Parsing further space-led terms off an encoded attribute list followed
/// by a line break gives the token list back.
proof fn lemma_attrs_round(ts: Seq<Seq<u8>>, rest: Seq<u8>)
    requires
        forall|i: int| 0 <= i < ts.len() ==> token_ok(#[trigger] ts[i]),
        rest.len() > 0,
        rest[0] == B_LF || rest[0] == B_CR,
    ensures
        spec_more_terms(ser_attrs(ts) + rest) == Ok::<(Seq<Seq<u8>>, int), ParseError>((
            ts,
            ser_attrs(ts).len() as int,
        )),
    decreases ts.len(),
{
    let s = ser_attrs(ts) + rest;
    if ts.len() == 0 {
        assert(s =~= rest);
        lemma_space_run_is(rest, 0);
        assert(ts =~= Seq::<Seq<u8>>::empty());
    } else {
        let t0 = ts[0];
        let tail = ser_attrs(ts.skip(1));
        lemma_enc_shape(t0);
        assert(s =~= seq![B_SPACE] + (enc_term(t0) + (tail + rest)));
        assert(s[0] == B_SPACE);
        assert(s[1] == enc_term(t0)[0]);
        lemma_space_run_is(s, 1);
        assert(!is_term_end(s[1]));
        assert(s.skip(1) =~= enc_term(t0) + (tail + rest));
        let rest2 = tail + rest;
        assert(rest2.len() > 0);
        if ts.len() == 1 {
            assert(rest2 =~= rest);
            assert(is_term_end(rest2[0]));
        } else {
            assert(tail[0] == B_SPACE);
            assert(rest2[0] == B_SPACE);
        }
        lemma_term_round(t0, rest2);
        let n = enc_term(t0).len() as int;
        assert(s.skip(1).skip(n) =~= rest2);
        assert(s.skip(1 + n) =~= rest2);
        lemma_attrs_round(ts.skip(1), rest);
        assert(spec_more_terms(s.skip(1 + n)) == Ok::<(Seq<Seq<u8>>, int), ParseError>((
            ts.skip(1),
            tail.len() as int,
        )));
        assert(seq![t0] + ts.skip(1) =~= ts);
        assert(ser_attrs(ts).len() == 1 + n + tail.len());
        assert(spec_more_terms(s) == Ok::<(Seq<Seq<u8>>, int), ParseError>((
            seq![t0] + ts.skip(1),
            1 + n + tail.len() as int,
        )));
    }
}

/// A serialized data line followed by a line break parses as exactly its
/// token list.
proof fn lemma_line_round(ts: Seq<Seq<u8>>, rest: Seq<u8>)
    requires
        ts.len() > 0,
        forall|i: int| 0 <= i < ts.len() ==> token_ok(#[trigger] ts[i]),
        rest.len() > 0,
        rest[0] == B_LF || rest[0] == B_CR,
    ensures
        spec_term_list(ser_line(ts) + rest) == Ok::<(Seq<Seq<u8>>, int), ParseError>((
            ts,
            ser_line(ts).len() as int,
        )),
{
    lemma_ser_line_as_attrs(ts);
    let s = ser_line(ts) + rest;
    let t0 = ts[0];
    let tail = ser_attrs(ts.skip(1));
    lemma_enc_shape(t0);
    assert(s =~= enc_term(t0) + (tail + rest));
    let rest2 = tail + rest;
    if ts.len() == 1 {
        assert(rest2 =~= rest);
        assert(is_term_end(rest2[0]));
    } else {
        assert(tail[0] == B_SPACE);
        assert(rest2[0] == B_SPACE);
    }
    lemma_term_round(t0, rest2);
    let n = enc_term(t0).len() as int;
    assert(s.skip(n) =~= rest2);
    lemma_attrs_round(ts.skip(1), rest);
    assert(spec_more_terms(s.skip(n)) == Ok::<(Seq<Seq<u8>>, int), ParseError>((
        ts.skip(1),
        tail.len() as int,
    )));
    assert(seq![t0] + ts.skip(1) =~= ts);
    assert(ser_line(ts).len() == n + tail.len());
}

/// A non-empty line serializes as its first encoded token, then the rest
/// as an attribute list would.
proof fn lemma_ser_line_as_attrs(ts: Seq<Seq<u8>>)
    requires
        ts.len() > 0,
    ensures
        ser_line(ts) == enc_term(ts[0]) + ser_attrs(ts.skip(1)),
    decreases ts.len(),
{
    if ts.len() == 1 {
        assert(ts.skip(1) =~= Seq::<Seq<u8>>::empty());
        assert(enc_term(ts[0]) + ser_attrs(ts.skip(1)) =~= enc_term(ts[0]));
    } else {
        lemma_ser_line_as_attrs(ts.skip(1));
        assert(ts.skip(1)[0] == ts[1]);
        assert(ts.skip(1).skip(1) =~= ts.skip(2));
        assert((enc_term(ts[0]) + seq![B_SPACE] + (enc_term(ts[1]) + ser_attrs(ts.skip(2)))) =~= enc_term(
            ts[0],
        ) + (seq![B_SPACE] + enc_term(ts[1]) + ser_attrs(ts.skip(2))));
    }
}

/// Parsing an unquoted term off a verbatim tag followed by a delimiter (or
/// nothing) gives the tag back.
proof fn lemma_tag_round(t: Seq<u8>, r: Seq<u8>)
    requires
        tag_ok(t),
        r.len() == 0 || is_term_end(r[0]),
    ensures
        spec_unquoted(t + r) == Ok::<(Seq<u8>, int), ParseError>((t, t.len() as int)),
{
    let s = t + r;
    assert(s[0] == t[0]);
    assert(forall|i: int| 0 <= i < t.len() ==> s[i] == t[i]);
    lemma_term_run_is(s, t.len() as int);
    assert(s.subrange(0, t.len() as int) =~= t);
}

/// The serialized header line of a valid element parses back into its tag
/// and attribute list.
proof fn lemma_header_round(e: ElementModel, rest2: Seq<u8>)
    requires
        valid_element(e),
    ensures
        ({
            let hd = seq![B_LT] + e.tag + ser_attrs(e.attr) + seq![B_LF];
            spec_header(hd + rest2) == Ok::<((Seq<u8>, Seq<Seq<u8>>), int), ParseError>((
                (e.tag, e.attr),
                hd.len() as int,
            ))
        }),
{
    reveal(spec_header);
    let hd = seq![B_LT] + e.tag + ser_attrs(e.attr) + seq![B_LF];
    let s = hd + rest2;
    assert(s[0] == B_LT);
    let at = ser_attrs(e.attr);
    let tail3 = at + (seq![B_LF] + rest2);
    assert(s.skip(1) =~= e.tag + tail3);
    if e.attr.len() == 0 {
        assert(tail3 =~= seq![B_LF] + rest2);
        assert(tail3[0] == B_LF);
    } else {
        assert(tail3[0] == B_SPACE);
    }
    lemma_tag_round(e.tag, tail3);
    let tn = e.tag.len() as int;
    assert(s.skip(1 + tn) =~= at + (seq![B_LF] + rest2));
    lemma_attrs_round(e.attr, seq![B_LF] + rest2);
    let an = at.len() as int;
    assert(s.skip(1 + tn + an) =~= seq![B_LF] + rest2);
    lemma_space_run_is(seq![B_LF] + rest2, 0);
    assert((seq![B_LF] + rest2)[0] == B_LF);
    assert(spec_line_end(s.skip(1 + tn + an)) == Some(1int));
    assert(hd.len() == 1 + tn + an + 1);
}

/// The serialized child lines of a valid child list, followed by the
/// closing `>` line, parse back into that child list.
#[verifier::rlimit(100)]
#[verifier::spinoff_prover]
proof fn lemma_children_round(cs: Seq<ChildModel>, lvl: nat, rest: Seq<u8>)
    requires
        forall|i: int| 0 <= i < cs.len() ==> valid_child(#[trigger] cs[i]),
    ensures
        ({
            let body = ser_children_text(cs, lvl) + indent_seq(lvl) + seq![B_GT];
            spec_children(body + rest) == Ok::<(Seq<ChildModel>, int), ParseError>((
                cs,
                body.len() as int,
            ))
        }),
    decreases cs, 1nat,
{
    let body = ser_children_text(cs, lvl) + indent_seq(lvl) + seq![B_GT];
    let s = body + rest;
    let k = 2 * (lvl as int);
    if cs.len() == 0 {
        assert(s =~= indent_seq(lvl) + (seq![B_GT] + rest));
        assert(forall|i: int| 0 <= i < k ==> s[i] == B_SPACE);
        assert(s[k] == B_GT);
        lemma_space_run_is(s, k);
        assert(s.skip(0) =~= s);
        crate::parser::lemma_children_close(s, 0, k);
        assert(cs =~= Seq::<ChildModel>::empty());
        assert(body.len() == k + 1);
    } else {
        let c0 = cs[0];
        let cs1 = cs.skip(1);
        let kids1 = ser_children_text(cs1, lvl);
        let tailbody = kids1 + indent_seq(lvl) + seq![B_GT];
        let rest2 = tailbody + rest;
        assert(ser_children_text(cs, lvl) == ser_child(c0, lvl) + kids1);
        lemma_children_round(cs1, lvl, rest);
        let kk = 2 * ((lvl + 1) as int);
        assert(s.skip(0) =~= s);
        match c0 {
            ChildModel::Line(ts) => {
                assert(line_ok(ts));
                assert(s =~= indent_seq(lvl + 1) + (ser_line(ts) + (seq![B_LF] + rest2)));
                lemma_ser_line_as_attrs(ts);
                lemma_enc_shape(ts[0]);
                assert(ser_line(ts)[0] == enc_term(ts[0])[0]);
                assert(forall|i: int| 0 <= i < kk ==> s[i] == B_SPACE);
                assert(s[kk] == enc_term(ts[0])[0]);
                lemma_space_run_is(s, kk);
                assert(s.skip(kk) =~= ser_line(ts) + (seq![B_LF] + rest2));
                lemma_line_round(ts, seq![B_LF] + rest2);
                let n = ser_line(ts).len() as int;
                let j = kk + n;
                assert(s.skip(j) =~= seq![B_LF] + rest2);
                lemma_space_run_is(seq![B_LF] + rest2, 0);
                assert(spec_line_end(s.skip(j)) == Some(1int));
                let m = j + 1;
                crate::parser::lemma_children_step_line(s, 0, kk, j, m, ts);
                assert(s.skip(m) =~= rest2);
                assert(spec_children(s.skip(m)) == Ok::<(Seq<ChildModel>, int), ParseError>((
                    cs1,
                    tailbody.len() as int,
                )));
                assert(spec_children(s) == Ok::<(Seq<ChildModel>, int), ParseError>((
                    seq![ChildModel::Line(ts)] + cs1,
                    m + tailbody.len() as int,
                )));
                assert(seq![ChildModel::Line(ts)] + cs1 =~= cs);
                assert(ser_child(c0, lvl).len() == kk + n + 1);
                assert(body.len() == m + tailbody.len());
            },
            ChildModel::Element(ce) => {
                assert(valid_element(ce));
                assert(ser_child(c0, lvl) == ser_element(ce, (lvl + 1) as nat) + seq![B_LF]);
                assert(s =~= indent_seq(lvl + 1) + (ser_core(ce, (lvl + 1) as nat) + (seq![B_LF]
                    + rest2)));
                assert(ser_core(ce, (lvl + 1) as nat)[0] == B_LT);
                assert(forall|i: int| 0 <= i < kk ==> s[i] == B_SPACE);
                assert(s[kk] == B_LT);
                lemma_space_run_is(s, kk);
                assert(s.skip(kk) =~= ser_core(ce, (lvl + 1) as nat) + (seq![B_LF] + rest2));
                lemma_core_round(ce, (lvl + 1) as nat, seq![B_LF] + rest2);
                let n = ser_core(ce, (lvl + 1) as nat).len() as int;
                let j = kk + n;
                assert(s.skip(j) =~= seq![B_LF] + rest2);
                lemma_space_run_is(seq![B_LF] + rest2, 0);
                assert(spec_line_end(s.skip(j)) == Some(1int));
                let m = j + 1;
                crate::parser::lemma_children_step_elem(s, 0, kk, j, m, ce);
                assert(s.skip(m) =~= rest2);
                assert(spec_children(s.skip(m)) == Ok::<(Seq<ChildModel>, int), ParseError>((
                    cs1,
                    tailbody.len() as int,
                )));
                assert(spec_children(s) == Ok::<(Seq<ChildModel>, int), ParseError>((
                    seq![ChildModel::Element(ce)] + cs1,
                    m + tailbody.len() as int,
                )));
                assert(seq![ChildModel::Element(ce)] + cs1 =~= cs);
                assert(ser_child(c0, lvl).len() == kk + n + 1);
                assert(body.len() == m + tailbody.len());
            },
        }
    }
}

/// The serialization of a valid element, from its `<` onward, parses back
/// into that element.
proof fn lemma_core_round(e: ElementModel, lvl: nat, rest: Seq<u8>)
    requires
        valid_element(e),
    ensures
        spec_element(ser_core(e, lvl) + rest) == Ok::<(ElementModel, int), ParseError>((
            e,
            ser_core(e, lvl).len() as int,
        )),
    decreases e, 0nat,
{
    let hd = seq![B_LT] + e.tag + ser_attrs(e.attr) + seq![B_LF];
    let body = ser_children_text(e.children, lvl) + indent_seq(lvl) + seq![B_GT];
    let s = ser_core(e, lvl) + rest;
    assert(s =~= hd + (body + rest));
    lemma_header_round(e, body + rest);
    lemma_children_round(e.children, lvl, rest);
    assert(s.skip(hd.len() as int) =~= body + rest);
    crate::parser::lemma_element_assemble(
        s,
        e.tag,
        e.attr,
        hd.len() as int,
        e.children,
        body.len() as int,
    );
    assert(ElementModel { tag: e.tag, attr: e.attr, children: e.children } == e);
    assert(ser_core(e, lvl).len() == hd.len() + body.len());
}

/// Round trip: for every valid tree, parsing its serialization yields a
/// structurally equal tree — the same tag, attribute sequence, and child
/// sequence, token for token.
pub proof fn lemma_round_trip(e: ElementModel)
    requires
        valid_element(e),
    ensures
        spec_parse_document(ser_element(e, 0)) == Ok::<ElementModel, ParseError>(e),
{
    let s = ser_element(e, 0);
    assert(indent_seq(0) =~= Seq::<u8>::empty());
    assert(s =~= ser_core(e, 0) + Seq::<u8>::empty());
    lemma_core_round(e, 0, Seq::empty());
    assert(ser_core(e, 0)[0] == B_LT);
    assert(s[0] == B_LT);
    lemma_blank_run_is(s, 0);
    assert(s.skip(0) =~= s);
    let n = ser_core(e, 0).len() as int;
    assert(s.len() == n);
    assert(s.skip(n) =~= Seq::<u8>::empty());
    lemma_blank_run_is(Seq::<u8>::empty(), 0);
}

/// Idempotent re-serialization: serializing, parsing, and serializing
/// again gives the same text — the serialization is canonical.
pub proof fn lemma_reserialize_stable(e: ElementModel)
    requires
        valid_element(e),
    ensures
        spec_parse_document(ser_element(e, 0)) matches Ok(m) && ser_element(m, 0) == ser_element(
            e,
            0,
        ),
{
    lemma_round_trip(e);
}

/// The structural invariants every parsed tree carries: a non-empty tag
/// free of whitespace that does not open with a quote, and no empty data
/// line anywhere.
pub open spec fn wf_element(e: ElementModel) -> bool
    decreases e, 0nat,
{
    tag_ok(e.tag) && (forall|i: int| 0 <= i < e.children.len() ==> wf_child(
        #[trigger] e.children[i],
    ))
}

/// The structural invariant of one parsed child.
pub open spec fn wf_child(c: ChildModel) -> bool
    decreases c, 1nat,
{
    match c {
        ChildModel::Line(ts) => ts.len() > 0,
        ChildModel::Element(ce) => wf_element(ce),
    }
}

/// A successfully parsed unquoted term is a well-formed tag.
proof fn lemma_unquoted_wf(s: Seq<u8>)
    ensures
        spec_unquoted(s) matches Ok((t, n)) ==> tag_ok(t),
{
    if !(s.len() == 0 || is_quote_byte(s[0]) || is_term_end(s[0])) {
        crate::parser::lemma_term_run(s);
        crate::parser::lemma_term_run(s.skip(1));
        let n = crate::parser::term_run(s);
        assert(n >= 1);
        assert(s.subrange(0, n)[0] == s[0]);
    }
}

/// A successfully parsed element is well formed.
proof fn lemma_element_wf(s: Seq<u8>)
    ensures
        spec_element(s) matches Ok((m, n)) ==> wf_element(m),
    decreases s.len(), 0nat,
{
    reveal(spec_element);
    reveal(spec_header);
    reveal(spec_children);
    if spec_element(s) is Ok {
        lemma_unquoted_wf(s.skip(1));
        let h = spec_header(s)->Ok_0.1;
        lemma_children_wf(s.skip(h));
    }
}

/// Successfully parsed children are well formed, data lines included.
proof fn lemma_children_wf(s: Seq<u8>)
    ensures
        spec_children(s) matches Ok((cs, cn)) ==> (forall|i: int|
            0 <= i < cs.len() ==> wf_child(#[trigger] cs[i])),
    decreases s.len(), 1nat,
{
    reveal(spec_children);
    reveal(spec_element);
    crate::parser::lemma_space_run(s);
    let k = crate::parser::space_run(s);
    if !(0 <= k && k <= s.len()) {
    } else if k == s.len() {
    } else if s[k] == B_GT {
    } else if s[k] == B_LT {
        lemma_element_wf(s.skip(k));
        match spec_element(s.skip(k)) {
            Ok((el, en)) => {
                if 0 < en && k + en <= s.len() {
                    match spec_line_end(s.skip(k + en)) {
                        Some(ln) => {
                            if 0 < ln && k + en + ln <= s.len() {
                                lemma_children_wf(s.skip(k + en + ln));
                                match spec_children(s.skip(k + en + ln)) {
                                    Ok((cs2, _)) => {
                                        let cs = seq![ChildModel::Element(el)] + cs2;
                                        assert forall|i: int|
                                            0 <= i < cs.len() implies wf_child(
                                            #[trigger] cs[i],
                                        ) by {
                                            if i > 0 {
                                                assert(cs[i] == cs2[i - 1]);
                                            }
                                        }
                                    },
                                    Err(_) => {},
                                }
                            }
                        },
                        None => {},
                    }
                }
            },
            Err(_) => {},
        }
    } else {
        match spec_term_list(s.skip(k)) {
            Ok((ts, n)) => {
                assert(ts.len() > 0);
                if 0 < n && k + n <= s.len() {
                    match spec_line_end(s.skip(k + n)) {
                        Some(ln) => {
                            if 0 < ln && k + n + ln <= s.len() {
                                lemma_children_wf(s.skip(k + n + ln));
                                match spec_children(s.skip(k + n + ln)) {
                                    Ok((cs2, _)) => {
                                        let cs = seq![ChildModel::Line(ts)] + cs2;
                                        assert forall|i: int|
                                            0 <= i < cs.len() implies wf_child(
                                            #[trigger] cs[i],
                                        ) by {
                                            if i > 0 {
                                                assert(cs[i] == cs2[i - 1]);
                                            }
                                        }
                                    },
                                    Err(_) => {},
                                }
                            }
                        },
                        None => {},
                    }
                }
            },
            Err(_) => {},
        }
    }
}

/// Whatever text parses at all parses into a well-formed tree: the tag is
/// never empty, never holds whitespace, never opens with a quote, and no
/// data line is empty.
pub proof fn lemma_parse_well_formed(s: Seq<u8>)
    ensures
        spec_parse_document(s) matches Ok(m) ==> wf_element(m),
{
    crate::parser::lemma_blank_run(s);
    lemma_element_wf(s.skip(crate::parser::blank_run(s)));
}

} // verus!
