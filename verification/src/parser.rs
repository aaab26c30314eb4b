//! The tree parser: recognizes a whole document as one nested element.
//!
//! The grammar is line-oriented. An element opens with a `<` immediately
//! followed by its tag and optional attribute terms, holds one child per
//! line (either a nested element or a term list), and closes with a line
//! holding only `>`. Terms are whitespace-delimited tokens, either unquoted
//! or wrapped in one of the three quote characters `"`, `'` and backtick.
//!
//! The functions that do the work are specified against pure spec-level
//! parsers over `Seq<u8>`; those spec functions return the parsed value
//! together with the number of bytes consumed.

use vstd::prelude::*;

verus! {

/// Why a parse was rejected. Any failure aborts the whole parse;
/// no partial tree is ever returned.
#[derive(Clone, Copy, Debug, PartialEq, Eq, Structural)]
pub enum ParseError {
    /// A quoted term's closing quote was not found before a line break
    /// or the end of the input.
    UnterminatedQuote,
    /// An element header is malformed: the expected `<` is absent, or no
    /// tag token follows it.
    MissingTag,
    /// The input ended, or a line could not be completed, before the line
    /// holding the closing `>` of an open element.
    MissingClosingMarker,
    /// Non-blank bytes remain after the top-level element's closing `>`.
    TrailingContent,
    /// A term was required but a delimiter stood at its place.
    UnexpectedDelimiter,
}

/// A tree node: a tag naming its kind, the attribute terms of its opening
/// line, and its ordered children.
#[derive(Debug, PartialEq)]
pub struct Element {
    /// The name of the element, e.g. `REAPER_PROJECT`, `TRACK` or `VST`.
    pub tag: Vec<u8>,
    /// The attribute terms of the opening line, in order.
    pub attr: Vec<Vec<u8>>,
    /// The children of this element, in document order.
    pub children: Vec<Child>,
}

/// One child of an element.
#[derive(Debug, PartialEq)]
pub enum Child {
    /// An unstructured data line, split into terms by the quoting rules.
    Line(Vec<Vec<u8>>),
    /// A nested element.
    Element(Element),
}

/// The mathematical shape of an [`Element`]: the same tree over `Seq`.
pub struct ElementModel {
    pub tag: Seq<u8>,
    pub attr: Seq<Seq<u8>>,
    pub children: Seq<ChildModel>,
}

/// The mathematical shape of a [`Child`].
pub enum ChildModel {
    Line(Seq<Seq<u8>>),
    Element(ElementModel),
}

impl Element {
    /// The tree this node stands for, token for token.
    pub open spec fn deep(self) -> ElementModel
        decreases self,
        via Self::deep_decreases
    {
        ElementModel {
            tag: self.tag@,
            attr: deep_tokens(self.attr@),
            children: deep_children(self.children@),
        }
    }

    #[via_fn]
    proof fn deep_decreases(self) {
        assert(decreases_to!(self => self.children));
        assert(decreases_to!(self.children => self.children@));
    }
}

impl Child {
    /// The child this value stands for, token for token.
    pub open spec fn deep(self) -> ChildModel
        decreases self,
    {
        match self {
            Child::Line(toks) => ChildModel::Line(deep_tokens(toks@)),
            Child::Element(e) => ChildModel::Element(e.deep()),
        }
    }
}

/// The deep view of a sequence of children.
pub open spec fn deep_children(cs: Seq<Child>) -> Seq<ChildModel>
    decreases cs,
    via deep_children_decreases
{
    Seq::new(
        cs.len(),
        |i: int|
            if 0 <= i < cs.len() {
                cs[i].deep()
            } else {
                ChildModel::Line(Seq::empty())
            },
    )
}

#[via_fn]
proof fn deep_children_decreases(cs: Seq<Child>) {
    assert forall|i: int| 0 <= i < cs.len() implies decreases_to!(cs => cs[i]) by {
        assert(decreases_to!(cs => cs[i]));
    }
}

/// The byte values the grammar treats specially.
pub const B_DQ: u8 = 34;

pub const B_SQ: u8 = 39;

pub const B_BT: u8 = 96;

pub const B_SPACE: u8 = 32;

pub const B_TAB: u8 = 9;

pub const B_LF: u8 = 10;

pub const B_CR: u8 = 13;

pub const B_LT: u8 = 60;

pub const B_GT: u8 = 62;

/// The three quote characters.
pub open spec fn is_quote_byte(c: u8) -> bool {
    c == B_DQ || c == B_SQ || c == B_BT
}

/// The delimiters that end an unquoted term: space, LF, CR.
pub open spec fn is_term_end(c: u8) -> bool {
    c == B_SPACE || c == B_LF || c == B_CR
}

/// The blank bytes that may surround the top-level element.
pub open spec fn is_blank_byte(c: u8) -> bool {
    c == B_SPACE || c == B_TAB || c == B_LF || c == B_CR
}

/// Length of the run of spaces at the front of `s`.
pub open spec fn space_run(s: Seq<u8>) -> int
    decreases s.len(),
{
    if s.len() > 0 && s[0] == B_SPACE {
        1 + space_run(s.skip(1))
    } else {
        0
    }
}

/// Length of the run of blank bytes at the front of `s`.
pub open spec fn blank_run(s: Seq<u8>) -> int
    decreases s.len(),
{
    if s.len() > 0 && is_blank_byte(s[0]) {
        1 + blank_run(s.skip(1))
    } else {
        0
    }
}

/// Length of the run of non-delimiter bytes at the front of `s`.
pub open spec fn term_run(s: Seq<u8>) -> int
    decreases s.len(),
{
    if s.len() > 0 && !is_term_end(s[0]) {
        1 + term_run(s.skip(1))
    } else {
        0
    }
}

/// Length of the run of bytes at the front of `s` that are neither the
/// quote `q` nor a line break.
pub open spec fn quoted_run(s: Seq<u8>, q: u8) -> int
    decreases s.len(),
{
    if s.len() > 0 && s[0] != q && s[0] != B_LF && s[0] != B_CR {
        1 + quoted_run(s.skip(1), q)
    } else {
        0
    }
}

/// What a quoted term at the front of `s` yields: the bytes between the
/// quotes and the number of bytes consumed, or `UnterminatedQuote` if no
/// closing quote stands before a line break or the end of the input.
pub open spec fn spec_quoted(s: Seq<u8>) -> Result<(Seq<u8>, int), ParseError> {
    if s.len() == 0 || !is_quote_byte(s[0]) {
        Err(ParseError::UnexpectedDelimiter)
    } else {
        let q = s[0];
        let n = quoted_run(s.skip(1), q);
        if 0 <= n && 1 + n < s.len() && s[1 + n] == q {
            Ok((s.subrange(1, 1 + n), 2 + n))
        } else {
            Err(ParseError::UnterminatedQuote)
        }
    }
}

/// What an unquoted term at the front of `s` yields: the longest non-empty
/// run of non-delimiter bytes, provided the first byte is not a quote.
pub open spec fn spec_unquoted(s: Seq<u8>) -> Result<(Seq<u8>, int), ParseError> {
    if s.len() == 0 || is_quote_byte(s[0]) || is_term_end(s[0]) {
        Err(ParseError::UnexpectedDelimiter)
    } else {
        let n = term_run(s);
        Ok((s.subrange(0, n), n))
    }
}

/// One term at the front of `s`: quoted if the first byte is a quote
/// character, unquoted otherwise.
pub open spec fn spec_term(s: Seq<u8>) -> Result<(Seq<u8>, int), ParseError> {
    if s.len() > 0 && is_quote_byte(s[0]) {
        spec_quoted(s)
    } else {
        spec_unquoted(s)
    }
}

/// Zero or more further terms, each preceded by one or more spaces. Stops
/// without consuming anything once no space, or only trailing blank, follows;
/// the terms collected so far and the bytes consumed are returned.
pub open spec fn spec_more_terms(s: Seq<u8>) -> Result<(Seq<Seq<u8>>, int), ParseError>
    decreases s.len(),
{
    let k = space_run(s);
    if !(0 < k && k < s.len()) {
        Ok((Seq::empty(), 0))
    } else if is_term_end(s[k]) {
        Ok((Seq::empty(), 0))
    } else {
        match spec_term(s.skip(k)) {
            Err(e) => Err(e),
            Ok((t, n)) => {
                if !(0 < n && k + n <= s.len()) {
                    Err(ParseError::UnexpectedDelimiter)
                } else {
                    match spec_more_terms(s.skip(k + n)) {
                        Err(e) => Err(e),
                        Ok((ts, m)) => Ok((seq![t] + ts, k + n + m)),
                    }
                }
            },
        }
    }
}

/// One or more terms separated by runs of spaces: one data line.
pub open spec fn spec_term_list(s: Seq<u8>) -> Result<(Seq<Seq<u8>>, int), ParseError> {
    match spec_term(s) {
        Err(e) => Err(e),
        Ok((t, n)) => {
            if !(0 < n && n <= s.len()) {
                Err(ParseError::UnexpectedDelimiter)
            } else {
                match spec_more_terms(s.skip(n)) {
                    Err(e) => Err(e),
                    Ok((ts, m)) => Ok((seq![t] + ts, n + m)),
                }
            }
        },
    }
}

/// A line end: optional spaces, then LF or CR LF. Returns the bytes
/// consumed, or `None` where no line end stands at the front of `s`.
pub open spec fn spec_line_end(s: Seq<u8>) -> Option<int> {
    let k = space_run(s);
    if 0 <= k && k < s.len() && s[k] == B_LF {
        Some(k + 1)
    } else if 0 <= k && k + 1 < s.len() && s[k] == B_CR && s[k + 1] == B_LF {
        Some(k + 2)
    } else {
        None
    }
}

/// The header of an element at the front of `s`: `<`, the tag, the
/// attribute terms, and the line end.
#[verifier::opaque]
pub open spec fn spec_header(s: Seq<u8>) -> Result<((Seq<u8>, Seq<Seq<u8>>), int), ParseError> {
    if s.len() == 0 || s[0] != B_LT {
        Err(ParseError::MissingTag)
    } else {
        match spec_unquoted(s.skip(1)) {
            Err(_) => Err(ParseError::MissingTag),
            Ok((tag, tn)) => {
                if !(0 < tn && 1 + tn <= s.len()) {
                    Err(ParseError::MissingTag)
                } else {
                    match spec_more_terms(s.skip(1 + tn)) {
                        Err(e) => Err(e),
                        Ok((attrs, an)) => {
                            if !(0 <= an && 1 + tn + an <= s.len()) {
                                Err(ParseError::MissingClosingMarker)
                            } else {
                                match spec_line_end(s.skip(1 + tn + an)) {
                                    None => Err(ParseError::MissingClosingMarker),
                                    Some(ln) => {
                                        if !(0 < ln && 1 + tn + an + ln <= s.len()) {
                                            Err(ParseError::MissingClosingMarker)
                                        } else {
                                            Ok(((tag, attrs), 1 + tn + an + ln))
                                        }
                                    },
                                }
                            }
                        },
                    }
                }
            },
        }
    }
}

/// One element at the front of `s`: the header line, the children, and the
/// closing `>` line.
#[verifier::opaque]
pub open spec fn spec_element(s: Seq<u8>) -> Result<(ElementModel, int), ParseError>
    decreases s.len(), 0int,
{
    match spec_header(s) {
        Err(e) => Err(e),
        Ok(((tag, attrs), h)) => {
            if !(0 < h && h <= s.len()) {
                Err(ParseError::MissingClosingMarker)
            } else {
                match spec_children(s.skip(h)) {
                    Err(e) => Err(e),
                    Ok((cs, cn)) => Ok((ElementModel { tag, attr: attrs, children: cs }, h + cn)),
                }
            }
        },
    }
}

/// The children of an open element, one per line, up to and including the
/// closing `>`. A line whose first non-space byte is `<` must be a
/// well-formed nested element; any other line is a term list.
#[verifier::opaque]
pub open spec fn spec_children(s: Seq<u8>) -> Result<(Seq<ChildModel>, int), ParseError>
    decreases s.len(), 1int,
{
    let k = space_run(s);
    if !(0 <= k && k <= s.len()) {
        Err(ParseError::MissingClosingMarker)
    } else if k == s.len() {
        Err(ParseError::MissingClosingMarker)
    } else if s[k] == B_GT {
        Ok((Seq::empty(), k + 1))
    } else if s[k] == B_LT {
        match spec_element(s.skip(k)) {
            Err(e) => Err(e),
            Ok((el, en)) => {
                if !(0 < en && k + en <= s.len()) {
                    Err(ParseError::MissingClosingMarker)
                } else {
                    match spec_line_end(s.skip(k + en)) {
                        None => Err(ParseError::MissingClosingMarker),
                        Some(ln) => {
                            if !(0 < ln && k + en + ln <= s.len()) {
                                Err(ParseError::MissingClosingMarker)
                            } else {
                                match spec_children(s.skip(k + en + ln)) {
                                    Err(e) => Err(e),
                                    Ok((cs, cn)) => Ok((
                                        seq![ChildModel::Element(el)] + cs,
                                        k + en + ln + cn,
                                    )),
                                }
                            }
                        },
                    }
                }
            },
        }
    } else {
        match spec_term_list(s.skip(k)) {
            Err(e) => Err(e),
            Ok((ts, n)) => {
                if !(0 < n && k + n <= s.len()) {
                    Err(ParseError::MissingClosingMarker)
                } else {
                    match spec_line_end(s.skip(k + n)) {
                        None => Err(ParseError::MissingClosingMarker),
                        Some(ln) => {
                            if !(0 < ln && k + n + ln <= s.len()) {
                                Err(ParseError::MissingClosingMarker)
                            } else {
                                match spec_children(s.skip(k + n + ln)) {
                                    Err(e) => Err(e),
                                    Ok((cs, cn)) => Ok((
                                        seq![ChildModel::Line(ts)] + cs,
                                        k + n + ln + cn,
                                    )),
                                }
                            }
                        },
                    }
                }
            },
        }
    }
}

/// A whole document: one top-level element, optionally surrounded by blank
/// bytes; anything else after the closing `>` is `TrailingContent`.
pub open spec fn spec_parse_document(s: Seq<u8>) -> Result<ElementModel, ParseError> {
    let k = blank_run(s);
    if !(0 <= k && k <= s.len()) {
        Err(ParseError::MissingTag)
    } else {
        match spec_element(s.skip(k)) {
            Err(e) => Err(e),
            Ok((el, n)) => {
                if !(0 <= n && k + n <= s.len()) {
                    Err(ParseError::TrailingContent)
                } else {
                    if k + n + blank_run(s.skip(k + n)) == s.len() {
                        Ok(el)
                    } else {
                        Err(ParseError::TrailingContent)
                    }
                }
            },
        }
    }
}

/// The deep view of a sequence of tokens.
pub open spec fn deep_tokens(ts: Seq<Vec<u8>>) -> Seq<Seq<u8>> {
    Seq::new(ts.len(), |i: int| if 0 <= i < ts.len() { ts[i]@ } else { Seq::empty() })
}

/// Dropping `a` bytes and then `b` more drops `a + b` bytes.
pub proof fn lemma_skip_skip(s: Seq<u8>, a: int, b: int)
    requires
        0 <= a,
        0 <= b,
        a + b <= s.len(),
    ensures
        s.skip(a).skip(b) == s.skip(a + b),
{
    assert(s.skip(a).skip(b) =~= s.skip(a + b));
}

/// `space_run` is the length of the maximal run of spaces.
pub proof fn lemma_space_run(s: Seq<u8>)
    ensures
        0 <= space_run(s) <= s.len(),
        forall|i: int| 0 <= i < space_run(s) ==> s[i] == B_SPACE,
        space_run(s) < s.len() ==> s[space_run(s)] != B_SPACE,
    decreases s.len(),
{
    if s.len() > 0 && s[0] == B_SPACE {
        lemma_space_run(s.skip(1));
        assert forall|i: int| 0 <= i < space_run(s) implies s[i] == B_SPACE by {
            if i > 0 {
                assert(s.skip(1)[i - 1] == s[i]);
            }
        }
        if space_run(s) < s.len() {
            assert(s.skip(1)[space_run(s) - 1] == s[space_run(s)]);
        }
    }
}

/// A run of `n` spaces followed by a non-space (or the end) pins `space_run` to `n`.
pub proof fn lemma_space_run_is(s: Seq<u8>, n: int)
    requires
        0 <= n <= s.len(),
        forall|i: int| 0 <= i < n ==> s[i] == B_SPACE,
        n < s.len() ==> s[n] != B_SPACE,
    ensures
        space_run(s) == n,
{
    lemma_space_run(s);
}

/// `blank_run` is the length of the maximal run of blank bytes.
pub proof fn lemma_blank_run(s: Seq<u8>)
    ensures
        0 <= blank_run(s) <= s.len(),
        forall|i: int| 0 <= i < blank_run(s) ==> is_blank_byte(s[i]),
        blank_run(s) < s.len() ==> !is_blank_byte(s[blank_run(s)]),
    decreases s.len(),
{
    if s.len() > 0 && is_blank_byte(s[0]) {
        lemma_blank_run(s.skip(1));
        assert forall|i: int| 0 <= i < blank_run(s) implies is_blank_byte(s[i]) by {
            if i > 0 {
                assert(s.skip(1)[i - 1] == s[i]);
            }
        }
        if blank_run(s) < s.len() {
            assert(s.skip(1)[blank_run(s) - 1] == s[blank_run(s)]);
        }
    }
}

/// A run of `n` blank bytes followed by a non-blank (or the end) pins `blank_run` to `n`.
pub proof fn lemma_blank_run_is(s: Seq<u8>, n: int)
    requires
        0 <= n <= s.len(),
        forall|i: int| 0 <= i < n ==> is_blank_byte(s[i]),
        n < s.len() ==> !is_blank_byte(s[n]),
    ensures
        blank_run(s) == n,
{
    lemma_blank_run(s);
}

/// `term_run` is the length of the maximal run of non-delimiter bytes.
pub proof fn lemma_term_run(s: Seq<u8>)
    ensures
        0 <= term_run(s) <= s.len(),
        forall|i: int| 0 <= i < term_run(s) ==> !is_term_end(s[i]),
        term_run(s) < s.len() ==> is_term_end(s[term_run(s)]),
    decreases s.len(),
{
    if s.len() > 0 && !is_term_end(s[0]) {
        lemma_term_run(s.skip(1));
        assert forall|i: int| 0 <= i < term_run(s) implies !is_term_end(s[i]) by {
            if i > 0 {
                assert(s.skip(1)[i - 1] == s[i]);
            }
        }
        if term_run(s) < s.len() {
            assert(s.skip(1)[term_run(s) - 1] == s[term_run(s)]);
        }
    }
}

/// A run of `n` non-delimiters followed by a delimiter (or the end) pins `term_run` to `n`.
pub proof fn lemma_term_run_is(s: Seq<u8>, n: int)
    requires
        0 <= n <= s.len(),
        forall|i: int| 0 <= i < n ==> !is_term_end(s[i]),
        n < s.len() ==> is_term_end(s[n]),
    ensures
        term_run(s) == n,
{
    lemma_term_run(s);
}

/// `quoted_run` is the length of the maximal run free of `q`, LF and CR.
pub proof fn lemma_quoted_run(s: Seq<u8>, q: u8)
    ensures
        0 <= quoted_run(s, q) <= s.len(),
        forall|i: int|
            0 <= i < quoted_run(s, q) ==> (s[i] != q && s[i] != B_LF && s[i] != B_CR),
        quoted_run(s, q) < s.len() ==> (s[quoted_run(s, q)] == q || s[quoted_run(s, q)] == B_LF
            || s[quoted_run(s, q)] == B_CR),
    decreases s.len(),
{
    if s.len() > 0 && s[0] != q && s[0] != B_LF && s[0] != B_CR {
        lemma_quoted_run(s.skip(1), q);
        assert forall|i: int|
            0 <= i < quoted_run(s, q) implies (s[i] != q && s[i] != B_LF && s[i] != B_CR) by {
            if i > 0 {
                assert(s.skip(1)[i - 1] == s[i]);
            }
        }
        if quoted_run(s, q) < s.len() {
            assert(s.skip(1)[quoted_run(s, q) - 1] == s[quoted_run(s, q)]);
        }
    }
}

/// A run of `n` bytes free of `q`, LF and CR, then one of them (or the end),
/// pins `quoted_run` to `n`.
pub proof fn lemma_quoted_run_is(s: Seq<u8>, q: u8, n: int)
    requires
        0 <= n <= s.len(),
        forall|i: int| 0 <= i < n ==> (s[i] != q && s[i] != B_LF && s[i] != B_CR),
        n < s.len() ==> (s[n] == q || s[n] == B_LF || s[n] == B_CR),
    ensures
        quoted_run(s, q) == n,
{
    lemma_quoted_run(s, q);
}

/// How an executable term parse must relate to its spec counterpart.
pub open spec fn term_result_matches(
    r: Result<(Vec<u8>, usize), ParseError>,
    sp: Result<(Seq<u8>, int), ParseError>,
    pos: int,
) -> bool {
    match (r, sp) {
        (Ok((tok, j)), Ok((t, n))) => tok@ == t && j == pos + n,
        (Err(a), Err(b)) => a == b,
        _ => false,
    }
}

/// How an executable term-list parse must relate to its spec counterpart.
pub open spec fn list_result_matches(
    r: Result<(Vec<Vec<u8>>, usize), ParseError>,
    sp: Result<(Seq<Seq<u8>>, int), ParseError>,
    pos: int,
) -> bool {
    match (r, sp) {
        (Ok((toks, j)), Ok((ts, n))) => deep_tokens(toks@) == ts && j == pos + n,
        (Err(a), Err(b)) => a == b,
        _ => false,
    }
}

fn is_quote(c: u8) -> (b: bool)
    ensures
        b == is_quote_byte(c),
{
    c == B_DQ || c == B_SQ || c == B_BT
}

fn is_delim(c: u8) -> (b: bool)
    ensures
        b == is_term_end(c),
{
    c == B_SPACE || c == B_LF || c == B_CR
}

fn is_blank(c: u8) -> (b: bool)
    ensures
        b == is_blank_byte(c),
{
    c == B_SPACE || c == B_TAB || c == B_LF || c == B_CR
}

/// First position at or after `pos` that does not hold a space.
fn skip_spaces(input: &Vec<u8>, pos: usize) -> (r: usize)
    requires
        pos <= input@.len(),
    ensures
        pos <= r <= input@.len(),
        r - pos == space_run(input@.skip(pos as int)),
        r < input@.len() ==> input@[r as int] != B_SPACE,
{
    let mut i: usize = pos;
    while i < input.len() && input[i] == B_SPACE
        invariant
            pos <= i <= input@.len(),
            forall|j: int| pos <= j < i ==> input@[j] == B_SPACE,
        decreases input@.len() - i,
    {
        i = i + 1;
    }
    proof {
        lemma_space_run_is(input@.skip(pos as int), i - pos);
    }
    i
}

/// First position at or after `pos` that does not hold a blank byte.
fn skip_blanks(input: &Vec<u8>, pos: usize) -> (r: usize)
    requires
        pos <= input@.len(),
    ensures
        pos <= r <= input@.len(),
        r - pos == blank_run(input@.skip(pos as int)),
{
    let mut i: usize = pos;
    while i < input.len() && is_blank(input[i])
        invariant
            pos <= i <= input@.len(),
            forall|j: int| pos <= j < i ==> is_blank_byte(input@[j]),
        decreases input@.len() - i,
    {
        i = i + 1;
    }
    proof {
        lemma_blank_run_is(input@.skip(pos as int), i - pos);
    }
    i
}

/// Copies `input[from..to]` into a fresh vector.
fn copy_range(input: &Vec<u8>, from: usize, to: usize) -> (r: Vec<u8>)
    requires
        from <= to <= input@.len(),
    ensures
        r@ == input@.subrange(from as int, to as int),
{
    let mut out: Vec<u8> = Vec::new();
    let mut i: usize = from;
    while i < to
        invariant
            from <= i <= to <= input@.len(),
            out@ == input@.subrange(from as int, i as int),
        decreases to - i,
    {
        out.push(input[i]);
        proof {
            assert(out@ =~= input@.subrange(from as int, i + 1 as int));
        }
        i = i + 1;
    }
    out
}

/// Parses a quoted term starting at `pos`: the contents between the quotes,
/// and the position after the closing quote.
pub fn quoted_string(input: &Vec<u8>, pos: usize) -> (r: Result<(Vec<u8>, usize), ParseError>)
    requires
        pos <= input@.len(),
    ensures
        term_result_matches(r, spec_quoted(input@.skip(pos as int)), pos as int),
        (r matches Ok((_, j)) ==> pos < j <= input@.len()),
{
    if pos >= input.len() {
        return Err(ParseError::UnexpectedDelimiter);
    }
    let q = input[pos];
    if !is_quote(q) {
        return Err(ParseError::UnexpectedDelimiter);
    }
    let mut i: usize = pos + 1;
    while i < input.len() && input[i] != q && input[i] != B_LF && input[i] != B_CR
        invariant
            pos + 1 <= i <= input@.len(),
            forall|j: int|
                pos + 1 <= j < i ==> (input@[j] != q && input@[j] != B_LF && input@[j] != B_CR),
        decreases input@.len() - i,
    {
        i = i + 1;
    }
    proof {
        lemma_skip_skip(input@, pos as int, 1);
        lemma_quoted_run_is(input@.skip(pos as int).skip(1), q, i - (pos + 1));
    }
    if i < input.len() && input[i] == q {
        let tok = copy_range(input, pos + 1, i);
        proof {
            assert(input@.skip(pos as int).subrange(1, 1 + (i - (pos + 1))) =~= input@.subrange(
                pos + 1 as int,
                i as int,
            ));
        }
        Ok((tok, i + 1))
    } else {
        Err(ParseError::UnterminatedQuote)
    }
}

/// Parses an unquoted term starting at `pos`: the longest non-empty run of
/// bytes up to a space or line break, provided the first byte is no quote.
pub fn unquoted_string(input: &Vec<u8>, pos: usize) -> (r: Result<(Vec<u8>, usize), ParseError>)
    requires
        pos <= input@.len(),
    ensures
        term_result_matches(r, spec_unquoted(input@.skip(pos as int)), pos as int),
        (r matches Ok((_, j)) ==> pos < j <= input@.len()),
{
    if pos >= input.len() {
        return Err(ParseError::UnexpectedDelimiter);
    }
    let c = input[pos];
    if is_quote(c) || is_delim(c) {
        return Err(ParseError::UnexpectedDelimiter);
    }
    let mut i: usize = pos;
    while i < input.len() && !is_delim(input[i])
        invariant
            pos <= i <= input@.len(),
            forall|j: int| pos <= j < i ==> !is_term_end(input@[j]),
        decreases input@.len() - i,
    {
        i = i + 1;
    }
    proof {
        lemma_term_run_is(input@.skip(pos as int), i - pos);
        assert(input@.skip(pos as int).subrange(0, i - pos) =~= input@.subrange(
            pos as int,
            i as int,
        ));
    }
    let tok = copy_range(input, pos, i);
    Ok((tok, i))
}

/// Parses one term at `pos`: quoted if a quote character stands there,
/// unquoted otherwise.
fn term(input: &Vec<u8>, pos: usize) -> (r: Result<(Vec<u8>, usize), ParseError>)
    requires
        pos <= input@.len(),
    ensures
        term_result_matches(r, spec_term(input@.skip(pos as int)), pos as int),
        (r matches Ok((_, j)) ==> pos < j <= input@.len()),
{
    if pos < input.len() && is_quote(input[pos]) {
        quoted_string(input, pos)
    } else {
        unquoted_string(input, pos)
    }
}

/// Parses the tag of an element header: an unquoted term.
pub fn element_tag(input: &Vec<u8>, pos: usize) -> (r: Result<(Vec<u8>, usize), ParseError>)
    requires
        pos <= input@.len(),
    ensures
        term_result_matches(r, spec_unquoted(input@.skip(pos as int)), pos as int),
        (r matches Ok((_, j)) ==> pos < j <= input@.len()),
{
    unquoted_string(input, pos)
}

/// Parses zero or more further terms at `pos`, each preceded by one or more
/// spaces; stops before trailing spaces, a line break, or the end.
fn more_terms(input: &Vec<u8>, pos: usize) -> (r: Result<(Vec<Vec<u8>>, usize), ParseError>)
    requires
        pos <= input@.len(),
    ensures
        list_result_matches(r, spec_more_terms(input@.skip(pos as int)), pos as int),
        (r matches Ok((_, j)) ==> pos <= j <= input@.len()),
{
    let mut acc: Vec<Vec<u8>> = Vec::new();
    let mut cur: usize = pos;
    loop
        invariant
            pos <= cur <= input@.len(),
            (match spec_more_terms(input@.skip(cur as int)) {
                Ok((ts, m)) => spec_more_terms(input@.skip(pos as int)) == Ok::<
                    (Seq<Seq<u8>>, int),
                    ParseError,
                >((deep_tokens(acc@) + ts, (cur - pos) + m)),
                Err(e) => spec_more_terms(input@.skip(pos as int)) == Err::<
                    (Seq<Seq<u8>>, int),
                    ParseError,
                >(e),
            }),
        decreases input@.len() - cur,
    {
        let ghost sc = input@.skip(cur as int);
        let k = skip_spaces(input, cur);
        if k == cur || k == input.len() {
            proof {
                assert(spec_more_terms(sc) == Ok::<(Seq<Seq<u8>>, int), ParseError>((
                    Seq::empty(),
                    0,
                )));
                assert(deep_tokens(acc@) + Seq::<Seq<u8>>::empty() =~= deep_tokens(acc@));
            }
            return Ok((acc, cur));
        }
        let c = input[k];
        if c == B_LF || c == B_CR {
            proof {
                assert(sc[k - cur] == input@[k as int]);
                assert(spec_more_terms(sc) == Ok::<(Seq<Seq<u8>>, int), ParseError>((
                    Seq::empty(),
                    0,
                )));
                assert(deep_tokens(acc@) + Seq::<Seq<u8>>::empty() =~= deep_tokens(acc@));
            }
            return Ok((acc, cur));
        }
        proof {
            lemma_skip_skip(input@, cur as int, k - cur);
            assert(sc[k - cur] == input@[k as int]);
        }
        match term(input, k) {
            Err(e) => {
                proof {
                    assert(spec_more_terms(sc) == Err::<(Seq<Seq<u8>>, int), ParseError>(e));
                }
                return Err(e);
            },
            Ok((t, j)) => {
                let ghost acc0 = acc@;
                let ghost cur0 = cur as int;
                acc.push(t);
                cur = j;
                proof {
                    lemma_skip_skip(input@, cur0, j - cur0);
                    assert(deep_tokens(acc@) =~= deep_tokens(acc0) + seq![t@]);
                    match spec_more_terms(input@.skip(j as int)) {
                        Ok((ts2, m2)) => {
                            assert(spec_more_terms(input@.skip(cur0)) == Ok::<
                                (Seq<Seq<u8>>, int),
                                ParseError,
                            >((seq![t@] + ts2, (j - cur0) + m2)));
                            assert((deep_tokens(acc0) + (seq![t@] + ts2)) =~= (deep_tokens(acc0)
                                + seq![t@]) + ts2);
                        },
                        Err(e2) => {
                            assert(spec_more_terms(input@.skip(cur0)) == Err::<
                                (Seq<Seq<u8>>, int),
                                ParseError,
                            >(e2));
                        },
                    }
                }
            },
        }
    }
}

/// Parses one or more space-separated terms at `pos`: one data line.
fn term_list(input: &Vec<u8>, pos: usize) -> (r: Result<(Vec<Vec<u8>>, usize), ParseError>)
    requires
        pos <= input@.len(),
    ensures
        list_result_matches(r, spec_term_list(input@.skip(pos as int)), pos as int),
        (r matches Ok((_, j)) ==> pos < j <= input@.len()),
{
    match term(input, pos) {
        Err(e) => Err(e),
        Ok((t, j)) => {
            proof {
                lemma_skip_skip(input@, pos as int, j - pos);
            }
            match more_terms(input, j) {
                Err(e) => Err(e),
                Ok((rest, j2)) => {
                    let mut tail = rest;
                    let mut out: Vec<Vec<u8>> = Vec::new();
                    out.push(t);
                    let ghost tail0 = tail@;
                    out.append(&mut tail);
                    proof {
                        assert(deep_tokens(out@) =~= seq![t@] + deep_tokens(tail0));
                    }
                    Ok((out, j2))
                },
            }
        },
    }
}

/// Parses a line end at `pos`: optional spaces, then LF or CR LF.
fn line_end(input: &Vec<u8>, pos: usize) -> (r: Option<usize>)
    requires
        pos <= input@.len(),
    ensures
        (match (r, spec_line_end(input@.skip(pos as int))) {
            (Some(j), Some(n)) => j == pos + n && pos < j <= input@.len(),
            (None, None) => true,
            _ => false,
        }),
{
    let k = skip_spaces(input, pos);
    if k < input.len() && input[k] == B_LF {
        Some(k + 1)
    } else if k < input.len() && input[k] == B_CR {
        if k + 1 < input.len() && input[k + 1] == B_LF {
            Some(k + 2)
        } else {
            None
        }
    } else {
        None
    }
}

/// How an executable element parse must relate to its spec counterpart.
pub open spec fn elem_result_matches(
    r: Result<(Element, usize), ParseError>,
    sp: Result<(ElementModel, int), ParseError>,
    pos: int,
    len: int,
) -> bool {
    match (r, sp) {
        (Ok((e, j)), Ok((m, n))) => e.deep() == m && j == pos + n && pos < j <= len,
        (Err(a), Err(b)) => a == b,
        _ => false,
    }
}


/// `deep_children` of a pushed child is the old view plus that child's view.
pub proof fn lemma_deep_children_push(cs: Seq<Child>, c: Child)
    ensures
        deep_children(cs.push(c)) == deep_children(cs) + seq![c.deep()],
{
    assert(deep_children(cs.push(c)) =~= deep_children(cs) + seq![c.deep()]);
}

/// At the end of the input, the children parse fails for want of `>`.
proof fn lemma_children_eof(s: Seq<u8>, cur: int, k: int)
    requires
        0 <= cur <= k,
        k == s.len(),
        k - cur == space_run(s.skip(cur)),
    ensures
        spec_children(s.skip(cur)) == Err::<(Seq<ChildModel>, int), ParseError>(
            ParseError::MissingClosingMarker,
        ),
{
    reveal(spec_children);
}

/// A line holding only `>` after spaces closes the children list.
pub proof fn lemma_children_close(s: Seq<u8>, cur: int, k: int)
    requires
        0 <= cur <= k < s.len(),
        k - cur == space_run(s.skip(cur)),
        s[k] == B_GT,
    ensures
        spec_children(s.skip(cur)) == Ok::<(Seq<ChildModel>, int), ParseError>((
            Seq::empty(),
            (k - cur) + 1,
        )),
{
    reveal(spec_children);
    assert(s.skip(cur)[k - cur] == s[k]);
}

/// A failing nested element fails the children parse with the same error.
proof fn lemma_children_elem_err(s: Seq<u8>, cur: int, k: int, e: ParseError)
    requires
        0 <= cur <= k < s.len(),
        k - cur == space_run(s.skip(cur)),
        s[k] == B_LT,
        spec_element(s.skip(k)) == Err::<(ElementModel, int), ParseError>(e),
    ensures
        spec_children(s.skip(cur)) == Err::<(Seq<ChildModel>, int), ParseError>(e),
{
    reveal(spec_children);
    reveal(spec_element);
    lemma_skip_skip(s, cur, k - cur);
    assert(s.skip(cur)[k - cur] == s[k]);
}

/// A nested element with no line end after it fails the children parse.
proof fn lemma_children_elem_noend(s: Seq<u8>, cur: int, k: int, j: int, md: ElementModel)
    requires
        0 <= cur <= k < s.len(),
        k - cur == space_run(s.skip(cur)),
        s[k] == B_LT,
        spec_element(s.skip(k)) == Ok::<(ElementModel, int), ParseError>((md, j - k)),
        k < j <= s.len(),
        spec_line_end(s.skip(j)) is None,
    ensures
        spec_children(s.skip(cur)) == Err::<(Seq<ChildModel>, int), ParseError>(
            ParseError::MissingClosingMarker,
        ),
{
    reveal(spec_children);
    reveal(spec_element);
    lemma_skip_skip(s, cur, k - cur);
    lemma_skip_skip(s, cur, j - cur);
    assert(s.skip(cur)[k - cur] == s[k]);
}

/// One nested-element child line: the children parse is one element, a line
/// end, and the remaining children.
pub proof fn lemma_children_step_elem(s: Seq<u8>, cur: int, k: int, j: int, m: int, md: ElementModel)
    requires
        0 <= cur <= k < s.len(),
        k - cur == space_run(s.skip(cur)),
        s[k] == B_LT,
        spec_element(s.skip(k)) == Ok::<(ElementModel, int), ParseError>((md, j - k)),
        k < j <= s.len(),
        spec_line_end(s.skip(j)) == Some(m - j),
        j < m <= s.len(),
    ensures
        spec_children(s.skip(cur)) == (match spec_children(s.skip(m)) {
            Ok((cs2, cn2)) => Ok::<(Seq<ChildModel>, int), ParseError>((
                seq![ChildModel::Element(md)] + cs2,
                (m - cur) + cn2,
            )),
            Err(e2) => Err::<(Seq<ChildModel>, int), ParseError>(e2),
        }),
{
    reveal(spec_children);
    reveal(spec_element);
    lemma_skip_skip(s, cur, k - cur);
    lemma_skip_skip(s, cur, j - cur);
    lemma_skip_skip(s, cur, m - cur);
    assert(s.skip(cur)[k - cur] == s[k]);
}

/// A failing term list fails the children parse with the same error.
proof fn lemma_children_line_err(s: Seq<u8>, cur: int, k: int, e: ParseError)
    requires
        0 <= cur <= k < s.len(),
        k - cur == space_run(s.skip(cur)),
        s[k] != B_LT,
        s[k] != B_GT,
        spec_term_list(s.skip(k)) == Err::<(Seq<Seq<u8>>, int), ParseError>(e),
    ensures
        spec_children(s.skip(cur)) == Err::<(Seq<ChildModel>, int), ParseError>(e),
{
    reveal(spec_children);
    lemma_skip_skip(s, cur, k - cur);
    assert(s.skip(cur)[k - cur] == s[k]);
}

/// A term list with no line end after it fails the children parse.
proof fn lemma_children_line_noend(s: Seq<u8>, cur: int, k: int, j: int, ts: Seq<Seq<u8>>)
    requires
        0 <= cur <= k < s.len(),
        k - cur == space_run(s.skip(cur)),
        s[k] != B_LT,
        s[k] != B_GT,
        spec_term_list(s.skip(k)) == Ok::<(Seq<Seq<u8>>, int), ParseError>((ts, j - k)),
        k < j <= s.len(),
        spec_line_end(s.skip(j)) is None,
    ensures
        spec_children(s.skip(cur)) == Err::<(Seq<ChildModel>, int), ParseError>(
            ParseError::MissingClosingMarker,
        ),
{
    reveal(spec_children);
    lemma_skip_skip(s, cur, k - cur);
    lemma_skip_skip(s, cur, j - cur);
    assert(s.skip(cur)[k - cur] == s[k]);
}

/// One data-line child: the children parse is one term list, a line end,
/// and the remaining children.
pub proof fn lemma_children_step_line(s: Seq<u8>, cur: int, k: int, j: int, m: int, ts: Seq<Seq<u8>>)
    requires
        0 <= cur <= k < s.len(),
        k - cur == space_run(s.skip(cur)),
        s[k] != B_LT,
        s[k] != B_GT,
        spec_term_list(s.skip(k)) == Ok::<(Seq<Seq<u8>>, int), ParseError>((ts, j - k)),
        k < j <= s.len(),
        spec_line_end(s.skip(j)) == Some(m - j),
        j < m <= s.len(),
    ensures
        spec_children(s.skip(cur)) == (match spec_children(s.skip(m)) {
            Ok((cs2, cn2)) => Ok::<(Seq<ChildModel>, int), ParseError>((
                seq![ChildModel::Line(ts)] + cs2,
                (m - cur) + cn2,
            )),
            Err(e2) => Err::<(Seq<ChildModel>, int), ParseError>(e2),
        }),
{
    reveal(spec_children);
    lemma_skip_skip(s, cur, k - cur);
    lemma_skip_skip(s, cur, j - cur);
    lemma_skip_skip(s, cur, m - cur);
    assert(s.skip(cur)[k - cur] == s[k]);
}

/// Carrying the children-parse relation one line forward.
proof fn lemma_children_advance(
    s: Seq<u8>,
    lpos: int,
    cur: int,
    m: int,
    done: Seq<ChildModel>,
    c: ChildModel,
)
    requires
        (match spec_children(s.skip(cur)) {
            Ok((cs, cn)) => spec_children(s.skip(lpos)) == Ok::<(Seq<ChildModel>, int), ParseError>(
                (done + cs, (cur - lpos) + cn),
            ),
            Err(e) => spec_children(s.skip(lpos)) == Err::<(Seq<ChildModel>, int), ParseError>(e),
        }),
        spec_children(s.skip(cur)) == (match spec_children(s.skip(m)) {
            Ok((cs2, cn2)) => Ok::<(Seq<ChildModel>, int), ParseError>((
                seq![c] + cs2,
                (m - cur) + cn2,
            )),
            Err(e2) => Err::<(Seq<ChildModel>, int), ParseError>(e2),
        }),
    ensures
        (match spec_children(s.skip(m)) {
            Ok((cs2, cn2)) => spec_children(s.skip(lpos)) == Ok::<
                (Seq<ChildModel>, int),
                ParseError,
            >(((done + seq![c]) + cs2, (m - lpos) + cn2)),
            Err(e2) => spec_children(s.skip(lpos)) == Err::<(Seq<ChildModel>, int), ParseError>(e2),
        }),
{
    match spec_children(s.skip(m)) {
        Ok((cs2, cn2)) => {
            assert(done + (seq![c] + cs2) =~= (done + seq![c]) + cs2);
        },
        Err(e2) => {
        },
    }
}


/// A failing header fails the element parse with the same error.
proof fn lemma_element_err_header(s: Seq<u8>, e: ParseError)
    requires
        spec_header(s) == Err::<((Seq<u8>, Seq<Seq<u8>>), int), ParseError>(e),
    ensures
        spec_element(s) == Err::<(ElementModel, int), ParseError>(e),
{
    reveal(spec_element);
    reveal(spec_header);
}

/// Failing children fail the element parse with the same error.
proof fn lemma_element_err_children(
    s: Seq<u8>,
    tg: Seq<u8>,
    at: Seq<Seq<u8>>,
    h: int,
    e: ParseError,
)
    requires
        spec_header(s) == Ok::<((Seq<u8>, Seq<Seq<u8>>), int), ParseError>(((tg, at), h)),
        0 < h <= s.len(),
        spec_children(s.skip(h)) == Err::<(Seq<ChildModel>, int), ParseError>(e),
    ensures
        spec_element(s) == Err::<(ElementModel, int), ParseError>(e),
{
    reveal(spec_element);
    reveal(spec_header);
    reveal(spec_children);
}

/// A parsed header and parsed children assemble into a parsed element.
pub proof fn lemma_element_assemble(
    s: Seq<u8>,
    tg: Seq<u8>,
    at: Seq<Seq<u8>>,
    h: int,
    cs: Seq<ChildModel>,
    cn: int,
)
    requires
        spec_header(s) == Ok::<((Seq<u8>, Seq<Seq<u8>>), int), ParseError>(((tg, at), h)),
        0 < h <= s.len(),
        spec_children(s.skip(h)) == Ok::<(Seq<ChildModel>, int), ParseError>((cs, cn)),
    ensures
        spec_element(s) == Ok::<(ElementModel, int), ParseError>((
            ElementModel { tag: tg, attr: at, children: cs },
            h + cn,
        )),
{
    reveal(spec_element);
    reveal(spec_header);
    reveal(spec_children);
}

/// How an executable header parse must relate to its spec counterpart.
pub open spec fn header_result_matches(
    r: Result<(Vec<u8>, Vec<Vec<u8>>, usize), ParseError>,
    sp: Result<((Seq<u8>, Seq<Seq<u8>>), int), ParseError>,
    pos: int,
    len: int,
) -> bool {
    match (r, sp) {
        (Ok((tag, attrs, j)), Ok(((tg, at), n))) => tag@ == tg && deep_tokens(attrs@) == at && j
            == pos + n && pos < j <= len,
        (Err(a), Err(b)) => a == b,
        _ => false,
    }
}

/// Parses an element header at `pos`: `<`, the tag, the attribute terms,
/// and the line end; yields the position after the header line.
fn element_header(input: &Vec<u8>, pos: usize) -> (r: Result<
    (Vec<u8>, Vec<Vec<u8>>, usize),
    ParseError,
>)
    requires
        pos <= input@.len(),
    ensures
        header_result_matches(
            r,
            spec_header(input@.skip(pos as int)),
            pos as int,
            input@.len() as int,
        ),
{
    proof {
        reveal(spec_header);
    }
    if pos == input.len() {
        return Err(ParseError::MissingTag);
    }
    if input[pos] != B_LT {
        return Err(ParseError::MissingTag);
    }
    proof {
        lemma_skip_skip(input@, pos as int, 1);
    }
    let (tagv, tpos) = match element_tag(input, pos + 1) {
        Err(_) => {
            return Err(ParseError::MissingTag);
        },
        Ok(v) => v,
    };
    proof {
        lemma_skip_skip(input@, pos as int, tpos - pos);
    }
    let (attrv, apos) = match more_terms(input, tpos) {
        Err(e) => {
            return Err(e);
        },
        Ok(v) => v,
    };
    proof {
        lemma_skip_skip(input@, pos as int, apos - pos);
    }
    let lpos = match line_end(input, apos) {
        None => {
            return Err(ParseError::MissingClosingMarker);
        },
        Some(v) => v,
    };
    Ok((tagv, attrv, lpos))
}

/// Parses one element at `pos`: the header line, the children, and the
/// closing `>`.
#[verifier::loop_isolation(false)]
fn element(input: &Vec<u8>, pos: usize) -> (r: Result<(Element, usize), ParseError>)
    requires
        pos <= input@.len(),
    ensures
        elem_result_matches(r, spec_element(input@.skip(pos as int)), pos as int, input@.len() as int),
    decreases input@.len() - pos,
{
    let ghost s0 = input@.skip(pos as int);
    let (tagv, attrv, lpos) = match element_header(input, pos) {
        Err(e) => {
            proof {
                lemma_element_err_header(s0, e);
            }
            return Err(e);
        },
        Ok(v) => v,
    };
    proof {
        lemma_skip_skip(input@, pos as int, lpos - pos);
    }
    let mut children: Vec<Child> = Vec::new();
    let mut cur: usize = lpos;
    loop
        invariant
            lpos <= cur <= input@.len(),
            (match spec_children(input@.skip(cur as int)) {
                Ok((cs, cn)) => spec_children(input@.skip(lpos as int)) == Ok::<
                    (Seq<ChildModel>, int),
                    ParseError,
                >((deep_children(children@) + cs, (cur - lpos) + cn)),
                Err(e) => spec_children(input@.skip(lpos as int)) == Err::<
                    (Seq<ChildModel>, int),
                    ParseError,
                >(e),
            }),
        decreases input@.len() - cur,
    {
        let k = skip_spaces(input, cur);
        if k == input.len() {
            proof {
                lemma_children_eof(input@, cur as int, k as int);
                lemma_element_err_children(
                    s0,
                    tagv@,
                    deep_tokens(attrv@),
                    lpos - pos,
                    ParseError::MissingClosingMarker,
                );
            }
            return Err(ParseError::MissingClosingMarker);
        }
        if input[k] == B_GT {
            proof {
                lemma_children_close(input@, cur as int, k as int);
                assert(deep_children(children@) + Seq::<ChildModel>::empty() =~= deep_children(
                    children@,
                ));
                lemma_element_assemble(
                    s0,
                    tagv@,
                    deep_tokens(attrv@),
                    lpos - pos,
                    deep_children(children@),
                    (cur - lpos) + (k - cur) + 1,
                );
            }
            let e = Element { tag: tagv, attr: attrv, children };
            return Ok((e, k + 1));
        }
        if input[k] == B_LT {
            proof {
                lemma_skip_skip(input@, cur as int, k - cur);
            }
            match element(input, k) {
                Err(e) => {
                    proof {
                        lemma_children_elem_err(input@, cur as int, k as int, e);
                        lemma_element_err_children(s0, tagv@, deep_tokens(attrv@), lpos - pos, e);
                    }
                    return Err(e);
                },
                Ok((ce, j)) => {
                    proof {
                        lemma_skip_skip(input@, cur as int, j - cur);
                    }
                    match line_end(input, j) {
                        None => {
                            proof {
                                lemma_children_elem_noend(
                                    input@,
                                    cur as int,
                                    k as int,
                                    j as int,
                                    ce.deep(),
                                );
                                lemma_element_err_children(
                                    s0,
                                    tagv@,
                                    deep_tokens(attrv@),
                                    lpos - pos,
                                    ParseError::MissingClosingMarker,
                                );
                            }
                            return Err(ParseError::MissingClosingMarker);
                        },
                        Some(m) => {
                            let ghost ch0 = children@;
                            let ghost cur0 = cur as int;
                            let ghost cm = ChildModel::Element(ce.deep());
                            proof {
                                lemma_children_step_elem(
                                    input@,
                                    cur0,
                                    k as int,
                                    j as int,
                                    m as int,
                                    ce.deep(),
                                );
                                lemma_children_advance(
                                    input@,
                                    lpos as int,
                                    cur0,
                                    m as int,
                                    deep_children(ch0),
                                    cm,
                                );
                            }
                            children.push(Child::Element(ce));
                            cur = m;
                            proof {
                                lemma_deep_children_push(ch0, Child::Element(ce));
                            }
                        },
                    }
                },
            }
        } else {
            proof {
                lemma_skip_skip(input@, cur as int, k - cur);
            }
            match term_list(input, k) {
                Err(e) => {
                    proof {
                        lemma_children_line_err(input@, cur as int, k as int, e);
                        lemma_element_err_children(s0, tagv@, deep_tokens(attrv@), lpos - pos, e);
                    }
                    return Err(e);
                },
                Ok((toks, j)) => {
                    proof {
                        lemma_skip_skip(input@, cur as int, j - cur);
                    }
                    match line_end(input, j) {
                        None => {
                            proof {
                                lemma_children_line_noend(
                                    input@,
                                    cur as int,
                                    k as int,
                                    j as int,
                                    deep_tokens(toks@),
                                );
                                lemma_element_err_children(
                                    s0,
                                    tagv@,
                                    deep_tokens(attrv@),
                                    lpos - pos,
                                    ParseError::MissingClosingMarker,
                                );
                            }
                            return Err(ParseError::MissingClosingMarker);
                        },
                        Some(m) => {
                            let ghost ch0 = children@;
                            let ghost cur0 = cur as int;
                            let ghost cm = ChildModel::Line(deep_tokens(toks@));
                            proof {
                                lemma_children_step_line(
                                    input@,
                                    cur0,
                                    k as int,
                                    j as int,
                                    m as int,
                                    deep_tokens(toks@),
                                );
                                lemma_children_advance(
                                    input@,
                                    lpos as int,
                                    cur0,
                                    m as int,
                                    deep_children(ch0),
                                    cm,
                                );
                            }
                            children.push(Child::Line(toks));
                            cur = m;
                            proof {
                                lemma_deep_children_push(ch0, Child::Line(toks));
                            }
                        },
                    }
                },
            }
        }
    }
}

/// Parses a whole document: one top-level element, optionally surrounded by
/// blank bytes. The entire input must be consumed.
pub fn parse_element(input: &Vec<u8>) -> (r: Result<Element, ParseError>)
    ensures
        (match (r, spec_parse_document(input@)) {
            (Ok(e), Ok(m)) => e.deep() == m,
            (Err(a), Err(b)) => a == b,
            _ => false,
        }),
{
    proof {
        assert(input@.skip(0) =~= input@);
    }
    let k = skip_blanks(input, 0);
    match element(input, k) {
        Err(e) => Err(e),
        Ok((e, j)) => {
            let m = skip_blanks(input, j);
            if m == input.len() {
                Ok(e)
            } else {
                Err(ParseError::TrailingContent)
            }
        },
    }
}

} // verus!
