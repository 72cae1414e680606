//! Parsing source text into syntax trees.
//!
//! The text is read as a sequence of characters. Positions in it count characters; the `at`
//! of a node or an error counts bytes of the UTF-8 text, and `byte_offset` relates the two.
use vstd::prelude::*;

use crate::text::{
    byte_len, byte_offset, chars_of, digit, fits, is_digit, is_space, lemma_byte_offset_bound,
    lemma_byte_offset_grows, lemma_byte_offset_step, space, text_of, width,
};

verus! {

/// A syntax tree node; `at` is the byte offset of its first character in the source.
#[derive(Debug, PartialEq, Eq)]
pub enum Node {
    /// A parenthesised form and its elements; `at` is the offset of its `(`.
    Form { payload: Vec<Node>, at: usize },
    /// A bare name.
    Identifier { payload: String, at: usize },
    /// An integer literal.
    Integer { payload: i64, at: usize },
    /// A string literal, without its quotes; `at` is the offset of its opening quote.
    String { payload: String, at: usize },
}

/// Why a text could not be parsed; `at` is the byte offset where the trouble starts.
#[derive(Debug, PartialEq, Eq, Clone, Copy)]
pub enum ParseError {
    /// A form opened at `at` is never closed.
    UnexpectedEndOfInput { at: usize },
    /// The token at `at` starts with a digit but is no `i64` literal.
    FailedToParseInteger { at: usize },
    /// An identifier was expected at `at`, but no character of one stands there.
    NoIdentifier { at: usize },
    /// A `)` at `at` closes no form.
    UnbalancedParentheses { at: usize },
}

/// The mathematical form of a [`Node`].
pub enum Syntax {
    Form { elements: Seq<Syntax>, at: nat },
    Identifier { text: Seq<char>, at: nat },
    Integer { value: i64, at: nat },
    String { text: Seq<char>, at: nat },
}

/// The mathematical form of a node.
pub open spec fn syntax_of(n: Node) -> Syntax
    decreases n,
{
    match n {
        Node::Form { payload, at } => Syntax::Form { elements: syntax_seq(payload@), at: at as nat },
        Node::Identifier { payload, at } => Syntax::Identifier { text: payload@, at: at as nat },
        Node::Integer { payload, at } => Syntax::Integer { value: payload, at: at as nat },
        Node::String { payload, at } => Syntax::String { text: payload@, at: at as nat },
    }
}

/// The mathematical form of a sequence of nodes, element by element.
pub open spec fn syntax_seq(s: Seq<Node>) -> Seq<Syntax>
    decreases s,
{
    if s.len() == 0 {
        seq![]
    } else {
        syntax_seq(s.subrange(0, s.len() - 1)).push(syntax_of(s[s.len() - 1]))
    }
}

impl View for Node {
    type V = Syntax;

    open spec fn view(&self) -> Syntax {
        syntax_of(*self)
    }
}

/// The kinds of character run that the lexer reads.
pub enum Run {
    /// White space between tokens.
    Space,
    /// The text of an integer or identifier token: anything up to white space or `)`.
    Token,
    /// The inside of a string literal: anything up to `"`.
    Quoted,
}

/// Whether `c` continues a run of kind `r`.
pub open spec fn in_run(r: Run, c: char) -> bool {
    match r {
        Run::Space => is_space(c),
        Run::Token => !is_space(c) && c != ')',
        Run::Quoted => c != '"',
    }
}

/// The position where the run of kind `r` that starts at position `i` of `s` ends.
pub open spec fn run_end(s: Seq<char>, i: int, r: Run) -> int
    decreases s.len() - i,
{
    if 0 <= i < s.len() && in_run(r, s[i]) {
        run_end(s, i + 1, r)
    } else {
        i
    }
}

/// A run holds only characters of its kind, and stops at the end or at one of another kind.
pub proof fn lemma_run_end(s: Seq<char>, i: int, r: Run)
    requires
        0 <= i <= s.len(),
    ensures
        i <= run_end(s, i, r) <= s.len(),
        forall|k: int| i <= k < run_end(s, i, r) ==> in_run(r, #[trigger] s[k]),
        run_end(s, i, r) < s.len() ==> !in_run(r, s[run_end(s, i, r)]),
    decreases s.len() - i,
{
    if i < s.len() && in_run(r, s[i]) {
        lemma_run_end(s, i + 1, r);
    }
}

/// Whether `c` continues a run of kind `r`.
fn continues(r: &Run, c: char) -> (b: bool)
    ensures
        b == in_run(*r, c),
{
    match r {
        Run::Space => space(c),
        Run::Token => !space(c) && c != ')',
        Run::Quoted => c != '"',
    }
}

/// Reads the run of kind `r` that starts at character position `i`, whose byte offset is
/// `b`; returns the position where it ends and that position's byte offset.
fn scan(s: &Vec<char>, i: usize, b: usize, r: Run) -> (e: (usize, usize))
    requires
        i <= s.len(),
        b == byte_offset(s@, i as int),
        fits(s@),
    ensures
        e.0 == run_end(s@, i as int, r),
        e.0 <= s.len(),
        e.1 == byte_offset(s@, e.0 as int),
{
    let mut j = i;
    let mut c = b;
    while j < s.len() && continues(&r, s[j])
        invariant
            i <= j <= s.len(),
            c == byte_offset(s@, j as int),
            fits(s@),
            run_end(s@, j as int, r) == run_end(s@, i as int, r),
        decreases s.len() - j,
    {
        proof {
            lemma_byte_offset_step(s@, j as int);
            lemma_byte_offset_bound(s@, j + 1);
        }
        c = c + width(s[j]);
        j = j + 1;
    }
    (j, c)
}

/// The value of a run of decimal digits.
pub open spec fn digits_value(d: Seq<char>) -> int
    decreases d.len(),
{
    if d.len() == 0 {
        0
    } else {
        10 * digits_value(d.drop_last()) + (d.last() as u32 - '0' as u32)
    }
}

/// `d` is a non-empty run of decimal digits.
pub open spec fn all_digits(d: Seq<char>) -> bool {
    d.len() > 0 && forall|k: int| 0 <= k < d.len() ==> is_digit(#[trigger] d[k])
}

/// The integer that `t` writes in decimal, with an optional `+` or `-` in front.
pub open spec fn literal_value(t: Seq<char>) -> Option<int> {
    if t.len() > 0 && (t[0] == '+' || t[0] == '-') {
        let d = t.subrange(1, t.len() as int);
        if all_digits(d) {
            Some(
                if t[0] == '-' {
                    -digits_value(d)
                } else {
                    digits_value(d)
                },
            )
        } else {
            None
        }
    } else if all_digits(t) {
        Some(digits_value(t))
    } else {
        None
    }
}

/// The `i64` that `t` writes, if it writes one in range.
pub open spec fn integer_of(t: Seq<char>) -> Option<i64> {
    match literal_value(t) {
        Some(v) => if i64::MIN <= v <= i64::MAX {
            Some(v as i64)
        } else {
            None
        },
        None => None,
    }
}

/// The `i64` that characters `from..to` of `s` write in decimal.
fn read_integer(s: &Vec<char>, from: usize, to: usize) -> (r: Option<i64>)
    requires
        from <= to <= s.len(),
    ensures
        r == integer_of(s@.subrange(from as int, to as int)),
{
    let ghost t = s@.subrange(from as int, to as int);
    let mut negative = false;
    let mut start = from;
    if from < to && (s[from] == '+' || s[from] == '-') {
        negative = s[from] == '-';
        start = from + 1;
    }
    proof {
        if start > from {
            assert(t.subrange(1, t.len() as int) =~= s@.subrange(start as int, to as int));
        } else {
            assert(t =~= s@.subrange(start as int, to as int));
        }
    }
    if start == to {
        return None;
    }
    // the magnitude read so far, exact while it is at most 2^63
    let mut acc: u64 = 0;
    let mut over = false;
    let mut k = start;
    while k < to
        invariant
            from <= start < to <= s.len(),
            t == s@.subrange(from as int, to as int),
            start > from ==> start == from + 1 && (t[0] == '+' || t[0] == '-') && negative == (t[0]
                == '-') && t.subrange(1, t.len() as int) == s@.subrange(start as int, to as int),
            start == from ==> !(t[0] == '+' || t[0] == '-') && t == s@.subrange(
                start as int,
                to as int,
            ),
            start <= k <= to,
            forall|m: int| start <= m < k ==> is_digit(#[trigger] s@[m]),
            digits_value(s@.subrange(start as int, k as int)) >= 0,
            !over ==> acc == digits_value(s@.subrange(start as int, k as int)),
            !over ==> acc <= 0x8000_0000_0000_0000,
            over ==> digits_value(s@.subrange(start as int, k as int)) > 0x8000_0000_0000_0000,
        decreases to - k,
    {
        let c = s[k];
        if !digit(c) {
            proof {
                assert(s@.subrange(start as int, to as int)[k - start] == c);
                assert(!is_digit(s@.subrange(start as int, to as int)[k - start]));
            }
            return None;
        }
        let d = (c as u32 - '0' as u32) as u64;
        proof {
            assert(s@.subrange(start as int, k + 1).drop_last() =~= s@.subrange(
                start as int,
                k as int,
            ));
        }
        if !over {
            if acc > 922_337_203_685_477_580 {
                over = true;
            } else {
                acc = acc * 10 + d;
                if acc > 0x8000_0000_0000_0000 {
                    over = true;
                }
            }
        }
        k = k + 1;
    }
    proof {
        assert forall|m: int| 0 <= m < s@.subrange(start as int, to as int).len() implies is_digit(
            #[trigger] s@.subrange(start as int, to as int)[m],
        ) by {
            assert(s@[start + m] == s@.subrange(start as int, to as int)[m]);
        }
    }
    if over {
        None
    } else if negative {
        if acc == 0x8000_0000_0000_0000 {
            Some(i64::MIN)
        } else {
            Some(-(acc as i64))
        }
    } else if acc <= 0x7fff_ffff_ffff_ffff {
        Some(acc as i64)
    } else {
        None
    }
}

/// The integer token that starts at position `i` of `s`, with the position after it.
pub open spec fn spec_int(s: Seq<char>, i: int) -> Result<(Syntax, int), ParseError> {
    let e = run_end(s, i, Run::Token);
    match integer_of(s.subrange(i, e)) {
        Some(v) => Ok((Syntax::Integer { value: v, at: byte_offset(s, i) }, e)),
        None => Err(ParseError::FailedToParseInteger { at: byte_offset(s, i) as usize }),
    }
}

/// The string literal whose opening quote stands at position `i` of `s`, with the position
/// after its closing quote. A literal that is never closed runs into the end of the text.
pub open spec fn spec_str(s: Seq<char>, i: int) -> Result<(Syntax, int), ParseError> {
    let e = run_end(s, i + 1, Run::Quoted);
    if e < s.len() {
        Ok((Syntax::String { text: s.subrange(i + 1, e), at: byte_offset(s, i) }, e + 1))
    } else {
        Err(ParseError::UnexpectedEndOfInput { at: byte_offset(s, i) as usize })
    }
}

/// The identifier that starts at position `i` of `s`, with the position after it.
pub open spec fn spec_identifier(s: Seq<char>, i: int) -> Result<(Syntax, int), ParseError> {
    let e = run_end(s, i, Run::Token);
    if e == i {
        Err(ParseError::NoIdentifier { at: byte_offset(s, i) as usize })
    } else {
        Ok((Syntax::Identifier { text: s.subrange(i, e), at: byte_offset(s, i) }, e))
    }
}

/// Reads the elements of a form from position `i` of `s` on, after those already read
/// (`acc`), and gives all of them with the position after the form. The form was opened by
/// the `(` at position `open`; at top level (`outer`) no `)` closes it, and its elements run
/// to the end of the text.
///
/// An element always ends after it starts; the test on that only lets the definition be seen
/// to terminate, and never fails.
pub open spec fn spec_form(s: Seq<char>, i: int, open: int, outer: bool, acc: Seq<Syntax>) -> Result<
    (Seq<Syntax>, int),
    ParseError,
>
    decreases s.len() - i,
{
    let j = run_end(s, i, Run::Space);
    proof {
        if 0 <= i <= s.len() {
            lemma_run_end(s, i, Run::Space);
        }
    }
    if j >= s.len() {
        if outer {
            Ok((acc, j))
        } else {
            Err(ParseError::UnexpectedEndOfInput { at: byte_offset(s, open) as usize })
        }
    } else if s[j] == ')' {
        if outer {
            Err(ParseError::UnbalancedParentheses { at: byte_offset(s, j) as usize })
        } else {
            Ok((acc, j + 1))
        }
    } else {
        let item = if s[j] == '(' {
            match spec_form(s, j + 1, j, false, seq![]) {
                Ok((elements, k)) => Ok((Syntax::Form { elements, at: byte_offset(s, j) }, k)),
                Err(e) => Err(e),
            }
        } else if is_digit(s[j]) {
            spec_int(s, j)
        } else if s[j] == '"' {
            spec_str(s, j)
        } else {
            spec_identifier(s, j)
        };
        match item {
            Ok((n, k)) => if j < k <= s.len() {
                spec_form(s, k, open, outer, acc.push(n))
            } else {
                Err(ParseError::UnexpectedEndOfInput { at: byte_offset(s, j) as usize })
            },
            Err(e) => Err(e),
        }
    }
}

/// The top-level nodes of the text `s`, in order.
pub open spec fn spec_parse(s: Seq<char>) -> Result<Seq<Syntax>, ParseError> {
    match spec_form(s, 0, 0, true, seq![]) {
        Ok((elements, _)) => Ok(elements),
        Err(e) => Err(e),
    }
}

/// The mathematical form of a parse result.
pub open spec fn parsed(r: Result<Vec<Node>, ParseError>) -> Result<Seq<Syntax>, ParseError> {
    match r {
        Ok(v) => Ok(syntax_seq(v@)),
        Err(e) => Err(e),
    }
}

/// `r`, a token read in `s` with the position and the byte offset after it, is the executable
/// form of `m`.
pub open spec fn agrees(
    s: Seq<char>,
    r: Result<(Node, usize, usize), ParseError>,
    m: Result<(Syntax, int), ParseError>,
) -> bool {
    match r {
        Ok((n, k, kb)) => m == Ok::<(Syntax, int), ParseError>((n@, k as int)) && kb == byte_offset(
            s,
            k as int,
        ),
        Err(e) => m == Err::<(Syntax, int), ParseError>(e),
    }
}

/// The mathematical form of a sequence of nodes holds the form of each, in order.
pub proof fn lemma_syntax_seq(v: Seq<Node>)
    ensures
        syntax_seq(v).len() == v.len(),
        forall|k: int| 0 <= k < v.len() ==> #[trigger] syntax_seq(v)[k] == v[k]@,
    decreases v.len(),
{
    if v.len() > 0 {
        lemma_syntax_seq(v.subrange(0, v.len() - 1));
    }
}

/// Appending a node appends its mathematical form.
pub proof fn lemma_syntax_push(v: Seq<Node>, n: Node)
    ensures
        syntax_seq(v.push(n)) == syntax_seq(v).push(n@),
{
    assert(v.push(n).subrange(0, v.len() as int) =~= v);
}

/// Reads the integer token at position `i`, whose byte offset is `b`.
fn int_at(s: &Vec<char>, i: usize, b: usize) -> (r: Result<(Node, usize, usize), ParseError>)
    requires
        i <= s.len(),
        b == byte_offset(s@, i as int),
        fits(s@),
    ensures
        agrees(s@, r, spec_int(s@, i as int)),
{
    let (e, eb) = scan(s, i, b, Run::Token);
    proof {
        lemma_run_end(s@, i as int, Run::Token);
    }
    match read_integer(s, i, e) {
        Some(v) => Ok((Node::Integer { payload: v, at: b }, e, eb)),
        None => Err(ParseError::FailedToParseInteger { at: b }),
    }
}

/// Reads the string literal whose opening quote is at position `i`, whose byte offset is `b`.
fn str_at(s: &Vec<char>, i: usize, b: usize) -> (r: Result<(Node, usize, usize), ParseError>)
    requires
        i <= s.len(),
        b == byte_offset(s@, i as int),
        fits(s@),
    ensures
        agrees(s@, r, spec_str(s@, i as int)),
{
    if i >= s.len() {
        return Err(ParseError::UnexpectedEndOfInput { at: b });
    }
    proof {
        lemma_byte_offset_step(s@, i as int);
        lemma_byte_offset_bound(s@, i + 1);
    }
    let (e, eb) = scan(s, i + 1, b + width(s[i]), Run::Quoted);
    proof {
        lemma_run_end(s@, i + 1, Run::Quoted);
    }
    if e < s.len() {
        proof {
            lemma_byte_offset_step(s@, e as int);
            lemma_byte_offset_bound(s@, e + 1);
        }
        let text = text_of(s, i + 1, e);
        Ok((Node::String { payload: text, at: b }, e + 1, eb + width(s[e])))
    } else {
        Err(ParseError::UnexpectedEndOfInput { at: b })
    }
}

/// Reads the identifier at position `i`, whose byte offset is `b`.
fn identifier_at(s: &Vec<char>, i: usize, b: usize) -> (r: Result<(Node, usize, usize), ParseError>)
    requires
        i <= s.len(),
        b == byte_offset(s@, i as int),
        fits(s@),
    ensures
        agrees(s@, r, spec_identifier(s@, i as int)),
{
    let (e, eb) = scan(s, i, b, Run::Token);
    proof {
        lemma_run_end(s@, i as int, Run::Token);
    }
    if e == i {
        Err(ParseError::NoIdentifier { at: b })
    } else {
        let text = text_of(s, i, e);
        Ok((Node::Identifier { payload: text, at: b }, e, eb))
    }
}

/// Reads the elements of a form from position `i` (byte offset `b`) on; see [`spec_form`].
/// `open_b` is the byte offset of the form's `(`.
fn parse_form(s: &Vec<char>, i: usize, b: usize, open: usize, open_b: usize, outer: bool) -> (r:
    Result<(Vec<Node>, usize, usize), ParseError>)
    requires
        i <= s.len(),
        b == byte_offset(s@, i as int),
        open_b == byte_offset(s@, open as int),
        fits(s@),
    ensures
        match r {
            Ok((v, k, kb)) => {
                &&& spec_form(s@, i as int, open as int, outer, seq![]) == Ok::<
                    (Seq<Syntax>, int),
                    ParseError,
                >((syntax_seq(v@), k as int))
                &&& kb == byte_offset(s@, k as int)
                &&& k <= s.len()
                &&& !outer ==> i < k
            },
            Err(e) => spec_form(s@, i as int, open as int, outer, seq![]) == Err::<
                (Seq<Syntax>, int),
                ParseError,
            >(e),
        },
    decreases s.len() - i,
{
    let mut nodes: Vec<Node> = Vec::new();
    let mut pos = i;
    let mut pb = b;
    assert(syntax_seq(nodes@) =~= seq![]);
    loop
        invariant
            i <= pos <= s.len(),
            pb == byte_offset(s@, pos as int),
            open_b == byte_offset(s@, open as int),
            fits(s@),
            spec_form(s@, pos as int, open as int, outer, syntax_seq(nodes@)) == spec_form(
                s@,
                i as int,
                open as int,
                outer,
                seq![],
            ),
        decreases s.len() - pos,
    {
        let (j, jb) = scan(s, pos, pb, Run::Space);
        proof {
            lemma_run_end(s@, pos as int, Run::Space);
        }
        if j >= s.len() {
            if outer {
                return Ok((nodes, j, jb));
            } else {
                return Err(ParseError::UnexpectedEndOfInput { at: open_b });
            }
        }
        let c = s[j];
        proof {
            lemma_byte_offset_step(s@, j as int);
            lemma_byte_offset_bound(s@, j + 1);
        }
        if c == ')' {
            if outer {
                return Err(ParseError::UnbalancedParentheses { at: jb });
            } else {
                return Ok((nodes, j + 1, jb + width(c)));
            }
        }
        let item = if c == '(' {
            match parse_form(s, j + 1, jb + width(c), j, jb, false) {
                Ok((elements, k, kb)) => Ok((Node::Form { payload: elements, at: jb }, k, kb)),
                Err(e) => Err(e),
            }
        } else if digit(c) {
            int_at(s, j, jb)
        } else if c == '"' {
            str_at(s, j, jb)
        } else {
            identifier_at(s, j, jb)
        };
        proof {
            lemma_run_end(s@, j as int, Run::Token);
            lemma_run_end(s@, j + 1, Run::Token);
            lemma_run_end(s@, j + 1, Run::Quoted);
        }
        match item {
            Ok((n, k, kb)) => {
                proof {
                    lemma_syntax_push(nodes@, n);
                }
                nodes.push(n);
                pos = k;
                pb = kb;
            },
            Err(e) => {
                return Err(e);
            },
        }
    }
}

/// Parses `input` into its top-level nodes, in order.
pub fn parse(input: &str) -> (r: Result<Vec<Node>, ParseError>)
    ensures
        parsed(r) == spec_parse(input@),
{
    let s = chars_of(input);
    byte_len(input);
    proof {
        lemma_byte_offset_bound(s@, 0);
    }
    match parse_form(&s, 0, 0, 0, 0, true) {
        Ok((nodes, _, _)) => Ok(nodes),
        Err(e) => Err(e),
    }
}

/// The byte offset at which a node starts.
pub open spec fn offset_of(n: Syntax) -> nat {
    match n {
        Syntax::Form { at, .. } => at,
        Syntax::Identifier { at, .. } => at,
        Syntax::Integer { at, .. } => at,
        Syntax::String { at, .. } => at,
    }
}

/// The byte offset at which `node` starts.
pub fn at(node: &Node) -> (r: usize)
    ensures
        r == offset_of(node@),
{
    match node {
        Node::Form { at, .. } => *at,
        Node::Identifier { at, .. } => *at,
        Node::Integer { at, .. } => *at,
        Node::String { at, .. } => *at,
    }
}

/// `b` is the byte offset of a character boundary of `s`.
pub open spec fn is_boundary(s: Seq<char>, b: int) -> bool {
    exists|i: int| 0 <= i <= s.len() && byte_offset(s, i) == b
}

/// `r`, a token read in `s` with the byte offset after it, is the executable form of `m`.
pub open spec fn token_agrees(
    s: Seq<char>,
    r: Result<(Node, usize), ParseError>,
    m: Result<(Syntax, int), ParseError>,
) -> bool {
    match r {
        Ok((n, kb)) => m matches Ok((x, k)) && x == n@ && kb == byte_offset(s, k),
        Err(e) => m == Err::<(Syntax, int), ParseError>(e),
    }
}

/// Distinct positions have distinct byte offsets.
pub proof fn lemma_byte_offset_injective(s: Seq<char>, i: int, j: int)
    requires
        0 <= i <= s.len(),
        0 <= j <= s.len(),
        byte_offset(s, i) == byte_offset(s, j),
    ensures
        i == j,
{
    if i < j {
        lemma_byte_offset_grows(s, i, j);
    } else if j < i {
        lemma_byte_offset_grows(s, j, i);
    }
}

/// The position of the character that starts at byte offset `offset`.
fn position_of(s: &Vec<char>, offset: usize) -> (r: usize)
    requires
        is_boundary(s@, offset as int),
        fits(s@),
    ensures
        r <= s.len(),
        byte_offset(s@, r as int) == offset,
{
    let ghost target = choose|i: int| 0 <= i <= s@.len() && byte_offset(s@, i) == offset;
    proof {
        lemma_byte_offset_bound(s@, 0);
    }
    let n = s.len();
    let mut j: usize = 0;
    let mut c: usize = 0;
    while c < offset
        invariant
            0 <= target <= n == s@.len(),
            byte_offset(s@, target) == offset,
            j <= target,
            c == byte_offset(s@, j as int),
            fits(s@),
        decreases target - j,
    {
        proof {
            if target <= j {
                lemma_byte_offset_grows(s@, target, j as int);
            }
            lemma_byte_offset_step(s@, j as int);
            lemma_byte_offset_grows(s@, j + 1, target);
        }
        c = c + width(s[j]);
        j = j + 1;
    }
    proof {
        if j < target {
            lemma_byte_offset_grows(s@, j as int, target);
            lemma_byte_offset_step(s@, j as int);
        }
    }
    j
}

/// Reads the integer token that starts at byte offset `offset` of `input`, and gives it with
/// the byte offset after it.
pub fn parse_int(input: &str, offset: usize) -> (r: Result<(Node, usize), ParseError>)
    requires
        is_boundary(input@, offset as int),
    ensures
        forall|i: int|
            0 <= i <= input@.len() && #[trigger] byte_offset(input@, i) == offset ==> token_agrees(
                input@,
                r,
                spec_int(input@, i),
            ),
{
    let s = chars_of(input);
    byte_len(input);
    let i = position_of(&s, offset);
    let r = int_at(&s, i, offset);
    proof {
        assert forall|k: int| 0 <= k <= input@.len() && #[trigger] byte_offset(input@, k) == offset implies k == i by {
            lemma_byte_offset_injective(input@, k, i as int);
        }
    }
    match r {
        Ok((n, _, kb)) => Ok((n, kb)),
        Err(e) => Err(e),
    }
}

/// Reads the string literal whose opening quote stands at byte offset `offset` of `input`,
/// and gives it with the byte offset after its closing quote.
pub fn parse_str(input: &str, offset: usize) -> (r: Result<(Node, usize), ParseError>)
    requires
        is_boundary(input@, offset as int),
    ensures
        forall|i: int|
            0 <= i <= input@.len() && #[trigger] byte_offset(input@, i) == offset ==> token_agrees(
                input@,
                r,
                spec_str(input@, i),
            ),
{
    let s = chars_of(input);
    byte_len(input);
    let i = position_of(&s, offset);
    let r = str_at(&s, i, offset);
    proof {
        assert forall|k: int| 0 <= k <= input@.len() && #[trigger] byte_offset(input@, k) == offset implies k == i by {
            lemma_byte_offset_injective(input@, k, i as int);
        }
    }
    match r {
        Ok((n, _, kb)) => Ok((n, kb)),
        Err(e) => Err(e),
    }
}

/// Reads the identifier that starts at byte offset `offset` of `input`, and gives it with the
/// byte offset after it.
pub fn parse_identifier(input: &str, offset: usize) -> (r: Result<(Node, usize), ParseError>)
    requires
        is_boundary(input@, offset as int),
    ensures
        forall|i: int|
            0 <= i <= input@.len() && #[trigger] byte_offset(input@, i) == offset ==> token_agrees(
                input@,
                r,
                spec_identifier(input@, i),
            ),
{
    let s = chars_of(input);
    byte_len(input);
    let i = position_of(&s, offset);
    let r = identifier_at(&s, i, offset);
    proof {
        assert forall|k: int| 0 <= k <= input@.len() && #[trigger] byte_offset(input@, k) == offset implies k == i by {
            lemma_byte_offset_injective(input@, k, i as int);
        }
    }
    match r {
        Ok((n, _, kb)) => Ok((n, kb)),
        Err(e) => Err(e),
    }
}

/// Node `n` stands in `s` at its byte offset: from some position `i` with that offset, the
/// text spells the node (and, for a form, each of its elements stands in `s` too).
pub open spec fn located(s: Seq<char>, n: Syntax) -> bool
    decreases n,
{
    exists|i: int|
        0 <= i < s.len() && #[trigger] byte_offset(s, i) == offset_of(n) && match n {
            Syntax::Identifier { text, .. } => i + text.len() <= s.len() && s.subrange(
                i,
                i + text.len(),
            ) == text,
            Syntax::Integer { value, .. } => integer_of(s.subrange(i, run_end(s, i, Run::Token)))
                == Some(value),
            Syntax::String { text, .. } => {
                &&& i + text.len() + 1 < s.len()
                &&& s[i] == '"'
                &&& s.subrange(i + 1, i + 1 + text.len()) == text
                &&& s[i + 1 + text.len()] == '"'
            },
            Syntax::Form { elements, .. } => s[i] == '(' && forall|m: int|
                0 <= m < elements.len() ==> located(s, #[trigger] elements[m]),
        }
}

/// Each element that [`spec_form`] reads stands in `s` at its byte offset.
pub proof fn lemma_form_located(s: Seq<char>, i: int, open: int, outer: bool, acc: Seq<Syntax>)
    requires
        0 <= i <= s.len(),
        forall|m: int| 0 <= m < acc.len() ==> located(s, #[trigger] acc[m]),
    ensures
        spec_form(s, i, open, outer, acc) matches Ok((elements, _)) ==> forall|m: int|
            0 <= m < elements.len() ==> located(s, #[trigger] elements[m]),
    decreases s.len() - i,
{
    let j = run_end(s, i, Run::Space);
    lemma_run_end(s, i, Run::Space);
    if j < s.len() && s[j] != ')' {
        lemma_run_end(s, j, Run::Token);
        lemma_run_end(s, j + 1, Run::Quoted);
        let item = if s[j] == '(' {
            match spec_form(s, j + 1, j, false, seq![]) {
                Ok((elements, k)) => Ok((Syntax::Form { elements, at: byte_offset(s, j) }, k)),
                Err(e) => Err(e),
            }
        } else if is_digit(s[j]) {
            spec_int(s, j)
        } else if s[j] == '"' {
            spec_str(s, j)
        } else {
            spec_identifier(s, j)
        };
        if let Ok((n, k)) = item {
            if j < k <= s.len() {
                if s[j] == '(' {
                    lemma_form_located(s, j + 1, j, false, seq![]);
                } else if !is_digit(s[j]) && s[j] == '"' {
                    let e = run_end(s, j + 1, Run::Quoted);
                    assert(s.subrange(j + 1, e) =~= s.subrange(j + 1, j + 1 + (e - j - 1)));
                }
                assert(byte_offset(s, j) == offset_of(n));
                assert(located(s, n));
                let next = acc.push(n);
                assert forall|m: int| 0 <= m < next.len() implies located(s, #[trigger] next[m]) by {
                    if m < acc.len() {
                        assert(next[m] == acc[m]);
                    }
                }
                lemma_form_located(s, k, open, outer, next);
            }
        }
    }
}

/// Every node that parsing yields, at any depth, stands in the text at its byte offset.
pub proof fn lemma_parse_offsets(s: Seq<char>)
    ensures
        spec_parse(s) matches Ok(nodes) ==> forall|m: int|
            0 <= m < nodes.len() ==> located(s, #[trigger] nodes[m]),
{
    lemma_form_located(s, 0, 0, true, seq![]);
}

/// Parsing is deterministic: equal texts give equal results.
pub proof fn lemma_parse_deterministic(a: Seq<char>, b: Seq<char>)
    requires
        a == b,
    ensures
        spec_parse(a) == spec_parse(b),
{
}

} // verus!
